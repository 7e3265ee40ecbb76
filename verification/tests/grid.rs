use gridcalc::compute::bake::bake;
use gridcalc::compute::node::resolve_reference;
use gridcalc::rational::Rational;
use gridcalc::sheet::Sheet;
use gridcalc::state::{Alignment, CellComputation, Cursor, DisplayCell, Mode, State};

fn addr(s: &str) -> (u16, u16) {
    resolve_reference(&s.to_string()).unwrap()
}

fn cell(text: &str) -> DisplayCell {
    DisplayCell::new(text.to_string())
}

#[test]
fn test_bake() {
    let mut state = State::blank();

    state.set_at(addr("A1"), cell("4 * ( 2 + 3 )"));
    state.set_at(addr("B1"), cell("A1 * 2"));
    state.set_at(addr("C1"), cell("B1 * 2"));
    bake(&mut state);

    let a1 = state.get_at(addr("A1"));
    assert_eq!(a1.computed.is_computed, true);
    assert_eq!(a1.computed.error, false);
    assert_eq!(a1.computed.display, "20");
    assert_eq!(a1.computed.value, Some(Rational::from_int(20)));

    let b1 = state.get_at(addr("B1"));
    assert_eq!(b1.computed.is_computed, true);
    assert_eq!(b1.computed.error, false);
    assert_eq!(b1.computed.display, "40");
    assert_eq!(b1.computed.value, Some(Rational::from_int(40)));

    let c1 = state.get_at(addr("C1"));
    assert_eq!(c1.computed.is_computed, true);
    assert_eq!(c1.computed.error, false);
    assert_eq!(c1.computed.display, "80");
    assert_eq!(c1.computed.value, Some(Rational::from_int(80)));
}

#[test]
fn test_bake_2() {
    let mut state = State::blank();
    state.set_at(addr("C3"), cell("100"));
    state.set_at(addr("C4"), cell("C3 + 1"));
    state.set_at(addr("C5"), cell("C4 + 1"));
    bake(&mut state);

    let a1 = state.get_at(addr("C3"));
    assert_eq!(a1.computed.is_computed, true);
    assert_eq!(a1.computed.error, false);
    assert_eq!(a1.computed.display, "100");
    assert_eq!(a1.computed.value, Some(Rational::from_int(100)));

    let b1 = state.get_at(addr("C4"));
    assert_eq!(b1.computed.is_computed, true);
    assert_eq!(b1.computed.error, false);
    assert_eq!(b1.computed.display, "101");
    assert_eq!(b1.computed.value, Some(Rational::from_int(101)));

    let c1 = state.get_at(addr("C5"));
    assert_eq!(c1.computed.is_computed, true);
    assert_eq!(c1.computed.error, false);
    assert_eq!(c1.computed.display, "102");
    assert_eq!(c1.computed.value, Some(Rational::from_int(102)));
}

#[test]
fn test_bake_cycle() {
    let mut state = State::blank();
    state.set_at(addr("A1"), cell("5 + C3"));
    state.set_at(addr("B2"), cell("A1 - 4"));
    state.set_at(addr("C3"), cell("B2 * 10"));
    state.set_at(addr("D4"), cell("3.14"));
    bake(&mut state);

    let a1 = state.get_at(addr("A1"));
    assert_eq!(a1.computed.is_computed, true);
    assert_eq!(a1.computed.error, true);
    assert_eq!(a1.computed.value, None);

    let b1 = state.get_at(addr("B2"));
    assert_eq!(b1.computed.is_computed, true);
    assert_eq!(b1.computed.error, true);
    assert_eq!(b1.computed.value, None);

    let c1 = state.get_at(addr("C3"));
    assert_eq!(c1.computed.is_computed, true);
    assert_eq!(c1.computed.error, true);
    assert_eq!(c1.computed.value, None);

    let c1 = state.get_at(addr("D4"));
    assert_eq!(c1.computed.is_computed, true);
    assert_eq!(c1.computed.error, false);
    assert_eq!(c1.computed.display, "3.14");
    assert_eq!(c1.computed.value, Some(Rational::new(314, 100)));
}

#[test]
fn test_bake_precedence() {
    let mut state = State::blank();
    state.set_at(addr("A1"), cell("3 * 4 + 5"));
    state.set_at(addr("B1"), cell("1 + 2 * 3 - 4 / 5"));
    bake(&mut state);

    let a1 = state.get_at(addr("A1"));
    assert_eq!(a1.computed.error, false);
    assert_eq!(a1.computed.display, "17");
    assert_eq!(a1.computed.value, Some(Rational::from_int(17)));

    let b1 = state.get_at(addr("B1"));
    assert_eq!(b1.computed.error, false);
    assert_eq!(b1.computed.display, "6.2");
    assert!(b1.computed.value.unwrap().eq_value(&Rational::new(31, 5)));
}

#[test]
fn test_bake_divide_by_zero() {
    let mut state = State::blank();
    state.set_at(addr("A1"), cell("5 / 0"));
    state.set_at(addr("B1"), cell("1 + 1"));
    bake(&mut state);

    let a1 = state.get_at(addr("A1"));
    assert_eq!(a1.computed.is_computed, true);
    assert_eq!(a1.computed.error, true);
    assert_eq!(a1.computed.display, "Divide by 0 error");
    assert_eq!(a1.computed.value, None);

    let b1 = state.get_at(addr("B1"));
    assert_eq!(b1.computed.error, false);
    assert_eq!(b1.computed.display, "2");
}

#[test]
fn test_bake_unmatched_parens() {
    let mut state = State::blank();
    state.set_at(addr("A1"), cell("3 * ( 1 + 2"));
    state.set_at(addr("B1"), cell("3 * ( 1 + 2 ) )"));
    state.set_at(addr("C1"), cell("3 * ( 1 + 2 )"));
    bake(&mut state);

    let a1 = state.get_at(addr("A1"));
    assert_eq!(a1.computed.error, true);
    assert_eq!(a1.computed.display, "Unmatched opening paren");

    let b1 = state.get_at(addr("B1"));
    assert_eq!(b1.computed.error, true);
    assert_eq!(b1.computed.display, "Unmatched closing paren");

    let c1 = state.get_at(addr("C1"));
    assert_eq!(c1.computed.error, false);
    assert_eq!(c1.computed.display, "9");
}

#[test]
fn test_bake_reference_errors() {
    let mut state = State::blank();
    state.set_at(addr("A1"), cell("B9 + 1"));
    state.set_at(addr("A2"), cell("5 / 0"));
    state.set_at(addr("A3"), cell("A2 + 1"));
    bake(&mut state);

    let a1 = state.get_at(addr("A1"));
    assert_eq!(a1.computed.error, true);
    assert_eq!(a1.computed.display, "Error: Empty value @ B9");

    let a3 = state.get_at(addr("A3"));
    assert_eq!(a3.computed.error, true);
    assert_eq!(a3.computed.display, "Err @ A2: \"Divide by 0 error\"");
}

#[test]
fn test_bake_self_reference() {
    let mut state = State::blank();
    state.set_at(addr("A1"), cell("A1"));
    state.set_at(addr("B1"), cell("B1 + 1"));
    bake(&mut state);

    let a1 = state.get_at(addr("A1"));
    assert_eq!(a1.computed.is_computed, true);
    assert_eq!(a1.computed.error, true);
    assert_eq!(a1.computed.value, None);

    let b1 = state.get_at(addr("B1"));
    assert_eq!(b1.computed.error, true);
    assert_eq!(b1.computed.value, None);
}

#[test]
fn test_bake_cycle_with_side_chain() {
    let mut state = State::blank();
    state.set_at(addr("A1"), cell("B1"));
    state.set_at(addr("B1"), cell("C1 + D1"));
    state.set_at(addr("C1"), cell("B1"));
    state.set_at(addr("D1"), cell("5"));
    bake(&mut state);

    assert_eq!(state.get_at(addr("A1")).computed.error, true);
    assert_eq!(state.get_at(addr("B1")).computed.error, true);
    assert_eq!(state.get_at(addr("C1")).computed.error, true);
    let d1 = state.get_at(addr("D1"));
    assert_eq!(d1.computed.error, false);
    assert_eq!(d1.computed.display, "5");
}

#[test]
fn test_bake_overflow() {
    let mut state = State::blank();
    state.set_at(addr("A1"), cell("9000000000000000000 * 9000000000000000000"));
    state.set_at(addr("A2"), cell("99999999999999999999"));
    bake(&mut state);

    let a1 = state.get_at(addr("A1"));
    assert_eq!(a1.computed.error, true);
    assert_eq!(a1.computed.display, "Arithmetic overflow");

    // a literal too large for the machine word never classifies as a number
    let a2 = state.get_at(addr("A2"));
    assert_eq!(a2.computed.error, true);
    assert_eq!(a2.computed.display, "Could not reduce from raw");
}

#[test]
fn test_bake_negative_result() {
    let mut state = State::blank();
    state.set_at(addr("A1"), cell("1 - 2"));
    bake(&mut state);
    let a1 = state.get_at(addr("A1"));
    assert_eq!(a1.computed.error, false);
    assert_eq!(a1.computed.display, "-1");
}

#[test]
fn test_blank_cells_stay_uncomputed() {
    let mut state = State::blank();
    state.set_at(addr("B2"), cell("7"));
    bake(&mut state);
    let a1 = state.get_at(addr("A1"));
    assert_eq!(a1.computed.is_computed, false);
    let far = state.get_at(addr("Z99"));
    assert_eq!(far.computed.is_computed, false);
    assert_eq!(far.value, "");
}

#[test]
fn test_state_get_set() {
    let mut state = State::blank();
    state.set_at((2, 2), cell("4 * ( 2 + 3 )"));
    assert_eq!(state.get_at((2, 2)).value, "4 * ( 2 + 3 )");
    assert_eq!(state.get_at((0, 0)).value, "");
    state.set_at((0, 0), cell("x"));
    assert_eq!(state.get_at((0, 0)).value, "x");
    assert_eq!(state.get_at((2, 2)).value, "4 * ( 2 + 3 )");
}

#[test]
fn test_state_edit_at() {
    let mut state = State::blank();
    state.edit_at((1, 1), |c: &DisplayCell| {
        let mut text = c.value.clone();
        text.push('7');
        DisplayCell::new(text)
    });
    assert_eq!(state.get_at((1, 1)).value, "7");
    state.edit_at((1, 1), |c: &DisplayCell| {
        let mut text = c.value.clone();
        text.push('2');
        DisplayCell::new(text)
    });
    assert_eq!(state.get_at((1, 1)).value, "72");
}

#[test]
fn test_cursor_moves() {
    let c = Cursor::Single((3, 4));
    match c.move_h(1) {
        Cursor::Single(a) => assert_eq!(a, (3, 5)),
        _ => panic!("expected a single cell"),
    }
    match c.move_v(-1) {
        Cursor::Single(a) => assert_eq!(a, (2, 4)),
        _ => panic!("expected a single cell"),
    }
    let left_edge = Cursor::Single((3, 0));
    match left_edge.move_h(-1) {
        Cursor::Row(r) => assert_eq!(r, 3),
        _ => panic!("expected a row selection"),
    }
    let top_edge = Cursor::Single((0, 4));
    match top_edge.move_v(-1) {
        Cursor::Column(col) => assert_eq!(col, 4),
        _ => panic!("expected a column selection"),
    }
    match Cursor::Row(3).move_h(1) {
        Cursor::Single(a) => assert_eq!(a, (3, 0)),
        _ => panic!("expected a single cell"),
    }
    match Cursor::Column(4).move_v(2) {
        Cursor::Single(a) => assert_eq!(a, (0, 4)),
        _ => panic!("expected a single cell"),
    }
}

#[test]
fn test_col_name() {
    assert_eq!(State::col_name(1), "A");
    assert_eq!(State::col_name(2), "B");
    assert_eq!(State::col_name(25), "Y");
    assert_eq!(State::col_name(0), "@");
    assert_eq!(State::col_name(26), "@");
    assert_eq!(State::col_name(27), "A");
}

#[test]
fn test_cell_computation_slots() {
    let mut comp = CellComputation::new();
    assert_eq!(comp.is_computed, false);
    comp.set_computed(Rational::from_int(5));
    assert_eq!(comp.is_computed, true);
    assert_eq!(comp.error, false);
    assert_eq!(comp.display, "5");
    comp.set_error("boom".to_string());
    assert_eq!(comp.error, true);
    assert_eq!(comp.display, "boom");
    assert_eq!(comp.value, None);
    comp.clear();
    assert_eq!(comp.is_computed, false);
}

#[test]
fn test_display_cell_alignment() {
    let c = DisplayCell::new("hi".to_string());
    assert!(matches!(c.alignment, Alignment::Left));
    let c = c.with_alignment(Alignment::Right);
    assert!(matches!(c.alignment, Alignment::Right));
    assert_eq!(c.value, "hi");
    assert!(matches!(State::blank().mode, Mode::Nav));
}

#[test]
fn test_sheet_blank() {
    let sheet = Sheet::blank(4);
    assert_eq!(sheet.content.len(), 4);
    assert_eq!(sheet.content[0].len(), 4);
    assert_eq!(sheet.content[0][0].value, "");
    assert_eq!(sheet.content[0][1].value, "@");
    assert_eq!(sheet.content[0][2].value, "A");
    assert_eq!(sheet.content[0][3].value, "B");
    assert_eq!(sheet.content[1].len(), 1);
    assert_eq!(sheet.content[1][0].value, "1");
    assert_eq!(sheet.content[3][0].value, "3");
    assert_eq!(Sheet::col_name(1), "A");
}

#[test]
fn test_sheet_edit_at() {
    let mut sheet = Sheet::blank(2);
    sheet.edit_at((3, 2), |c: &gridcalc::sheet::DisplayCell| {
        let mut text = c.value.clone();
        text.push('x');
        gridcalc::sheet::DisplayCell::new(text)
    });
    assert_eq!(sheet.content[3][2].value, "x");
    // the appended rows carry their row-number label
    assert_eq!(sheet.content[2][0].value, "2");
}
