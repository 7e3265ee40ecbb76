//! The grid document: cells holding raw text, an alignment hint, and the
//! computed slot that a recompute pass fills; plus the surrounding editor
//! state (mode, scroll position, cursor).
use crate::rational::{rat_render, RatV, Rational};
use vstd::prelude::*;

verus! {

/// A zero-based (row, column) grid coordinate.
pub type Address = (u16, u16);

/// Whether the surrounding editor is navigating or editing a cell.
pub enum Mode {
    Nav,
    Edit,
}

/// The model of a computed slot.
pub struct CompV {
    pub is_computed: bool,
    pub error: bool,
    pub display: Seq<char>,
    pub value: Option<RatV>,
}

/// A computed slot that has not been filled yet.
pub open spec fn comp_new() -> CompV {
    CompV { is_computed: false, error: false, display: Seq::<char>::empty(), value: None }
}

/// The computed slot of a cell: untouched, a numeric value with its display
/// string, or an error message.
pub struct CellComputation {
    pub is_computed: bool,
    pub error: bool,
    pub display: String,
    pub value: Option<Rational>,
}

impl View for CellComputation {
    type V = CompV;

    open spec fn view(&self) -> CompV {
        CompV {
            is_computed: self.is_computed,
            error: self.error,
            display: self.display@,
            value: match self.value {
                Some(v) => Some(v@),
                None => None,
            },
        }
    }
}

impl CellComputation {
    /// A slot that has never been computed.
    pub fn new() -> (r: Self)
        ensures
            r@ == comp_new(),
    {
        CellComputation { is_computed: false, error: false, display: String::new(), value: None }
    }

    /// Marks the slot as not computed; the stale display text remains, as it
    /// is never read while the slot is unset.
    pub fn clear(&mut self)
        ensures
            final(self)@ == (CompV { is_computed: false, ..old(self)@ }),
    {
        self.is_computed = false;
    }

    /// Fills the slot with an error message.
    pub fn set_error(&mut self, err: String)
        ensures
            final(self)@ == (CompV {
                is_computed: true,
                error: true,
                display: err@,
                value: None,
            }),
    {
        self.is_computed = true;
        self.error = true;
        self.display = err;
        self.value = None;
    }

    /// Fills the slot with a numeric value and its decimal rendering.
    pub fn set_computed(&mut self, value: Rational)
        ensures
            final(self)@ == (CompV {
                is_computed: true,
                error: false,
                display: rat_render(value@),
                value: Some(value@),
            }),
    {
        self.is_computed = true;
        self.error = false;
        self.display = value.render();
        self.value = Some(value);
    }
}

/// How a cell's text is aligned when drawn; ignored by the formula engine.
pub enum Alignment {
    Left,
    Right,
}

/// The model of a cell.
pub struct CellV {
    pub alignment: Alignment,
    pub value: Seq<char>,
    pub computed: CompV,
}

/// The blank cell: empty text, left aligned, never computed.
pub open spec fn blank_cell_v() -> CellV {
    CellV { alignment: Alignment::Left, value: Seq::<char>::empty(), computed: comp_new() }
}

/// One cell of the grid.
pub struct DisplayCell {
    pub alignment: Alignment,
    pub value: String,
    pub computed: CellComputation,
}

impl View for DisplayCell {
    type V = CellV;

    open spec fn view(&self) -> CellV {
        CellV { alignment: self.alignment, value: self.value@, computed: self.computed@ }
    }
}

impl DeepView for DisplayCell {
    type V = CellV;

    open spec fn deep_view(&self) -> CellV {
        self.view()
    }
}

impl DisplayCell {
    /// A left-aligned cell holding `value`, not yet computed.
    pub fn new(value: String) -> (r: Self)
        ensures
            r@ == (CellV {
                alignment: Alignment::Left,
                value: value@,
                computed: comp_new(),
            }),
    {
        DisplayCell { value, computed: CellComputation::new(), alignment: Alignment::Left }
    }

    /// The blank cell.
    pub fn blank() -> (r: Self)
        ensures
            r@ == blank_cell_v(),
    {
        DisplayCell::new(String::new())
    }

    /// The same cell with another alignment.
    pub fn with_alignment(self, alignment: Alignment) -> (r: Self)
        ensures
            r@ == (CellV { alignment, ..self@ }),
    {
        let mut cell = self;
        cell.alignment = alignment;
        cell
    }
}

/// Saturating addition of a signed offset to an unsigned coordinate.
pub open spec fn sat_add_spec(x: int, d: int) -> int {
    if x + d < 0 {
        0
    } else if x + d > u16::MAX {
        u16::MAX as int
    } else {
        x + d
    }
}

pub(crate) fn sat_add(x: u16, d: i16) -> (r: u16)
    ensures
        r as int == sat_add_spec(x as int, d as int),
{
    if d >= 0 {
        let sum: u32 = x as u32 + d as u32;
        if sum > u16::MAX as u32 {
            u16::MAX
        } else {
            sum as u16
        }
    } else {
        let mag: u32 = (-(d as i32)) as u32;
        if x as u32 >= mag {
            (x as u32 - mag) as u16
        } else {
            0
        }
    }
}

/// What the grid selection is: a single cell, a whole row, or a whole column.
pub enum Cursor {
    Single(Address),
    Row(u16),
    Column(u16),
}

/// Where a horizontal move by `d` takes the cursor: moving left from column
/// zero selects the row; moving right from a row selection re-enters it.
pub open spec fn move_h_spec(cur: Cursor, d: int) -> Cursor {
    match cur {
        Cursor::Single((r, c)) => {
            if d < 0 && c == 0 {
                Cursor::Row(r)
            } else {
                Cursor::Single((r, sat_add_spec(c as int, d) as u16))
            }
        },
        Cursor::Row(r) => {
            if d < 0 {
                Cursor::Row(r)
            } else {
                Cursor::Single((r, 0u16))
            }
        },
        Cursor::Column(c) => Cursor::Column(sat_add_spec(c as int, d) as u16),
    }
}

/// Where a vertical move by `d` takes the cursor, symmetrically.
pub open spec fn move_v_spec(cur: Cursor, d: int) -> Cursor {
    match cur {
        Cursor::Single((r, c)) => {
            if d < 0 && r == 0 {
                Cursor::Column(c)
            } else {
                Cursor::Single((sat_add_spec(r as int, d) as u16, c))
            }
        },
        Cursor::Row(r) => Cursor::Row(sat_add_spec(r as int, d) as u16),
        Cursor::Column(c) => {
            if d < 0 {
                Cursor::Column(c)
            } else {
                Cursor::Single((0u16, c))
            }
        },
    }
}

impl Cursor {
    /// Moves the selection horizontally by `direction`.
    pub fn move_h(&self, direction: i16) -> (r: Self)
        ensures
            r == move_h_spec(*self, direction as int),
    {
        match self {
            Cursor::Single((r, c)) => {
                if direction < 0 && *c == 0 {
                    Cursor::Row(*r)
                } else {
                    Cursor::Single((*r, sat_add(*c, direction)))
                }
            },
            Cursor::Row(r) => {
                if direction < 0 {
                    Cursor::Row(*r)
                } else {
                    Cursor::Single((*r, 0))
                }
            },
            Cursor::Column(c) => Cursor::Column(sat_add(*c, direction)),
        }
    }

    /// Moves the selection vertically by `direction`.
    pub fn move_v(&self, direction: i16) -> (r: Self)
        ensures
            r == move_v_spec(*self, direction as int),
    {
        match self {
            Cursor::Single((r, c)) => {
                if direction < 0 && *r == 0 {
                    Cursor::Column(*c)
                } else {
                    Cursor::Single((sat_add(*r, direction), *c))
                }
            },
            Cursor::Row(r) => Cursor::Row(sat_add(*r, direction)),
            Cursor::Column(c) => {
                if direction < 0 {
                    Cursor::Column(*c)
                } else {
                    Cursor::Single((0, *c))
                }
            },
        }
    }
}

/// The model of the whole document state.
pub struct StateV {
    pub mode: Mode,
    pub grid: Seq<Seq<CellV>>,
    pub scroll: Address,
    pub cursor: Cursor,
    pub edit_cursor: int,
}

/// Whether (r, c) lies inside the grid.
pub open spec fn in_extent(g: Seq<Seq<CellV>>, r: int, c: int) -> bool {
    0 <= r < g.len() && 0 <= c < g[r].len()
}

/// The grid after replacing the computed slot at `a`, everything else as it
/// was.
pub open spec fn grid_with_slot(g: Seq<Seq<CellV>>, a: Address, comp: CompV) -> Seq<Seq<CellV>> {
    let r = a.0 as int;
    let c = a.1 as int;
    g.update(r, g[r].update(c, CellV { computed: comp, ..g[r][c] }))
}

/// The cell that reading `g` at (r, c) yields: the stored cell in range, the
/// blank cell out of range.
pub open spec fn cell_at(g: Seq<Seq<CellV>>, r: int, c: int) -> CellV {
    if 0 <= r < g.len() && 0 <= c < g[r].len() {
        g[r][c]
    } else {
        blank_cell_v()
    }
}

/// The grid after writing `cell` at (r, c): missing rows are appended empty,
/// the target row is padded with blank cells up to the target column.
pub open spec fn grid_set(g: Seq<Seq<CellV>>, r: int, c: int, cell: CellV) -> Seq<Seq<CellV>> {
    let g1 = if r < g.len() {
        g
    } else {
        g + Seq::new((r + 1 - g.len()) as nat, |i: int| Seq::<CellV>::empty())
    };
    let row = g1[r];
    let row1 = if c < row.len() {
        row
    } else {
        row + Seq::new((c + 1 - row.len()) as nat, |i: int| blank_cell_v())
    };
    g1.update(r, row1.update(c, cell))
}

/// The whole document: the grid of cells and the editor state around it.
pub struct State {
    pub mode: Mode,
    pub content: Vec<Vec<DisplayCell>>,
    pub scroll: Address,
    pub cursor: Cursor,
    pub edit_cursor: usize,
    pub(crate) blank: DisplayCell,
}

impl View for State {
    type V = StateV;

    open(crate) spec fn view(&self) -> StateV {
        StateV {
            mode: self.mode,
            grid: self.content.deep_view(),
            scroll: self.scroll,
            cursor: self.cursor,
            edit_cursor: self.edit_cursor as int,
        }
    }
}

impl State {
    /// The one shared blank cell handed out for out-of-range reads.
    #[verifier::type_invariant]
    spec fn blank_inv(&self) -> bool {
        self.blank@ == blank_cell_v()
    }

    /// An empty document in navigation mode.
    pub fn blank() -> (r: Self)
        ensures
            r@.mode == Mode::Nav,
            r@.grid =~= Seq::<Seq<CellV>>::empty(),
            r@.scroll == (0u16, 0u16),
            r@.cursor == Cursor::Single((1u16, 1u16)),
            r@.edit_cursor == 0,
    {
        State {
            mode: Mode::Nav,
            content: Vec::new(),
            scroll: (0, 0),
            cursor: Cursor::Single((1, 1)),
            edit_cursor: 0,
            blank: DisplayCell::blank(),
        }
    }

    /// The single-letter column label: `@` for zero, then `A` through `Y`,
    /// repeating every 26 columns.
    pub fn col_name(i: u8) -> (r: String)
        ensures
            r@ =~= seq![col_name_char(i as int)],
    {
        let code: u8 = 64 + (i % 26);
        crate::text::char_string(code as char)
    }

    /// The cell stored at `addr`, or the shared blank cell when the address
    /// lies outside the grid.
    pub fn get_at(&self, addr: Address) -> (r: &DisplayCell)
        ensures
            r@ == cell_at(self@.grid, addr.0 as int, addr.1 as int),
    {
        proof {
            use_type_invariant(&*self);
        }
        let r = addr.0 as usize;
        let c = addr.1 as usize;
        if r < self.content.len() {
            let row = &self.content[r];
            if c < row.len() {
                return &row[c];
            }
        }
        &self.blank
    }

    /// Applies `f` to the cell at `addr` (the blank cell when the address is
    /// outside the grid) and stores the result there, growing the grid as
    /// needed.
    pub fn edit_at<F: Fn(&DisplayCell) -> DisplayCell>(&mut self, addr: Address, f: F)
        requires
            forall|x: &DisplayCell| #[trigger] call_requires(f, (x,)),
        ensures
            exists|x: DisplayCell, y: DisplayCell|
                {
                    &&& x@ == cell_at(old(self)@.grid, addr.0 as int, addr.1 as int)
                    &&& #[trigger] call_ensures(f, (&x,), y)
                    &&& final(self)@.grid =~~= grid_set(
                        old(self)@.grid,
                        addr.0 as int,
                        addr.1 as int,
                        y@,
                    )
                },
            final(self)@.mode == old(self)@.mode,
            final(self)@.scroll == old(self)@.scroll,
            final(self)@.cursor == old(self)@.cursor,
            final(self)@.edit_cursor == old(self)@.edit_cursor,
    {
        let cell_ref = self.get_at(addr);
        let ghost gx: DisplayCell = *cell_ref;
        let y = f(cell_ref);
        let ghost gy: DisplayCell = y;
        self.set_at(addr, y);
        proof {
            assert(call_ensures(f, (&gx,), gy));
        }
    }

    /// Replaces the computed slot of the cell at `addr`, which must lie
    /// inside the grid.
    pub(crate) fn put_slot(&mut self, addr: Address, comp: CellComputation)
        requires
            in_extent(old(self)@.grid, addr.0 as int, addr.1 as int),
        ensures
            final(self)@.grid =~~= grid_with_slot(old(self)@.grid, addr, comp@),
            final(self)@.mode == old(self)@.mode,
            final(self)@.scroll == old(self)@.scroll,
            final(self)@.cursor == old(self)@.cursor,
            final(self)@.edit_cursor == old(self)@.edit_cursor,
    {
        proof {
            use_type_invariant(&*self);
        }
        let r = addr.0 as usize;
        let c = addr.1 as usize;
        let ghost g0 = self@.grid;
        let mut content: Vec<Vec<DisplayCell>> = Vec::new();
        core::mem::swap(&mut content, &mut self.content);
        let mut row: Vec<DisplayCell> = Vec::new();
        core::mem::swap(&mut row, &mut content[r]);
        let ghost row0 = row.deep_view();
        let mut cell = DisplayCell::blank();
        core::mem::swap(&mut cell, &mut row[c]);
        cell.computed = comp;
        core::mem::swap(&mut cell, &mut row[c]);
        core::mem::swap(&mut row, &mut content[r]);
        core::mem::swap(&mut content, &mut self.content);
        proof {
            assert(row0 == g0[r as int]);
            assert(self@.grid =~~= grid_with_slot(g0, addr, comp@));
        }
    }

    /// Marks every cell's computed slot as not computed, leaving everything
    /// else in place.
    pub(crate) fn clear_all(&mut self)
        ensures
            final(self)@.grid.len() == old(self)@.grid.len(),
            forall|r: int|
                0 <= r < old(self)@.grid.len() ==> (#[trigger] final(self)@.grid[r]).len()
                    == old(self)@.grid[r].len(),
            forall|r: int, c: int|
                in_extent(old(self)@.grid, r, c) ==> #[trigger] final(self)@.grid[r][c]
                    == (CellV {
                    computed: CompV { is_computed: false, ..old(self)@.grid[r][c].computed },
                    ..old(self)@.grid[r][c]
                }),
            final(self)@.mode == old(self)@.mode,
            final(self)@.scroll == old(self)@.scroll,
            final(self)@.cursor == old(self)@.cursor,
            final(self)@.edit_cursor == old(self)@.edit_cursor,
    {
        proof {
            use_type_invariant(&*self);
        }
        let ghost g0 = self@.grid;
        let mut content: Vec<Vec<DisplayCell>> = Vec::new();
        core::mem::swap(&mut content, &mut self.content);
        let mut r: usize = 0;
        while r < content.len()
            invariant
                0 <= r <= content@.len(),
                content.deep_view().len() == g0.len(),
                forall|i: int|
                    0 <= i < g0.len() ==> (#[trigger] content.deep_view()[i]).len()
                        == g0[i].len(),
                forall|i: int, j: int|
                    in_extent(g0, i, j) && i >= r ==> #[trigger] content.deep_view()[i][j]
                        == g0[i][j],
                forall|i: int, j: int|
                    in_extent(g0, i, j) && i < r ==> #[trigger] content.deep_view()[i][j]
                        == (CellV {
                        computed: CompV { is_computed: false, ..g0[i][j].computed },
                        ..g0[i][j]
                    }),
            decreases content@.len() - r,
        {
            let ghost cv_pre = content.deep_view();
            let mut row: Vec<DisplayCell> = Vec::new();
            core::mem::swap(&mut row, &mut content[r]);
            let ghost row0 = row.deep_view();
            proof {
                assert(row0 == cv_pre[r as int]);
            }
            let mut c: usize = 0;
            while c < row.len()
                invariant
                    0 <= c <= row@.len(),
                    row.deep_view().len() == row0.len(),
                    forall|j: int|
                        c <= j < row0.len() ==> #[trigger] row.deep_view()[j] == row0[j],
                    forall|j: int|
                        0 <= j < c ==> #[trigger] row.deep_view()[j] == (CellV {
                            computed: CompV { is_computed: false, ..row0[j].computed },
                            ..row0[j]
                        }),
                decreases row@.len() - c,
            {
                let ghost rv_pre = row.deep_view();
                let mut cell = DisplayCell::blank();
                core::mem::swap(&mut cell, &mut row[c]);
                cell.computed.clear();
                core::mem::swap(&mut cell, &mut row[c]);
                proof {
                    assert(row.deep_view() =~= rv_pre.update(
                        c as int,
                        CellV {
                            computed: CompV { is_computed: false, ..rv_pre[c as int].computed },
                            ..rv_pre[c as int]
                        },
                    ));
                }
                c = c + 1;
            }
            let ghost row_final = row.deep_view();
            core::mem::swap(&mut row, &mut content[r]);
            proof {
                assert(content.deep_view() =~~= cv_pre.update(r as int, row_final));
            }
            r = r + 1;
        }
        core::mem::swap(&mut content, &mut self.content);
    }

    /// Writes `cell` at `addr`, growing the grid as needed.
    pub fn set_at(&mut self, addr: Address, cell: DisplayCell)
        ensures
            final(self)@.grid =~~= grid_set(
                old(self)@.grid,
                addr.0 as int,
                addr.1 as int,
                cell@,
            ),
            final(self)@.mode == old(self)@.mode,
            final(self)@.scroll == old(self)@.scroll,
            final(self)@.cursor == old(self)@.cursor,
            final(self)@.edit_cursor == old(self)@.edit_cursor,
    {
        proof {
            use_type_invariant(&*self);
        }
        let r = addr.0 as usize;
        let c = addr.1 as usize;
        let ghost g0 = self.content.deep_view();
        let mut content: Vec<Vec<DisplayCell>> = Vec::new();
        core::mem::swap(&mut content, &mut self.content);
        while content.len() <= r
            invariant
                r <= 0xffff,
                g0.len() <= content.deep_view().len(),
                g0.len() <= r ==> content.deep_view().len() <= r + 1,
                g0.len() > r ==> content.deep_view().len() == g0.len(),
                content.deep_view() =~~= g0 + Seq::new(
                    (content.deep_view().len() - g0.len()) as nat,
                    |i: int| Seq::<CellV>::empty(),
                ),
            decreases r + 1 - content.len(),
        {
            let ghost pre = content.deep_view();
            content.push(Vec::new());
            proof {
                assert(content.deep_view() =~~= pre + seq![Seq::<CellV>::empty()]);
                assert(content.deep_view() =~~= g0 + Seq::new(
                    (content.deep_view().len() - g0.len()) as nat,
                    |i: int| Seq::<CellV>::empty(),
                ));
            }
        }
        let ghost g1 = content.deep_view();
        proof {
            assert(g1 =~~= (if (r as int) < g0.len() {
                g0
            } else {
                g0 + Seq::new((r + 1 - g0.len()) as nat, |i: int| Seq::<CellV>::empty())
            }));
        }
        let ghost row0 = g1[r as int];
        let mut row: Vec<DisplayCell> = Vec::new();
        core::mem::swap(&mut row, &mut content[r]);
        while row.len() <= c
            invariant
                c <= 0xffff,
                row0.len() <= row.deep_view().len(),
                row0.len() <= c ==> row.deep_view().len() <= c + 1,
                row0.len() > c ==> row.deep_view().len() == row0.len(),
                row.deep_view() =~= row0 + Seq::new(
                    (row.deep_view().len() - row0.len()) as nat,
                    |i: int| blank_cell_v(),
                ),
            decreases c + 1 - row.len(),
        {
            let ghost pre = row.deep_view();
            row.push(DisplayCell::blank());
            proof {
                assert(row.deep_view() =~= pre + seq![blank_cell_v()]);
                assert(row.deep_view() =~= row0 + Seq::new(
                    (row.deep_view().len() - row0.len()) as nat,
                    |i: int| blank_cell_v(),
                ));
            }
        }
        proof {
            assert(row.deep_view() =~= (if (c as int) < row0.len() {
                row0
            } else {
                row0 + Seq::new((c + 1 - row0.len()) as nat, |i: int| blank_cell_v())
            }));
        }
        row[c] = cell;
        content[r] = row;
        core::mem::swap(&mut content, &mut self.content);
        proof {
            assert(self.content.deep_view() =~~= grid_set(
                g0,
                addr.0 as int,
                addr.1 as int,
                cell@,
            ));
        }
    }
}

/// The column label character for index `i`.
pub open spec fn col_name_char(i: int) -> char {
    ((64 + (i % 26)) as u8) as char
}

} // verus!
