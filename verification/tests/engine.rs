use gridcalc::compute::node::{resolve_reference, BinaryOp, Node};
use gridcalc::compute::parse::{make_node, parse, reduce_paren_stack, split_into_terms, ParenStack};
use gridcalc::rational::Rational;

fn terms(v: Vec<&str>) -> Vec<String> {
    v.iter().map(|s| s.to_string()).collect()
}

fn term(s: &str) -> ParenStack {
    ParenStack::Term(s.to_string())
}

#[test]
fn compute_test_split_into_terms() {
    assert_eq!(split_into_terms("123"), vec!["123"]);
    assert_eq!(
        split_into_terms("1 + 2 * 3 - 4 / 5"),
        vec!["1", "+", "2", "*", "3", "-", "4", "/", "5"]
    );
    assert_eq!(
        split_into_terms("( 1.5 * (1.2 - B3 ) + A4)"),
        vec!["(", "1.5", "*", "(", "1.2", "-", "B3", ")", "+", "A4", ")"]
    );
}

#[test]
fn compute_test_reduce_paren_stack() {
    assert_eq!(
        reduce_paren_stack(terms(vec!["1", "+", "2"])),
        Ok(ParenStack::Parens(vec![term("1"), term("+"), term("2")]))
    );

    assert_eq!(
        reduce_paren_stack(terms(vec!["3", "*", "(", "1", "+", "2", ")"])),
        Ok(ParenStack::Parens(vec![
            term("3"),
            term("*"),
            ParenStack::Parens(vec![term("1"), term("+"), term("2")]),
        ]))
    );

    assert_eq!(
        reduce_paren_stack(terms(vec![
            "(", "B4", "-", "(", "C4", "/", "A2", ")", ")", "*", "(", "1", "+", "2", ")"
        ])),
        Ok(ParenStack::Parens(vec![
            ParenStack::Parens(vec![
                term("B4"),
                term("-"),
                ParenStack::Parens(vec![term("C4"), term("/"), term("A2")]),
            ]),
            term("*"),
            ParenStack::Parens(vec![term("1"), term("+"), term("2")]),
        ]))
    );

    assert_eq!(
        reduce_paren_stack(terms(vec!["3", "*", "(", "1", "+", "2"])),
        Err("Unmatched opening paren".to_string())
    );

    assert_eq!(
        reduce_paren_stack(terms(vec!["3", "*", "(", "1", "+", "2", ")", ")"])),
        Err("Unmatched closing paren".to_string())
    );
}

#[test]
fn parse_test_split_into_terms() {
    assert_eq!(split_into_terms("123"), vec!["123"]);
    assert_eq!(
        split_into_terms("1 + 2 * 3 - 4 / 5"),
        vec!["1", "+", "2", "*", "3", "-", "4", "/", "5"]
    );
    assert_eq!(
        split_into_terms("( 1.5 * (1.2 - B3 ) + A4)"),
        vec!["(", "1.5", "*", "(", "1.2", "-", "B3", ")", "+", "A4", ")"]
    );
}

#[test]
fn parse_test_reduce_paren_stack() {
    assert_eq!(
        reduce_paren_stack(terms(vec!["1", "+", "2"])),
        Ok(ParenStack::Parens(vec![term("1"), term("+"), term("2")]))
    );

    assert_eq!(
        reduce_paren_stack(terms(vec!["3", "*", "(", "1", "+", "2", ")"])),
        Ok(ParenStack::Parens(vec![
            term("3"),
            term("*"),
            ParenStack::Parens(vec![term("1"), term("+"), term("2")]),
        ]))
    );

    assert_eq!(
        reduce_paren_stack(terms(vec![
            "(", "B4", "-", "(", "C4", "/", "A2", ")", ")", "*", "(", "1", "+", "2", ")"
        ])),
        Ok(ParenStack::Parens(vec![
            ParenStack::Parens(vec![
                term("B4"),
                term("-"),
                ParenStack::Parens(vec![term("C4"), term("/"), term("A2")]),
            ]),
            term("*"),
            ParenStack::Parens(vec![term("1"), term("+"), term("2")]),
        ]))
    );

    assert_eq!(
        reduce_paren_stack(terms(vec!["3", "*", "(", "1", "+", "2"])),
        Err("Unmatched opening paren".to_string())
    );

    assert_eq!(
        reduce_paren_stack(terms(vec!["3", "*", "(", "1", "+", "2", ")", ")"])),
        Err("Unmatched closing paren".to_string())
    );
}

#[test]
fn test_tokenize_then_tree() {
    let toks = split_into_terms("( 1.5 * (1.2 - B3 ) + A4)");
    assert_eq!(
        toks,
        vec!["(", "1.5", "*", "(", "1.2", "-", "B3", ")", "+", "A4", ")"]
    );
    // one outer level holding one inner level
    assert_eq!(
        reduce_paren_stack(toks),
        Ok(ParenStack::Parens(vec![ParenStack::Parens(vec![
            term("1.5"),
            term("*"),
            ParenStack::Parens(vec![term("1.2"), term("-"), term("B3")]),
            term("+"),
            term("A4"),
        ])]))
    );
}

#[test]
fn test_resolve_references() {
    assert_eq!(
        resolve_reference(&"123".to_string()),
        Err("Could not parse reference: 123".to_string())
    );
    assert_eq!(resolve_reference(&"A1".to_string()), Ok((0, 0)));
    assert_eq!(resolve_reference(&"AA11".to_string()), Ok((10, 26)));
}

fn easy_make_node(ast: ParenStack) -> Result<Node, String> {
    match ast {
        ParenStack::Term(t) => make_node(vec![ParenStack::Term(t)]),
        ParenStack::Parens(ts) => make_node(ts),
    }
}

#[test]
fn test_make_node() {
    assert_eq!(
        easy_make_node(term("1")),
        Ok(Node::Literal(Rational::from_int(1)))
    );
    assert_eq!(
        easy_make_node(ParenStack::Parens(vec![term("1"), term("+"), term("2")])),
        Ok(Node::BinaryOp(
            BinaryOp::Add,
            Box::new(Node::Literal(Rational::from_int(1))),
            Box::new(Node::Literal(Rational::from_int(2))),
        ))
    );

    assert_eq!(
        easy_make_node(ParenStack::Parens(vec![
            term("3"),
            term("+"),
            term("A2"),
            term("*"),
            term("5"),
        ])),
        Ok(Node::BinaryOp(
            BinaryOp::Add,
            Box::new(Node::Literal(Rational::from_int(3))),
            Box::new(Node::BinaryOp(
                BinaryOp::Multiply,
                Box::new(Node::Reference("A2".to_string())),
                Box::new(Node::Literal(Rational::from_int(5))),
            )),
        ))
    );

    assert_eq!(
        easy_make_node(ParenStack::Parens(vec![
            term("3"),
            term("*"),
            term("4"),
            term("+"),
            term("5"),
        ])),
        Ok(Node::BinaryOp(
            BinaryOp::Add,
            Box::new(Node::BinaryOp(
                BinaryOp::Multiply,
                Box::new(Node::Literal(Rational::from_int(3))),
                Box::new(Node::Literal(Rational::from_int(4))),
            )),
            Box::new(Node::Literal(Rational::from_int(5))),
        ))
    );

    assert_eq!(
        easy_make_node(ParenStack::Parens(vec![
            ParenStack::Parens(vec![term("3"), term("+"), term("4")]),
            term("*"),
            term("CC100"),
        ])),
        Ok(Node::BinaryOp(
            BinaryOp::Multiply,
            Box::new(Node::BinaryOp(
                BinaryOp::Add,
                Box::new(Node::Literal(Rational::from_int(3))),
                Box::new(Node::Literal(Rational::from_int(4))),
            )),
            Box::new(Node::Reference("CC100".to_string())),
        ))
    );
}

#[test]
fn test_make_node_errors() {
    assert_eq!(
        make_node(vec![term("+"), term("1")]),
        Err("BinaryOp at boundary".to_string())
    );
    assert_eq!(
        make_node(vec![term("1"), term("+"), term("+"), term("2")]),
        Err("Bad multiplication before raw".to_string())
    );
    assert_eq!(
        make_node(vec![term("1"), term("2")]),
        Err("Could not fully reduce".to_string())
    );
    assert_eq!(
        make_node(vec![term("x")]),
        Err("Could not reduce from raw".to_string())
    );
}

#[test]
fn test_parse_pipeline() {
    assert_eq!(
        parse("3 * ( 1 + 2"),
        Err("Unmatched opening paren".to_string())
    );
    assert_eq!(
        parse("3 * ( 1 + 2 ) )"),
        Err("Unmatched closing paren".to_string())
    );
    assert_eq!(
        parse("(2 + 3) * 4"),
        Ok(Node::BinaryOp(
            BinaryOp::Multiply,
            Box::new(Node::BinaryOp(
                BinaryOp::Add,
                Box::new(Node::Literal(Rational::from_int(2))),
                Box::new(Node::Literal(Rational::from_int(3))),
            )),
            Box::new(Node::Literal(Rational::from_int(4))),
        ))
    );
}

#[test]
fn test_resolve_reference_rejects() {
    assert_eq!(
        resolve_reference(&"a1".to_string()),
        Err("Could not parse reference: a1".to_string())
    );
    assert_eq!(
        resolve_reference(&"A".to_string()),
        Err("Could not parse reference: A".to_string())
    );
    assert_eq!(
        resolve_reference(&"A0".to_string()),
        Err("Could not parse column for reference: A0".to_string())
    );
    assert_eq!(
        resolve_reference(&"A99999".to_string()),
        Err("Could not parse column for reference: A99999".to_string())
    );
    assert_eq!(resolve_reference(&"Z1".to_string()), Ok((0, 25)));
}

#[test]
fn test_parse_literal() {
    assert_eq!(
        Rational::parse_literal("1.5"),
        Some(Rational::new(15, 10))
    );
    assert_eq!(Rational::parse_literal(".5"), Some(Rational::new(5, 10)));
    assert_eq!(Rational::parse_literal("5."), Some(Rational::new(5, 1)));
    assert_eq!(Rational::parse_literal("42"), Some(Rational::from_int(42)));
    assert_eq!(Rational::parse_literal(""), None);
    assert_eq!(Rational::parse_literal("."), None);
    assert_eq!(Rational::parse_literal("1.2.3"), None);
    assert_eq!(Rational::parse_literal("1e3"), None);
    assert_eq!(Rational::parse_literal("x9"), None);
}

#[test]
fn test_rational_arithmetic() {
    let a = Rational::new(1, 2);
    let b = Rational::new(1, 3);
    let sum = a.add(&b).unwrap();
    assert!(sum.eq_value(&Rational::new(5, 6)));
    let diff = a.sub(&b).unwrap();
    assert!(diff.eq_value(&Rational::new(1, 6)));
    let prod = a.mul(&b).unwrap();
    assert!(prod.eq_value(&Rational::new(1, 6)));
    let quot = a.div(&b).unwrap();
    assert!(quot.eq_value(&Rational::new(3, 2)));
    assert!(Rational::from_int(0).is_zero());
    assert!(!Rational::from_int(7).is_zero());
}

#[test]
fn test_rational_render() {
    assert_eq!(Rational::from_int(20).render(), "20");
    assert_eq!(Rational::new(314, 100).render(), "3.14");
    assert_eq!(Rational::new(31, 5).render(), "6.2");
    assert_eq!(Rational::from_int(-3).render(), "-3");
    assert_eq!(Rational::new(-1, 2).render(), "-0.5");
    assert_eq!(Rational::new(1, 3).render(), "0.33333333333333333333");
    assert_eq!(Rational::from_int(0).render(), "0");
}
