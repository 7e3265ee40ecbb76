//! Parsing a cell's text: splitting it into terms, building the bracket tree
//! that mirrors the parenthesis grouping, and reducing one bracket level into
//! an expression tree with multiplication and division binding tighter than
//! addition and subtraction, both left associative.
use crate::compute::node::{BinaryOp, Node, NodeV};
use crate::rational::Rational;
use crate::text::{char_string, trim_spec, trim_str};
use vstd::prelude::*;

verus! {

/// The characters that end a term and stand as terms of their own.
pub open spec fn is_op_char(c: char) -> bool {
    c == '+' || c == '-' || c == '*' || c == '/' || c == '(' || c == ')'
}

fn is_op(c: char) -> (r: bool)
    ensures
        r == is_op_char(c),
{
    c == '+' || c == '-' || c == '*' || c == '/' || c == '(' || c == ')'
}

/// The flushed buffer: its trimmed text as a single term, or nothing when
/// only whitespace accumulated.
pub open spec fn flush(buf: Seq<char>) -> Seq<Seq<char>> {
    if trim_spec(buf).len() == 0 {
        Seq::<Seq<char>>::empty()
    } else {
        seq![trim_spec(buf)]
    }
}

/// The terms of `s` from position `i` on, with the current term having begun
/// at `start`: each operator character flushes the buffer and stands alone.
pub open spec fn tokenize_rec(s: Seq<char>, i: int, start: int) -> Seq<Seq<char>>
    decreases s.len() - i,
    when 0 <= start <= i <= s.len()
{
    if i >= s.len() {
        flush(s.subrange(start, i))
    } else if is_op_char(s[i]) {
        flush(s.subrange(start, i)) + seq![seq![s[i]]] + tokenize_rec(s, i + 1, i + 1)
    } else {
        tokenize_rec(s, i + 1, start)
    }
}

/// The term sequence of a formula string.
pub open spec fn tokenize_spec(s: Seq<char>) -> Seq<Seq<char>> {
    tokenize_rec(s, 0, 0)
}

/// Splits a formula string into trimmed terms: every operator or parenthesis
/// character is a term of its own, and the text between them is trimmed and
/// dropped when empty.
pub fn split_into_terms(cell: &str) -> (terms: Vec<String>)
    ensures
        terms.deep_view() == tokenize_spec(cell@),
{
    let n = cell.unicode_len();
    let mut terms: Vec<String> = Vec::new();
    let mut start: usize = 0;
    let mut i: usize = 0;
    while i < n
        invariant
            0 <= start <= i <= n,
            n == cell@.len(),
            terms.deep_view() + tokenize_rec(cell@, i as int, start as int) == tokenize_spec(
                cell@,
            ),
        decreases n - i,
    {
        let c = cell.get_char(i);
        if is_op(c) {
            let ghost pre = terms.deep_view();
            let buf = cell.substring_char(start, i);
            let t = trim_str(buf);
            if t.as_str().unicode_len() > 0 {
                terms.push(t);
            }
            terms.push(char_string(c));
            proof {
                if trim_spec(cell@.subrange(start as int, i as int)).len() == 0 {
                    assert(terms.deep_view() =~~= pre + seq![seq![cell@[i as int]]]);
                    assert(terms.deep_view() =~~= pre + flush(
                        cell@.subrange(start as int, i as int),
                    ) + seq![seq![cell@[i as int]]]);
                } else {
                    assert(terms.deep_view() =~~= pre + flush(
                        cell@.subrange(start as int, i as int),
                    ) + seq![seq![cell@[i as int]]]);
                }
            }
            start = i + 1;
        }
        i = i + 1;
    }
    let ghost pre = terms.deep_view();
    let buf = cell.substring_char(start, n);
    let t = trim_str(buf);
    if t.as_str().unicode_len() > 0 {
        terms.push(t);
    }
    proof {
        assert(terms.deep_view() =~~= pre + flush(cell@.subrange(start as int, n as int)));
    }
    terms
}

/// One level of the bracket tree: a raw term, or the ordered children of one
/// parenthesis-nesting level.
#[derive(Debug, PartialEq)]
pub enum ParenStack {
    Term(String),
    Parens(Vec<ParenStack>),
}

/// The model of a bracket tree.
#[verifier::ext_equal]
pub enum TreeV {
    Term(Seq<char>),
    Parens(Seq<TreeV>),
}

/// The views of the first `n` children of one nesting level, in order.
pub open spec fn children_view(v: &Vec<ParenStack>, n: int) -> Seq<TreeV>
    decreases v, 0int, n,
    when 0 <= n <= v@.len()
{
    if n <= 0 {
        Seq::<TreeV>::empty()
    } else {
        proof {
            assert(decreases_to!(*v => v@));
            assert(decreases_to!(v@ => v@[n - 1]));
        }
        children_view(v, n - 1).push(v@[n - 1]@)
    }
}

/// `children_view` lists exactly the views of the elements.
pub proof fn lemma_children_view(v: &Vec<ParenStack>, n: int)
    requires
        0 <= n <= v@.len(),
    ensures
        children_view(v, n).len() == n,
        forall|i: int| 0 <= i < n ==> children_view(v, n)[i] == v@[i]@,
    decreases n,
{
    if n > 0 {
        lemma_children_view(v, n - 1);
        assert(children_view(v, n) == children_view(v, n - 1).push(v@[n - 1]@));
        assert forall|i: int| 0 <= i < n implies children_view(v, n)[i] == v@[i]@ by {
            if i < n - 1 {
                assert(children_view(v, n)[i] == children_view(v, n - 1)[i]);
            }
        }
    }
}

/// The view of a grouping node lists the views of its children.
pub proof fn lemma_view_is_deep(v: &Vec<ParenStack>)
    ensures
        children_view(v, v@.len() as int) =~= v.deep_view(),
{
    lemma_children_view(v, v@.len() as int);
}

impl View for ParenStack {
    type V = TreeV;

    open spec fn view(&self) -> TreeV
        decreases self, 1int, 0int,
    {
        match self {
            ParenStack::Term(s) => TreeV::Term(s@),
            ParenStack::Parens(v) => TreeV::Parens(children_view(v, v@.len() as int)),
        }
    }
}

impl DeepView for ParenStack {
    type V = TreeV;

    open spec fn deep_view(&self) -> TreeV {
        self.view()
    }
}

/// The failure message for a closing parenthesis with no open group.
pub open spec fn msg_unmatched_closing() -> Seq<char> {
    "Unmatched closing paren"@
}

/// The failure message for an opening parenthesis never closed.
pub open spec fn msg_unmatched_opening() -> Seq<char> {
    "Unmatched opening paren"@
}

/// What building the bracket tree yields from position `i` on, with `stack`
/// holding the children collected at each open nesting level (the root level
/// first): `(` opens a level, `)` closes the innermost one into its parent,
/// any other token joins the innermost level as a leaf.
pub open spec fn reduce_parens_rec(tokens: Seq<Seq<char>>, i: int, stack: Seq<Seq<TreeV>>) -> Result<
    TreeV,
    Seq<char>,
>
    decreases tokens.len() - i,
    when 0 <= i <= tokens.len() && stack.len() >= 1
{
    if i >= tokens.len() {
        if stack.len() == 1 {
            Ok(TreeV::Parens(stack[0]))
        } else {
            Err(msg_unmatched_opening())
        }
    } else {
        let t = trim_spec(tokens[i]);
        if t == seq!['('] {
            reduce_parens_rec(tokens, i + 1, stack.push(Seq::<TreeV>::empty()))
        } else if t == seq![')'] {
            if stack.len() <= 1 {
                Err(msg_unmatched_closing())
            } else {
                let inner = stack.last();
                let outer = stack[stack.len() - 2];
                reduce_parens_rec(
                    tokens,
                    i + 1,
                    stack.drop_last().drop_last().push(outer.push(TreeV::Parens(inner))),
                )
            }
        } else {
            reduce_parens_rec(
                tokens,
                i + 1,
                stack.drop_last().push(stack.last().push(TreeV::Term(tokens[i]))),
            )
        }
    }
}

/// What building the bracket tree from a term sequence yields: the root
/// grouping node, or the unmatched-parenthesis message.
pub open spec fn reduce_parens_spec(tokens: Seq<Seq<char>>) -> Result<TreeV, Seq<char>> {
    reduce_parens_rec(tokens, 0, seq![Seq::<TreeV>::empty()])
}

/// Whether the trimmed term is the single character `c`.
fn is_single(term: &String, c: char) -> (r: bool)
    ensures
        r == (trim_spec(term@) == seq![c]),
{
    let t = trim_str(term.as_str());
    let n = t.as_str().unicode_len();
    if n == 1 && t.as_str().get_char(0) == c {
        proof {
            assert(trim_spec(term@) =~= seq![c]);
        }
        true
    } else {
        proof {
            if trim_spec(term@) == seq![c] {
                assert(t@.len() == 1 && t@[0] == c);
            }
        }
        false
    }
}

/// Builds the bracket tree of a term sequence, validating that parentheses
/// balance.
pub fn reduce_paren_stack(terms: Vec<String>) -> (r: Result<ParenStack, String>)
    ensures
        match r {
            Ok(t) => reduce_parens_spec(terms.deep_view()) == Ok::<TreeV, Seq<char>>(t@),
            Err(e) => reduce_parens_spec(terms.deep_view()) == Err::<TreeV, Seq<char>>(e@),
        },
{
    let ghost toks = terms.deep_view();
    let mut stack: Vec<Vec<ParenStack>> = Vec::new();
    stack.push(Vec::new());
    proof {
        assert(stack.deep_view() =~~= seq![Seq::<TreeV>::empty()]);
    }
    let mut i: usize = 0;
    while i < terms.len()
        invariant
            0 <= i <= terms.len(),
            toks == terms.deep_view(),
            stack.len() >= 1,
            reduce_parens_rec(toks, i as int, stack.deep_view()) == reduce_parens_spec(toks),
        decreases terms.len() - i,
    {
        let ghost sv = stack.deep_view();
        proof {
            assert(toks[i as int] == terms[i as int]@);
        }
        if is_single(&terms[i], '(') {
            stack.push(Vec::new());
            proof {
                assert(stack.deep_view() =~~= sv.push(Seq::<TreeV>::empty()));
            }
        } else if is_single(&terms[i], ')') {
            if stack.len() <= 1 {
                return Err(String::from_str("Unmatched closing paren"));
            }
            let inner = stack.pop().unwrap();
            let ghost gi: Vec<ParenStack> = inner;
            let mut outer = stack.pop().unwrap();
            let ghost go = outer.deep_view();
            outer.push(ParenStack::Parens(inner));
            stack.push(outer);
            proof {
                lemma_view_is_deep(&gi);
                assert(gi.deep_view() == sv.last());
                assert(go == sv[sv.len() - 2]);
                assert(ParenStack::Parens(gi)@ =~~= TreeV::Parens(sv.last()));
                assert(outer.deep_view() =~~= go.push(TreeV::Parens(sv.last())));
                assert(stack.deep_view() =~~= sv.drop_last().drop_last().push(
                    sv[sv.len() - 2].push(TreeV::Parens(sv.last())),
                ));
            }
        } else {
            let term = terms[i].clone();
            let mut top = stack.pop().unwrap();
            let ghost gt = top.deep_view();
            top.push(ParenStack::Term(term));
            stack.push(top);
            proof {
                assert(gt == sv.last());
                assert(top.deep_view() =~~= gt.push(TreeV::Term(toks[i as int])));
                assert(stack.deep_view() =~~= sv.drop_last().push(
                    sv.last().push(TreeV::Term(toks[i as int])),
                ));
            }
        }
        i = i + 1;
    }
    if stack.len() > 1 {
        return Err(String::from_str("Unmatched opening paren"));
    }
    let ghost sv_final = stack.deep_view();
    let root = stack.pop().unwrap();
    let r = ParenStack::Parens(root);
    proof {
        lemma_view_is_deep(&root);
        assert(root.deep_view() == sv_final[0]);
        assert(r@ =~~= TreeV::Parens(sv_final[0]));
    }
    Ok(r)
}

/// A child being reduced: an expression already built, or a raw term that
/// should turn out to be an operator.
enum Computed {
    Computed(Node),
    Raw(String),
}

/// The model of a child being reduced.
#[verifier::ext_equal]
pub enum TermV {
    Done(NodeV),
    Raw(Seq<char>),
}

impl View for Computed {
    type V = TermV;

    closed spec fn view(&self) -> TermV {
        match self {
            Computed::Computed(n) => TermV::Done(n@),
            Computed::Raw(s) => TermV::Raw(s@),
        }
    }
}

impl DeepView for Computed {
    type V = TermV;

    closed spec fn deep_view(&self) -> TermV {
        self.view()
    }
}

/// Which operator family one reduction pass collapses.
#[derive(Clone, Copy)]
pub enum Pass {
    MulDiv,
    AddSub,
}

/// The operator of the pass that a raw term stands for, if any.
pub open spec fn op_of(pass: Pass, s: Seq<char>) -> Option<BinaryOp> {
    if s.len() != 1 {
        None
    } else {
        match pass {
            Pass::MulDiv => {
                if s[0] == '*' {
                    Some(BinaryOp::Multiply)
                } else if s[0] == '/' {
                    Some(BinaryOp::Divide)
                } else {
                    None
                }
            },
            Pass::AddSub => {
                if s[0] == '+' {
                    Some(BinaryOp::Add)
                } else if s[0] == '-' {
                    Some(BinaryOp::Subtract)
                } else {
                    None
                }
            },
        }
    }
}

fn op_of_exec(pass: Pass, s: &String) -> (r: Option<BinaryOp>)
    ensures
        r == op_of(pass, s@),
{
    let st = s.as_str();
    if st.unicode_len() != 1 {
        return None;
    }
    let c = st.get_char(0);
    match pass {
        Pass::MulDiv => {
            if c == '*' {
                Some(BinaryOp::Multiply)
            } else if c == '/' {
                Some(BinaryOp::Divide)
            } else {
                None
            }
        },
        Pass::AddSub => {
            if c == '+' {
                Some(BinaryOp::Add)
            } else if c == '-' {
                Some(BinaryOp::Subtract)
            } else {
                None
            }
        },
    }
}

/// The failure message for an operator with no operand on one side.
pub open spec fn msg_boundary() -> Seq<char> {
    "BinaryOp at boundary"@
}

/// The failure message for an operator whose left operand is still raw.
pub open spec fn msg_after_raw() -> Seq<char> {
    "Bad multiplication after raw"@
}

/// The failure message for an operator whose right operand is still raw.
pub open spec fn msg_before_raw() -> Seq<char> {
    "Bad multiplication before raw"@
}

/// The failure message for a level that does not reduce to one expression.
pub open spec fn msg_not_reduced() -> Seq<char> {
    "Could not fully reduce"@
}

/// The failure message for a level whose one remainder is still raw.
pub open spec fn msg_from_raw() -> Seq<char> {
    "Could not reduce from raw"@
}

/// How one child classifies: an address token becomes a reference leaf, a
/// numeric literal becomes a literal leaf, any other term stays raw, and a
/// nested group is reduced recursively.
pub open spec fn classify_spec(t: TreeV) -> Result<TermV, Seq<char>>
    decreases t, 0int,
{
    match t {
        TreeV::Term(s) => {
            if crate::compute::node::resolve_spec(s) is Ok {
                Ok(TermV::Done(NodeV::Reference(s)))
            } else {
                match crate::rational::parse_literal_spec(s) {
                    Some(v) => Ok(TermV::Done(NodeV::Literal(v))),
                    None => Ok(TermV::Raw(s)),
                }
            }
        },
        TreeV::Parens(children) => match make_node_spec(children) {
            Ok(n) => Ok(TermV::Done(n)),
            Err(e) => Err(e),
        },
    }
}

/// How a level's children classify, left to right, stopping at the first
/// failure inside a nested group.
pub open spec fn classify_seq(children: Seq<TreeV>) -> Result<Seq<TermV>, Seq<char>>
    decreases children, 1int,
{
    if children.len() == 0 {
        Ok(Seq::<TermV>::empty())
    } else {
        match classify_spec(children[0]) {
            Err(e) => Err(e),
            Ok(tv) => match classify_seq(children.drop_first()) {
                Err(e) => Err(e),
                Ok(rest) => Ok(seq![tv] + rest),
            },
        }
    }
}

/// One left-to-right reduction pass from position `cursor`: an operator of
/// the pass collapses with the expressions immediately before and after it
/// into one operation node, in place, and scanning resumes at the same
/// position of the shortened list.
pub open spec fn reduce_pass(terms: Seq<TermV>, pass: Pass, cursor: int) -> Result<
    Seq<TermV>,
    Seq<char>,
>
    decreases terms.len() - cursor,
    when 0 <= cursor <= terms.len()
{
    if cursor >= terms.len() {
        Ok(terms)
    } else {
        match terms[cursor] {
            TermV::Done(_) => reduce_pass(terms, pass, cursor + 1),
            TermV::Raw(s) => match op_of(pass, s) {
                None => reduce_pass(terms, pass, cursor + 1),
                Some(op) => {
                    if cursor < 1 || cursor >= terms.len() - 1 {
                        Err(msg_boundary())
                    } else {
                        match (terms[cursor - 1], terms[cursor + 1]) {
                            (TermV::Raw(_), _) => Err(msg_after_raw()),
                            (_, TermV::Raw(_)) => Err(msg_before_raw()),
                            (TermV::Done(l), TermV::Done(r)) => reduce_pass(
                                terms.subrange(0, cursor - 1) + seq![
                                    TermV::Done(NodeV::BinaryOp(op, Box::new(l), Box::new(r))),
                                ] + terms.subrange(cursor + 2, terms.len() as int),
                                pass,
                                cursor,
                            ),
                        }
                    }
                },
            },
        }
    }
}

/// How one level's children reduce to a single expression: classify each
/// child, collapse multiplication and division, then addition and
/// subtraction, and accept exactly one remaining built expression.
pub open spec fn make_node_spec(children: Seq<TreeV>) -> Result<NodeV, Seq<char>>
    decreases children, 2int,
{
    match classify_seq(children) {
        Err(e) => Err(e),
        Ok(terms0) => match reduce_pass(terms0, Pass::MulDiv, 0) {
            Err(e) => Err(e),
            Ok(terms1) => match reduce_pass(terms1, Pass::AddSub, 0) {
                Err(e) => Err(e),
                Ok(terms2) => {
                    if terms2.len() != 1 {
                        Err(msg_not_reduced())
                    } else {
                        match terms2[0] {
                            TermV::Raw(_) => Err(msg_from_raw()),
                            TermV::Done(n) => Ok(n),
                        }
                    }
                },
            },
        },
    }
}

/// The operator a child stands for in a pass: only a raw term can.
spec fn term_op(t: TermV, pass: Pass) -> Option<BinaryOp> {
    match t {
        TermV::Raw(s) => op_of(pass, s),
        TermV::Done(_) => None,
    }
}

/// One reduction pass over the children, collapsing the pass's operators
/// left to right.
fn reduce_binary(terms: &mut Vec<Computed>, pass: Pass) -> (r: Result<(), String>)
    ensures
        match r {
            Ok(_) => reduce_pass(old(terms).deep_view(), pass, 0) == Ok::<Seq<TermV>, Seq<char>>(
                final(terms).deep_view(),
            ),
            Err(e) => reduce_pass(old(terms).deep_view(), pass, 0) == Err::<
                Seq<TermV>,
                Seq<char>,
            >(e@),
        },
{
    let ghost orig = terms.deep_view();
    let mut cursor: usize = 0;
    while cursor < terms.len()
        invariant
            0 <= cursor <= terms.len(),
            orig == old(terms).deep_view(),
            reduce_pass(terms.deep_view(), pass, cursor as int) == reduce_pass(orig, pass, 0),
        decreases terms.len() - cursor,
    {
        let ghost dv = terms.deep_view();
        let ghost tcur = dv[cursor as int];
        let opv_opt = match &terms[cursor] {
            Computed::Raw(sop) => {
                let o = op_of_exec(pass, sop);
                proof {
                    assert(tcur == TermV::Raw(sop@));
                    assert(o == term_op(tcur, pass));
                }
                o
            },
            Computed::Computed(_) => {
                proof {
                    assert(term_op(tcur, pass) is None);
                }
                None
            },
        };
        match opv_opt {
            None => {
                proof {
                    assert(reduce_pass(dv, pass, cursor as int) == reduce_pass(
                        dv,
                        pass,
                        cursor + 1,
                    ));
                }
                cursor = cursor + 1;
            },
            Some(opv) => {
                if cursor < 1 || cursor >= terms.len() - 1 {
                    proof {
                        assert(reduce_pass(dv, pass, cursor as int) == Err::<
                            Seq<TermV>,
                            Seq<char>,
                        >(msg_boundary()));
                    }
                    return Err(String::from_str("BinaryOp at boundary"));
                }
                let prev = match terms.remove(cursor - 1) {
                    Computed::Raw(_) => {
                        proof {
                            assert(dv[cursor - 1] is Raw);
                        }
                        return Err(String::from_str("Bad multiplication after raw"));
                    },
                    Computed::Computed(node) => node,
                };
                proof {
                    assert(dv[cursor - 1] == TermV::Done(prev@));
                    assert(terms.deep_view() =~= dv.remove(cursor - 1));
                }
                let next = match terms.remove(cursor) {
                    Computed::Raw(_) => {
                        proof {
                            assert(dv.remove(cursor - 1)[cursor as int] == dv[cursor + 1]);
                            assert(dv[cursor + 1] is Raw);
                        }
                        return Err(String::from_str("Bad multiplication before raw"));
                    },
                    Computed::Computed(node) => node,
                };
                proof {
                    assert(dv.remove(cursor - 1)[cursor as int] == dv[cursor + 1]);
                    assert(dv[cursor + 1] == TermV::Done(next@));
                    assert(terms.deep_view() =~= dv.remove(cursor - 1).remove(cursor as int));
                }
                let ghost pv = prev@;
                let ghost nv2 = next@;
                let combined = Computed::Computed(
                    Node::BinaryOp(opv, Box::new(prev), Box::new(next)),
                );
                terms[cursor - 1] = combined;
                proof {
                    let collapsed = dv.subrange(0, cursor - 1) + seq![
                        TermV::Done(NodeV::BinaryOp(opv, Box::new(pv), Box::new(nv2))),
                    ] + dv.subrange(cursor + 1, dv.len() as int);
                    assert(terms.deep_view() =~= dv.remove(cursor - 1).remove(
                        cursor as int,
                    ).update(cursor - 1, TermV::Done(NodeV::BinaryOp(
                        opv,
                        Box::new(pv),
                        Box::new(nv2),
                    ))));
                    assert(terms.deep_view() =~= dv.subrange(0, cursor - 1) + seq![
                        TermV::Done(NodeV::BinaryOp(opv, Box::new(pv), Box::new(nv2))),
                    ] + dv.subrange(cursor + 2, dv.len() as int));
                    assert(reduce_pass(dv, pass, cursor as int) == reduce_pass(
                        terms.deep_view(),
                        pass,
                        cursor as int,
                    ));
                }
            },
        }
    }
    Ok(())
}

/// The sequence of children that a bracket level holds.
pub open spec fn tree_children(t: TreeV) -> Seq<TreeV> {
    match t {
        TreeV::Parens(cs) => cs,
        TreeV::Term(s) => seq![TreeV::Term(s)],
    }
}

/// A successfully built bracket tree is always a grouping node.
proof fn lemma_reduce_parens_ok_is_parens(tokens: Seq<Seq<char>>, i: int, stack: Seq<Seq<TreeV>>)
    requires
        0 <= i <= tokens.len(),
        stack.len() >= 1,
        reduce_parens_rec(tokens, i, stack) is Ok,
    ensures
        reduce_parens_rec(tokens, i, stack)->Ok_0 is Parens,
    decreases tokens.len() - i,
{
    if i >= tokens.len() {
    } else {
        let t = trim_spec(tokens[i]);
        if t == seq!['('] {
            lemma_reduce_parens_ok_is_parens(tokens, i + 1, stack.push(Seq::<TreeV>::empty()));
        } else if t == seq![')'] {
            if stack.len() > 1 {
                let inner = stack.last();
                let outer = stack[stack.len() - 2];
                lemma_reduce_parens_ok_is_parens(
                    tokens,
                    i + 1,
                    stack.drop_last().drop_last().push(outer.push(TreeV::Parens(inner))),
                );
            }
        } else {
            lemma_reduce_parens_ok_is_parens(
                tokens,
                i + 1,
                stack.drop_last().push(stack.last().push(TreeV::Term(tokens[i]))),
            );
        }
    }
}

/// Reduces the children of one bracket level into a single expression tree,
/// honoring precedence and left-to-right associativity.
pub fn make_node(raw_terms: Vec<ParenStack>) -> (r: Result<Node, String>)
    ensures
        match r {
            Ok(n) => make_node_spec(raw_terms.deep_view()) == Ok::<NodeV, Seq<char>>(n@),
            Err(e) => make_node_spec(raw_terms.deep_view()) == Err::<NodeV, Seq<char>>(e@),
        },
    decreases raw_terms,
{
    let ghost v0: Vec<ParenStack> = raw_terms;
    let ghost children0 = raw_terms.deep_view();
    let mut rest = raw_terms;
    let mut terms: Vec<Computed> = Vec::new();
    let ghost mut p: int = 0;
    proof {
        assert(rest.deep_view() =~= children0.subrange(0, children0.len() as int));
    }
    while rest.len() > 0
        invariant
            0 <= p <= children0.len(),
            v0 == raw_terms,
            children0 == raw_terms.deep_view(),
            children0 == v0.deep_view(),
            children0.len() == v0@.len(),
            rest@ =~= v0@.subrange(p, v0@.len() as int),
            rest.deep_view() =~= children0.subrange(p, children0.len() as int),
            match classify_seq(rest.deep_view()) {
                Ok(restv) => classify_seq(children0) == Ok::<Seq<TermV>, Seq<char>>(
                    terms.deep_view() + restv,
                ),
                Err(e) => classify_seq(children0) == Err::<Seq<TermV>, Seq<char>>(e),
            },
        decreases rest.len(),
    {
        let ghost rv_pre = rest.deep_view();
        let ghost terms_pre = terms.deep_view();
        let x = rest.remove(0);
        let ghost gx: ParenStack = x;
        proof {
            assert(x@ == rv_pre[0]);
            assert(rest.deep_view() =~= rv_pre.drop_first());
        }
        match x {
            ParenStack::Term(term) => {
                let is_ref = crate::compute::node::resolve_reference(&term).is_ok();
                let ghost tv: TermV;
                if is_ref {
                    terms.push(Computed::Computed(Node::Reference(term)));
                    proof {
                        tv = TermV::Done(NodeV::Reference(gx->Term_0@));
                    }
                } else {
                    match Rational::parse_literal(term.as_str()) {
                        Some(f) => {
                            terms.push(Computed::Computed(Node::Literal(f)));
                            proof {
                                tv = TermV::Done(NodeV::Literal(f@));
                            }
                        },
                        None => {
                            terms.push(Computed::Raw(term));
                            proof {
                                tv = TermV::Raw(gx->Term_0@);
                            }
                        },
                    }
                }
                proof {
                    assert(classify_spec(rv_pre[0]) == Ok::<TermV, Seq<char>>(tv));
                    assert(terms.deep_view() =~= terms_pre.push(tv));
                    assert(terms_pre.push(tv) =~= terms_pre + seq![tv]);
                    match classify_seq(rest.deep_view()) {
                        Ok(restv) => {
                            assert(classify_seq(rv_pre) == Ok::<Seq<TermV>, Seq<char>>(
                                seq![tv] + restv,
                            ));
                            assert(terms_pre + (seq![tv] + restv) =~= (terms_pre + seq![tv])
                                + restv);
                        },
                        Err(e) => {},
                    }
                    p = p + 1;
                }
            },
            ParenStack::Parens(ts) => {
                proof {
                    assert(decreases_to!(v0 => v0@));
                    assert(decreases_to!(v0@ => v0@[p]));
                    assert(gx == v0@[p]);
                    assert(decreases_to!(gx => ts));
                }
                let ghost tsv = ts.deep_view();
                match make_node(ts) {
                    Ok(node) => {
                        let ghost tv = TermV::Done(node@);
                        terms.push(Computed::Computed(node));
                        proof {
                            lemma_view_is_deep(&gx->Parens_0);
                            assert(gx@ == TreeV::Parens(tsv));
                            assert(classify_spec(rv_pre[0]) == Ok::<TermV, Seq<char>>(tv));
                            assert(terms.deep_view() =~= terms_pre.push(tv));
                            assert(terms_pre.push(tv) =~= terms_pre + seq![tv]);
                            match classify_seq(rest.deep_view()) {
                                Ok(restv) => {
                                    assert(classify_seq(rv_pre) == Ok::<Seq<TermV>, Seq<char>>(
                                        seq![tv] + restv,
                                    ));
                                    assert(terms_pre + (seq![tv] + restv) =~= (terms_pre + seq![
                                        tv,
                                    ]) + restv);
                                },
                                Err(e) => {},
                            }
                            p = p + 1;
                        }
                    },
                    Err(e) => {
                        proof {
                            lemma_view_is_deep(&gx->Parens_0);
                            assert(gx@ == TreeV::Parens(tsv));
                            assert(classify_spec(rv_pre[0]) == Err::<TermV, Seq<char>>(e@));
                            assert(classify_seq(rv_pre) == Err::<Seq<TermV>, Seq<char>>(e@));
                        }
                        return Err(e);
                    },
                }
            },
        }
    }
    proof {
        assert(rest.deep_view() =~= Seq::<TreeV>::empty());
        assert(classify_seq(children0) == Ok::<Seq<TermV>, Seq<char>>(
            terms.deep_view() + Seq::<TermV>::empty(),
        ));
        assert(terms.deep_view() + Seq::<TermV>::empty() =~= terms.deep_view());
    }
    match reduce_binary(&mut terms, Pass::MulDiv) {
        Ok(_) => {},
        Err(e) => {
            return Err(e);
        },
    }
    match reduce_binary(&mut terms, Pass::AddSub) {
        Ok(_) => {},
        Err(e) => {
            return Err(e);
        },
    }
    if terms.len() != 1 {
        return Err(String::from_str("Could not fully reduce"));
    }
    let last = terms.pop().unwrap();
    match last {
        Computed::Raw(_) => Err(String::from_str("Could not reduce from raw")),
        Computed::Computed(node) => Ok(node),
    }
}

/// An alternation ready for one pass: operands at even positions, operators
/// of the pass's family at odd positions, an operand at either end.
pub open spec fn alt_shape(ts: Seq<TermV>, pass: Pass) -> bool {
    &&& ts.len() % 2 == 1
    &&& forall|i: int| 0 <= i < ts.len() && i % 2 == 0 ==> (#[trigger] ts[i]) is Done
    &&& forall|i: int|
        0 <= i < ts.len() && i % 2 == 1 ==> ((#[trigger] ts[i]) is Raw && op_of(
            pass,
            ts[i]->Raw_0,
        ) is Some)
}

/// The left-to-right fold of an operator chain: each operator combines the
/// accumulated expression on its left with the operand on its right.
pub open spec fn fold_from(acc: NodeV, pass: Pass, rest: Seq<TermV>) -> NodeV
    decreases rest.len(),
{
    if rest.len() < 2 {
        acc
    } else {
        fold_from(
            NodeV::BinaryOp(
                op_of(pass, rest[0]->Raw_0)->Some_0,
                Box::new(acc),
                Box::new(rest[1]->Done_0),
            ),
            pass,
            rest.subrange(2, rest.len() as int),
        )
    }
}

/// Equal-precedence operators associate left to right: one reduction pass
/// over an alternation of operands and operators of its own family yields
/// exactly the left-to-right fold, and never fails.
pub proof fn lemma_reduce_pass_left_assoc(pass: Pass, ts: Seq<TermV>)
    requires
        alt_shape(ts, pass),
    ensures
        reduce_pass(ts, pass, 0) == Ok::<Seq<TermV>, Seq<char>>(
            seq![TermV::Done(fold_from(ts[0]->Done_0, pass, ts.drop_first()))],
        ),
    decreases ts.len(),
{
    if ts.len() == 1 {
        assert(ts =~= seq![TermV::Done(ts[0]->Done_0)]);
        assert(reduce_pass(ts, pass, 0) == reduce_pass(ts, pass, 1));
    } else {
        let op = op_of(pass, ts[1]->Raw_0)->Some_0;
        let combined = TermV::Done(
            NodeV::BinaryOp(op, Box::new(ts[0]->Done_0), Box::new(ts[2]->Done_0)),
        );
        let ts2 = seq![combined] + ts.subrange(3, ts.len() as int);
        assert(reduce_pass(ts, pass, 0) == reduce_pass(ts, pass, 1));
        assert(ts.subrange(0, 0) + seq![combined] + ts.subrange(3, ts.len() as int) =~= ts2);
        assert(reduce_pass(ts, pass, 1) == reduce_pass(ts2, pass, 1));
        assert(reduce_pass(ts2, pass, 0) == reduce_pass(ts2, pass, 1));
        assert(alt_shape(ts2, pass)) by {
            assert forall|i: int| 0 <= i < ts2.len() && i % 2 == 0 implies (#[trigger] ts2[i])
                is Done by {
                if i > 0 {
                    assert(ts2[i] == ts[i + 2]);
                }
            }
            assert forall|i: int| 0 <= i < ts2.len() && i % 2 == 1 implies ((#[trigger] ts2[i])
                is Raw && op_of(pass, ts2[i]->Raw_0) is Some) by {
                assert(ts2[i] == ts[i + 2]);
            }
        }
        lemma_reduce_pass_left_assoc(pass, ts2);
        assert(ts2.drop_first() =~= ts.subrange(3, ts.len() as int));
        assert(fold_from(ts[0]->Done_0, pass, ts.drop_first()) == fold_from(
            combined->Done_0,
            pass,
            ts2.drop_first(),
        )) by {
            assert(ts.drop_first()[0] == ts[1]);
            assert(ts.drop_first()[1] == ts[2]);
            assert(ts.drop_first().subrange(2, ts.drop_first().len() as int) =~= ts.subrange(
                3,
                ts.len() as int,
            ));
        }
    }
}

/// The multiplicative pass walks over a purely additive chain unchanged.
proof fn lemma_muldiv_pass_skips(ts: Seq<TermV>, cursor: int)
    requires
        alt_shape(ts, Pass::AddSub),
        0 <= cursor <= ts.len(),
    ensures
        reduce_pass(ts, Pass::MulDiv, cursor) == Ok::<Seq<TermV>, Seq<char>>(ts),
    decreases ts.len() - cursor,
{
    if cursor < ts.len() {
        lemma_muldiv_pass_skips(ts, cursor + 1);
    }
}

/// A chain of operators of one precedence family reduces to its
/// left-to-right fold: the whole two-pass reduction of such a level yields
/// exactly that expression.
pub proof fn lemma_level_left_assoc(children: Seq<TreeV>, ts: Seq<TermV>, pass: Pass)
    requires
        classify_seq(children) == Ok::<Seq<TermV>, Seq<char>>(ts),
        alt_shape(ts, pass),
    ensures
        make_node_spec(children) == Ok::<NodeV, Seq<char>>(
            fold_from(ts[0]->Done_0, pass, ts.drop_first()),
        ),
{
    let folded = seq![TermV::Done(fold_from(ts[0]->Done_0, pass, ts.drop_first()))];
    match pass {
        Pass::MulDiv => {
            lemma_reduce_pass_left_assoc(Pass::MulDiv, ts);
            assert(reduce_pass(folded, Pass::AddSub, 0) == reduce_pass(folded, Pass::AddSub, 1));
        },
        Pass::AddSub => {
            lemma_muldiv_pass_skips(ts, 0);
            lemma_reduce_pass_left_assoc(Pass::AddSub, ts);
        },
    }
}

/// What parsing a cell's text yields: the tokenizer, the bracket-tree
/// builder and the expression builder in sequence.
pub open spec fn parse_spec(s: Seq<char>) -> Result<NodeV, Seq<char>> {
    match reduce_parens_spec(tokenize_spec(s)) {
        Err(e) => Err(e),
        Ok(tree) => make_node_spec(tree_children(tree)),
    }
}

/// Parses a cell's text into an expression tree.
pub fn parse(cell: &str) -> (r: Result<Node, String>)
    ensures
        match r {
            Ok(n) => parse_spec(cell@) == Ok::<NodeV, Seq<char>>(n@),
            Err(e) => parse_spec(cell@) == Err::<NodeV, Seq<char>>(e@),
        },
{
    let terms = split_into_terms(cell);
    let ghost toks = terms.deep_view();
    let paren_stack = match reduce_paren_stack(terms) {
        Ok(x) => x,
        Err(e) => {
            return Err(e);
        },
    };
    proof {
        lemma_reduce_parens_ok_is_parens(toks, 0, seq![Seq::<TreeV>::empty()]);
    }
    match paren_stack {
        ParenStack::Parens(ts) => {
            proof {
                lemma_view_is_deep(&ts);
            }
            make_node(ts)
        },
        ParenStack::Term(_) => {
            proof {
                assert(false);
            }
            Err(String::new())
        },
    }
}


} // verus!
