//! Expression trees: literals, binary operations, and cell references, with
//! the evaluator and the reference resolver.
use crate::rational::{rat_add, rat_div, rat_in_range, rat_mul, rat_sub, RatV, Rational};
use crate::state::{cell_at, CellV, State};
use crate::text::{digits_val, is_digit_char};
use vstd::prelude::*;

verus! {

/// A parsed formula: a numeric literal, a binary operation on two owned
/// subtrees, or a reference to another cell by its address token.
#[derive(Debug, PartialEq)]
pub enum Node {
    Literal(Rational),
    BinaryOp(BinaryOp, Box<Node>, Box<Node>),
    Reference(String),
}

/// The model of an expression tree.
#[verifier::ext_equal]
pub enum NodeV {
    Literal(RatV),
    BinaryOp(BinaryOp, Box<NodeV>, Box<NodeV>),
    Reference(Seq<char>),
}

/// Negation; reserved by the grammar but never produced by it.
pub enum UnaryOp {
    Negative,
}

/// The four binary operators of the formula language.
#[derive(Debug, PartialEq, Eq, Structural, Clone, Copy)]
pub enum BinaryOp {
    Add,
    Subtract,
    Multiply,
    Divide,
}

/// Aggregates; reserved by the grammar but never produced by it.
pub enum Function {
    Sum,
    Avg,
    Pow,
}

impl View for Node {
    type V = NodeV;

    open spec fn view(&self) -> NodeV
        decreases self,
    {
        match self {
            Node::Literal(v) => NodeV::Literal(v@),
            Node::BinaryOp(op, l, r) => NodeV::BinaryOp(*op, Box::new((**l)@), Box::new((**r)@)),
            Node::Reference(s) => NodeV::Reference(s@),
        }
    }
}

/// The address tokens of the reference leaves of `n`, left to right.
pub open spec fn refs_of(n: NodeV) -> Seq<Seq<char>>
    decreases n,
{
    match n {
        NodeV::Literal(_) => Seq::<Seq<char>>::empty(),
        NodeV::BinaryOp(_, l, r) => refs_of(*l) + refs_of(*r),
        NodeV::Reference(s) => seq![s],
    }
}

impl Node {
    /// The address tokens of every reference leaf, left to right.
    pub fn get_references(&self) -> (r: Vec<&String>)
        ensures
            r.deep_view() == refs_of(self@),
        decreases *self,
    {
        match self {
            Node::Reference(reference) => {
                let mut v: Vec<&String> = Vec::new();
                v.push(reference);
                proof {
                    assert(v.deep_view() =~= refs_of(self@));
                }
                v
            },
            Node::BinaryOp(_, left, right) => {
                let mut left_refs = left.get_references();
                let mut right_refs = right.get_references();
                left_refs.append(&mut right_refs);
                proof {
                    assert(left_refs.deep_view() =~= refs_of(self@));
                }
                left_refs
            },
            Node::Literal(_) => {
                let v: Vec<&String> = Vec::new();
                proof {
                    assert(v.deep_view() =~= refs_of(self@));
                }
                v
            },
        }
    }
}

/// The failure message for division by exactly zero.
pub open spec fn msg_divide_by_zero() -> Seq<char> {
    "Divide by 0 error"@
}

/// The failure message for an exact result outside the machine range.
pub open spec fn msg_overflow() -> Seq<char> {
    "Arithmetic overflow"@
}

/// The failure message for a reference to a cell with no text.
pub open spec fn msg_empty_value(name: Seq<char>) -> Seq<char> {
    "Error: Empty value @ "@ + name
}

/// The failure message naming a referenced cell whose slot holds an error.
pub open spec fn msg_wrapped_error(name: Seq<char>, text: Seq<char>) -> Seq<char> {
    "Err @ "@ + name + ": \""@ + text + "\""@
}

/// The ordering contract a grid must meet before evaluating a reference to
/// `name`: the referenced cell, when it has text, is already computed, and a
/// computed non-error slot holds a value.
pub open spec fn ref_ready(name: Seq<char>, g: Seq<Seq<CellV>>) -> bool {
    match resolve_spec(name) {
        Ok(addr) => {
            let cell = cell_at(g, addr.0 as int, addr.1 as int);
            cell.value.len() > 0 ==> (cell.computed.is_computed && (!cell.computed.error
                ==> cell.computed.value is Some))
        },
        Err(_) => true,
    }
}

/// The ordering contract for every reference leaf of `n`.
pub open spec fn refs_computed(n: NodeV, g: Seq<Seq<CellV>>) -> bool {
    forall|i: int| 0 <= i < refs_of(n).len() ==> ref_ready(#[trigger] refs_of(n)[i], g)
}

/// What evaluating `n` against the grid `g` yields: a literal is itself; a
/// binary operation evaluates both sides (a left error wins), rejects
/// division by exactly zero, and fails when the exact result leaves the
/// machine range; a reference reads the target cell's computed slot.
pub open spec fn eval_spec(n: NodeV, g: Seq<Seq<CellV>>) -> Result<RatV, Seq<char>>
    decreases n,
{
    match n {
        NodeV::Literal(v) => Ok(v),
        NodeV::BinaryOp(op, l, r) => match eval_spec(*l, g) {
            Err(e) => Err(e),
            Ok(x) => match eval_spec(*r, g) {
                Err(e) => Err(e),
                Ok(y) => {
                    if y.num == 0 && op == BinaryOp::Divide {
                        Err(msg_divide_by_zero())
                    } else {
                        let v = match op {
                            BinaryOp::Add => rat_add(x, y),
                            BinaryOp::Subtract => rat_sub(x, y),
                            BinaryOp::Multiply => rat_mul(x, y),
                            BinaryOp::Divide => rat_div(x, y),
                        };
                        if rat_in_range(v) {
                            Ok(v)
                        } else {
                            Err(msg_overflow())
                        }
                    }
                },
            },
        },
        NodeV::Reference(name) => match resolve_spec(name) {
            Err(e) => Err(e),
            Ok(addr) => {
                let cell = cell_at(g, addr.0 as int, addr.1 as int);
                if cell.value.len() == 0 {
                    Err(msg_empty_value(name))
                } else if cell.computed.error {
                    Err(msg_wrapped_error(name, cell.computed.display))
                } else {
                    match cell.computed.value {
                        Some(v) => Ok(v),
                        None => Err(msg_empty_value(name)),
                    }
                }
            },
        },
    }
}

/// The ordering contract carries over from an operation node to its sides.
proof fn lemma_refs_computed_split(op: BinaryOp, l: NodeV, r: NodeV, g: Seq<Seq<CellV>>)
    requires
        refs_computed(NodeV::BinaryOp(op, Box::new(l), Box::new(r)), g),
    ensures
        refs_computed(l, g),
        refs_computed(r, g),
{
    let whole = refs_of(NodeV::BinaryOp(op, Box::new(l), Box::new(r)));
    assert(whole =~= refs_of(l) + refs_of(r));
    assert forall|i: int| 0 <= i < refs_of(l).len() implies ref_ready(
        #[trigger] refs_of(l)[i],
        g,
    ) by {
        assert(whole[i] == refs_of(l)[i]);
        assert(ref_ready(whole[i], g));
    }
    assert forall|i: int| 0 <= i < refs_of(r).len() implies ref_ready(
        #[trigger] refs_of(r)[i],
        g,
    ) by {
        assert(whole[refs_of(l).len() + i] == refs_of(r)[i]);
        assert(ref_ready(whole[refs_of(l).len() + i], g));
    }
}

impl Node {
    /// Reduces the tree to a number against the already-computed cells of
    /// `state`.  The recompute pass guarantees `refs_computed` by ensuring
    /// every referenced cell before the referencing one.
    pub fn compute(self, state: &State) -> (r: Result<Rational, String>)
        requires
            refs_computed(self@, state@.grid),
        ensures
            match r {
                Ok(v) => eval_spec(self@, state@.grid) == Ok::<RatV, Seq<char>>(v@),
                Err(e) => eval_spec(self@, state@.grid) == Err::<RatV, Seq<char>>(e@),
            },
        decreases self,
    {
        let ghost nv = self@;
        let ghost g = state@.grid;
        match self {
            Node::Literal(num) => Ok(num),
            Node::BinaryOp(op, left, right) => {
                let ghost lv = (*left)@;
                let ghost rv = (*right)@;
                proof {
                    assert(nv == NodeV::BinaryOp(op, Box::new(lv), Box::new(rv)));
                    lemma_refs_computed_split(op, lv, rv, g);
                }
                let left_result = (*left).compute(state);
                let right_result = (*right).compute(state);
                let x = match left_result {
                    Ok(x) => x,
                    Err(e) => {
                        return Err(e);
                    },
                };
                let y = match right_result {
                    Ok(y) => y,
                    Err(e) => {
                        return Err(e);
                    },
                };
                if y.is_zero() && op == BinaryOp::Divide {
                    return Err(String::from_str("Divide by 0 error"));
                }
                let res = match op {
                    BinaryOp::Add => x.add(&y),
                    BinaryOp::Subtract => x.sub(&y),
                    BinaryOp::Multiply => x.mul(&y),
                    BinaryOp::Divide => x.div(&y),
                };
                match res {
                    Some(v) => Ok(v),
                    None => Err(String::from_str("Arithmetic overflow")),
                }
            },
            Node::Reference(reference) => {
                let addr = match resolve_reference(&reference) {
                    Ok(a) => a,
                    Err(e) => {
                        return Err(e);
                    },
                };
                let cell = state.get_at(addr);
                proof {
                    assert(refs_of(nv)[0] == reference@);
                    assert(ref_ready(reference@, g));
                }
                if cell.value.as_str().unicode_len() == 0 {
                    return Err(
                        String::from_str("Error: Empty value @ ").concat(reference.as_str()),
                    );
                }
                if !cell.computed.is_computed {
                    // The recompute pass computes every referenced cell
                    // first; the precondition rules this branch out.
                    proof {
                        assert(false);
                    }
                    return Err(String::new());
                }
                if cell.computed.error {
                    return Err(
                        String::from_str("Err @ ").concat(reference.as_str()).concat(
                            ": \"",
                        ).concat(cell.computed.display.as_str()).concat("\""),
                    );
                }
                match &cell.computed.value {
                    Some(v) => Ok(*v),
                    None => {
                        proof {
                            assert(false);
                        }
                        Err(String::new())
                    },
                }
            },
        }
    }
}

/// The mathematical value of a reference-free expression under exact
/// rational arithmetic: nothing only when a divisor is exactly zero (or a
/// reference occurs after all).
pub open spec fn exact_eval(n: NodeV) -> Option<RatV>
    decreases n,
{
    match n {
        NodeV::Literal(v) => Some(v),
        NodeV::BinaryOp(op, l, r) => match (exact_eval(*l), exact_eval(*r)) {
            (Some(x), Some(y)) => {
                if op == BinaryOp::Divide && y.num == 0 {
                    None
                } else {
                    Some(
                        match op {
                            BinaryOp::Add => rat_add(x, y),
                            BinaryOp::Subtract => rat_sub(x, y),
                            BinaryOp::Multiply => rat_mul(x, y),
                            BinaryOp::Divide => rat_div(x, y),
                        },
                    )
                }
            },
            _ => None,
        },
        NodeV::Reference(_) => None,
    }
}

/// For a formula built only from numeric literals and the four operators,
/// every value the evaluator yields is exactly the mathematical value of the
/// expression under exact rational arithmetic, with standard precedence and
/// left-to-right association already fixed by the tree: no rounding ever
/// happens.
pub proof fn lemma_eval_exact(n: NodeV, g: Seq<Seq<CellV>>, v: RatV)
    requires
        refs_of(n).len() == 0,
        eval_spec(n, g) == Ok::<RatV, Seq<char>>(v),
    ensures
        exact_eval(n) == Some(v),
    decreases n,
{
    match n {
        NodeV::Literal(_) => {},
        NodeV::BinaryOp(op, l, r) => {
            assert(refs_of(n) =~= refs_of(*l) + refs_of(*r));
            let x = eval_spec(*l, g)->Ok_0;
            let y = eval_spec(*r, g)->Ok_0;
            lemma_eval_exact(*l, g, x);
            lemma_eval_exact(*r, g, y);
        },
        NodeV::Reference(_) => {
            assert(refs_of(n).len() == 1);
        },
    }
}

/// An ASCII uppercase letter.
pub open spec fn is_upper_char(c: char) -> bool {
    'A' <= c <= 'Z'
}

fn is_upper(c: char) -> (r: bool)
    ensures
        r == is_upper_char(c),
{
    'A' <= c && c <= 'Z'
}

/// `s` splits at `k` into one or more uppercase letters followed by one or
/// more decimal digits.
pub open spec fn ref_split_at(s: Seq<char>, k: int) -> bool {
    &&& 1 <= k < s.len()
    &&& forall|i: int| 0 <= i < k ==> is_upper_char(#[trigger] s[i])
    &&& forall|i: int| k <= i < s.len() ==> is_digit_char(#[trigger] s[i])
}

/// Whether `s` is an address token: letters then digits, nothing else.
pub open spec fn is_reference_token(s: Seq<char>) -> bool {
    exists|k: int| ref_split_at(s, k)
}

/// The 1-based column index encoded by a letter sequence, bijective base 26.
pub open spec fn letters_val(s: Seq<char>) -> int
    decreases s.len(),
{
    if s.len() == 0 {
        0
    } else {
        letters_val(s.drop_last()) * 26 + (s.last() as int - 'A' as int + 1)
    }
}

/// The failure message for a term that is not an address token.
pub open spec fn msg_bad_reference(s: Seq<char>) -> Seq<char> {
    "Could not parse reference: "@ + s
}

/// The failure message for an address whose numeric part does not fit the
/// coordinate width.
pub open spec fn msg_bad_number(s: Seq<char>) -> Seq<char> {
    "Could not parse column for reference: "@ + s
}

/// What resolving an address token yields: the zero-based (row, column)
/// coordinate, or the message describing why the token is rejected.
pub open spec fn resolve_spec(s: Seq<char>) -> Result<(u16, u16), Seq<char>> {
    if !is_reference_token(s) {
        Err(msg_bad_reference(s))
    } else {
        let k = choose|k: int| ref_split_at(s, k);
        let col = letters_val(s.subrange(0, k));
        let row = digits_val(s.subrange(k, s.len() as int));
        if col > u16::MAX || row < 1 || row > u16::MAX {
            Err(msg_bad_number(s))
        } else {
            Ok(((row - 1) as u16, (col - 1) as u16))
        }
    }
}

/// Relies on `regex::Regex`: the anchored pattern `^[A-Z]+[0-9]+$` matches
/// exactly the strings made of one or more ASCII uppercase letters followed
/// by one or more ASCII digits.
#[verifier::external_body]
fn regex_is_reference(s: &str) -> (r: bool)
    ensures
        r == is_reference_token(s@),
{
    match regex::Regex::new("^[A-Z]+[0-9]+$") {
        Ok(re) => re.is_match(s),
        Err(_) => false,
    }
}

/// The split point of an address token is unique.
proof fn lemma_ref_split_unique(s: Seq<char>, k1: int, k2: int)
    requires
        ref_split_at(s, k1),
        ref_split_at(s, k2),
    ensures
        k1 == k2,
{
    if k1 < k2 {
        assert(is_upper_char(s[k1]));
        assert(is_digit_char(s[k1]));
    }
    if k2 < k1 {
        assert(is_upper_char(s[k2]));
        assert(is_digit_char(s[k2]));
    }
}

/// Letter sequences encode positive values, monotonically in their length.
proof fn lemma_letters_val_pos(s: Seq<char>, j: int)
    requires
        forall|i: int| 0 <= i < s.len() ==> is_upper_char(#[trigger] s[i]),
        0 <= j <= s.len(),
    ensures
        letters_val(s) >= letters_val(s.subrange(0, j)),
        j >= 1 ==> letters_val(s.subrange(0, j)) >= 1,
        letters_val(s.subrange(0, j)) >= 0,
    decreases s.len(),
{
    if j == s.len() {
        assert(s.subrange(0, j) =~= s);
        if s.len() == 0 {
        } else {
            let t = s.drop_last();
            lemma_letters_val_pos(t, t.len() as int);
            assert(t.subrange(0, t.len() as int) =~= t);
        }
    } else {
        let t = s.drop_last();
        lemma_letters_val_pos(t, j);
        assert(t.subrange(0, j) =~= s.subrange(0, j));
    }
}

/// Resolves a spreadsheet-style address token ("A1", "AA11") into a
/// zero-based (row, column) coordinate.
pub fn resolve_reference(reference: &String) -> (r: Result<(u16, u16), String>)
    ensures
        match r {
            Ok(addr) => resolve_spec(reference@) == Ok::<(u16, u16), Seq<char>>(addr),
            Err(e) => resolve_spec(reference@) == Err::<(u16, u16), Seq<char>>(e@),
        },
{
    if !regex_is_reference(reference.as_str()) {
        return Err(String::from_str("Could not parse reference: ").concat(reference.as_str()));
    }
    let ghost wk: int = choose|k: int| ref_split_at(reference@, k);
    let s = reference.as_str();
    let n = s.unicode_len();
    // Find the split point between the letters and the digits.
    let mut k: usize = 0;
    while k < n && is_upper(s.get_char(k))
        invariant
            0 <= k <= n,
            n == s@.len(),
            forall|i: int| 0 <= i < k ==> is_upper_char(#[trigger] s@[i]),
        decreases n - k,
    {
        k = k + 1;
    }
    proof {
        assert(ref_split_at(reference@, wk));
        if k < wk {
            assert(is_upper_char(s@[k as int]));
        }
        if wk < k {
            assert(is_upper_char(s@[wk]));
            assert(is_digit_char(s@[wk]));
        }
        assert(k as int == wk);
    }
    // Fold the letters into the 1-based column index.
    let mut col: u64 = 0;
    let mut i: usize = 0;
    while i < k
        invariant
            0 <= i <= k,
            k as int == wk,
            ref_split_at(s@, wk),
            n == s@.len(),
            s@ == reference@,
            col == letters_val(s@.subrange(0, i as int)),
            col <= 0xffff * 26 + 26,
        decreases k - i,
    {
        if col > 0xffff {
            proof {
                lemma_ref_split_unique(
                    reference@,
                    wk,
                    choose|k2: int| ref_split_at(reference@, k2),
                );
                lemma_letters_val_pos(s@.subrange(0, wk), i as int);
                assert(s@.subrange(0, wk).subrange(0, i as int) =~= s@.subrange(0, i as int));
            }
            return Err(
                String::from_str("Could not parse column for reference: ").concat(
                    reference.as_str(),
                ),
            );
        }
        let c = s.get_char(i);
        let v: u64 = (c as u32 - 64) as u64;
        proof {
            assert(s@.subrange(0, i + 1).drop_last() =~= s@.subrange(0, i as int));
            assert(s@.subrange(0, i + 1).last() == s@[i as int]);
        }
        col = col * 26 + v;
        i = i + 1;
    }
    if col > 0xffff {
        proof {
            lemma_letters_val_pos(s@.subrange(0, wk), wk);
            assert(s@.subrange(0, wk).subrange(0, wk) =~= s@.subrange(0, wk));
        }
        return Err(
            String::from_str("Could not parse column for reference: ").concat(reference.as_str()),
        );
    }
    // Read the digits as the 1-based row number.
    let ghost digits = s@.subrange(wk, s@.len() as int);
    let mut row: u64 = 0;
    let mut j: usize = k;
    while j < n
        invariant
            k <= j <= n,
            k as int == wk,
            ref_split_at(s@, wk),
            n == s@.len(),
            digits == s@.subrange(wk, s@.len() as int),
            s@ == reference@,
            row == digits_val(digits.subrange(0, j - wk)),
            row <= 0xffff * 10 + 9,
        decreases n - j,
    {
        if row > 0xffff {
            proof {
                assert forall|m: int| 0 <= m < digits.len() implies is_digit_char(
                    #[trigger] digits[m],
                ) by {
                    assert(digits[m] == s@[wk + m]);
                }
                lemma_digits_val_grow(digits, j - wk);
                lemma_ref_split_unique(
                    reference@,
                    wk,
                    choose|k2: int| ref_split_at(reference@, k2),
                );
            }
            return Err(
                String::from_str("Could not parse column for reference: ").concat(
                    reference.as_str(),
                ),
            );
        }
        let c = s.get_char(j);
        let d = crate::text::digit_value(c);
        proof {
            assert(digits.subrange(0, j - wk + 1).drop_last() =~= digits.subrange(0, j - wk));
            assert(digits.subrange(0, j - wk + 1).last() == digits[j - wk]);
            assert(digits[j - wk] == s@[j as int]);
        }
        row = row * 10 + d;
        j = j + 1;
    }
    proof {
        assert(digits.subrange(0, digits.len() as int) =~= digits);
    }
    proof {
        lemma_letters_val_pos(s@.subrange(0, wk), wk);
        assert(s@.subrange(0, wk).subrange(0, wk) =~= s@.subrange(0, wk));
    }
    if row > 0xffff {
        return Err(
            String::from_str("Could not parse column for reference: ").concat(reference.as_str()),
        );
    }
    if row < 1 {
        return Err(
            String::from_str("Could not parse column for reference: ").concat(reference.as_str()),
        );
    }
    Ok(((row - 1) as u16, (col - 1) as u16))
}

/// Extending a digit string never decreases its value.
proof fn lemma_digits_val_grow(s: Seq<char>, j: int)
    requires
        forall|i: int| 0 <= i < s.len() ==> is_digit_char(#[trigger] s[i]),
        0 <= j <= s.len(),
    ensures
        digits_val(s) >= digits_val(s.subrange(0, j)),
        digits_val(s.subrange(0, j)) >= 0,
    decreases s.len(),
{
    if j == s.len() {
        assert(s.subrange(0, j) =~= s);
        if s.len() > 0 {
            let t = s.drop_last();
            lemma_digits_val_grow(t, t.len() as int);
            assert(t.subrange(0, t.len() as int) =~= t);
        }
    } else {
        let t = s.drop_last();
        lemma_digits_val_grow(t, j);
        assert(t.subrange(0, j) =~= s.subrange(0, j));
    }
}

} // verus!
