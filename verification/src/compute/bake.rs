//! The recompute pass: clears every computed slot, then walks the grid in
//! row-major order, computing each cell after its dependencies, memoizing
//! results, and catching cyclic reference chains.
use crate::compute::node::{eval_spec, refs_of, resolve_reference, resolve_spec, NodeV};
use crate::compute::parse::parse_spec;
use crate::rational::{rat_render, RatV, Rational};
use crate::state::{cell_at, grid_with_slot, in_extent, Address, CellComputation, CellV, CompV, State};
use vstd::prelude::*;

verus! {

/// Two grids have the same shape and the same raw text and alignment in
/// every cell; only computed slots may differ.
pub open spec fn values_preserved(g1: Seq<Seq<CellV>>, g2: Seq<Seq<CellV>>) -> bool {
    &&& g1.len() == g2.len()
    &&& forall|r: int| 0 <= r < g1.len() ==> (#[trigger] g2[r]).len() == g1[r].len()
    &&& forall|r: int, c: int|
        0 <= r < g1.len() && 0 <= c < g1[r].len() ==> {
            &&& (#[trigger] g2[r][c]).value == g1[r][c].value
            &&& g2[r][c].alignment == g1[r][c].alignment
        }
}

/// Whether the cell that `a` reaches holds any text.
spec fn cell_nonempty(g: Seq<Seq<CellV>>, a: Address) -> bool {
    cell_at(g, a.0 as int, a.1 as int).value.len() > 0
}

/// The computed slot holding an error message.
spec fn error_slot(msg: Seq<char>) -> CompV {
    CompV { is_computed: true, error: true, display: msg, value: None }
}

/// The computed slot holding a numeric value.
pub open spec fn value_slot(v: RatV) -> CompV {
    CompV { is_computed: true, error: false, display: rat_render(v), value: Some(v) }
}

/// Whether the cell that a reference token reaches is computed whenever it
/// holds text.
pub open spec fn ref_target_computed(g: Seq<Seq<CellV>>, token: Seq<char>) -> bool {
    match resolve_spec(token) {
        Ok(a) => cell_at(g, a.0 as int, a.1 as int).value.len() > 0
            ==> cell_at(g, a.0 as int, a.1 as int).computed.is_computed,
        Err(_) => true,
    }
}

/// What one recompute pass guarantees of a computed slot, relative to the
/// grid `g` it ends in: only cells with text are computed; a cell whose text
/// does not parse holds exactly the parse failure; a cell holding a value
/// holds exactly the value its expression evaluates to against `g`, with its
/// decimal rendering, and every referenced cell with text is computed; a
/// formula without references holds exactly its evaluation outcome, error or
/// value.
pub open spec fn slot_ok(g: Seq<Seq<CellV>>, r: int, c: int) -> bool {
    let cell = g[r][c];
    cell.computed.is_computed ==> {
        &&& cell.value.len() > 0
        &&& (cell.computed.error ==> cell.computed.value is None)
        &&& match parse_spec(cell.value) {
            Err(e) => cell.computed.error && cell.computed.display == e,
            Ok(node) => {
                &&& (!cell.computed.error ==> {
                    &&& cell.computed.value is Some
                    &&& eval_spec(node, g) == Ok::<RatV, Seq<char>>(
                        cell.computed.value->Some_0,
                    )
                    &&& cell.computed.display == rat_render(cell.computed.value->Some_0)
                    &&& forall|t: int|
                        0 <= t < refs_of(node).len() ==> ref_target_computed(
                            g,
                            #[trigger] refs_of(node)[t],
                        )
                })
                &&& (refs_of(node).len() == 0 ==> match eval_spec(node, g) {
                    Ok(v) => !cell.computed.error && cell.computed == value_slot(v),
                    Err(e) => cell.computed.error && cell.computed.display == e,
                })
            },
        }
    }
}

/// Every computed slot of the grid is explained by `slot_ok`.
pub open spec fn grid_inv(g: Seq<Seq<CellV>>) -> bool {
    forall|r: int, c: int| in_extent(g, r, c) ==> #[trigger] slot_ok(g, r, c)
}

/// A dependency path never revisits an address except immediately (a cell
/// re-entered through its own reference is caught one level deeper).
spec fn ok_path(p: Seq<Address>) -> bool {
    forall|i: int, j: int|
        #![trigger p[i], p[j]]
        0 <= i < j < p.len() && p[i] == p[j] ==> j == i + 1
}

/// How many cells of a row hold text.
spec fn count_row(row: Seq<CellV>) -> nat
    decreases row.len(),
{
    if row.len() == 0 {
        0
    } else {
        count_row(row.drop_last()) + (if row.last().value.len() > 0 {
            1nat
        } else {
            0nat
        })
    }
}

/// How many cells of the grid hold text.
spec fn count_nonempty(g: Seq<Seq<CellV>>) -> nat
    decreases g.len(),
{
    if g.len() == 0 {
        0
    } else {
        count_nonempty(g.drop_last()) + count_row(g.last())
    }
}

/// The cell `a` of `g1` parses to an expression one of whose reference
/// leaves resolves to `b`.
spec fn ref_edge(g: Seq<Seq<CellV>>, a: Address, b: Address) -> bool {
    let cell = cell_at(g, a.0 as int, a.1 as int);
    &&& cell.value.len() > 0
    &&& match parse_spec(cell.value) {
        Ok(node) => exists|t: int|
            0 <= t < refs_of(node).len() && resolve_spec(#[trigger] refs_of(node)[t]) == Ok::<
                Address,
                Seq<char>,
            >(b),
        Err(_) => false,
    }
}

/// Consecutive path entries are reference edges, ending in an edge into the
/// address now being computed.
spec fn path_edges(g: Seq<Seq<CellV>>, p: Seq<Address>, addr: Address) -> bool {
    &&& forall|i: int| 0 <= i < p.len() - 1 ==> ref_edge(g, #[trigger] p[i], p[i + 1])
    &&& (p.len() > 0 ==> ref_edge(g, p.last(), addr))
}

/// The count of a row only depends on which cells hold text.
proof fn lemma_count_row_values(r1: Seq<CellV>, r2: Seq<CellV>)
    requires
        r1.len() == r2.len(),
        forall|c: int| 0 <= c < r1.len() ==> (#[trigger] r2[c]).value == r1[c].value,
    ensures
        count_row(r1) == count_row(r2),
    decreases r1.len(),
{
    if r1.len() > 0 {
        lemma_count_row_values(r1.drop_last(), r2.drop_last());
    }
}

/// The count of the grid only depends on which cells hold text.
proof fn lemma_count_values(g1: Seq<Seq<CellV>>, g2: Seq<Seq<CellV>>)
    requires
        values_preserved(g1, g2),
    ensures
        count_nonempty(g1) == count_nonempty(g2),
    decreases g1.len(),
{
    if g1.len() > 0 {
        let h1 = g1.drop_last();
        let h2 = g2.drop_last();
        assert(values_preserved(h1, h2)) by {
            assert(forall|r: int| 0 <= r < h1.len() ==> (#[trigger] h2[r]).len() == h1[r].len());
        }
        lemma_count_values(h1, h2);
        lemma_count_row_values(g1.last(), g2.last());
    }
}

/// Emptying one cell with text lowers the row count by one.
proof fn lemma_count_row_empty(row: Seq<CellV>, c: int, blank: CellV)
    requires
        0 <= c < row.len(),
        row[c].value.len() > 0,
        blank.value.len() == 0,
    ensures
        count_row(row.update(c, blank)) == count_row(row) - 1,
    decreases row.len(),
{
    let row2 = row.update(c, blank);
    if c == row.len() - 1 {
        assert(row2.drop_last() =~= row.drop_last());
        lemma_count_row_values(row2.drop_last(), row.drop_last());
    } else {
        assert(row2.drop_last() =~= row.drop_last().update(c, blank));
        lemma_count_row_empty(row.drop_last(), c, blank);
        assert(row2.last() == row.last());
    }
}

/// Emptying one cell with text lowers the grid count by one.
proof fn lemma_count_empty(g: Seq<Seq<CellV>>, r: int, c: int, blank: CellV)
    requires
        in_extent(g, r, c),
        g[r][c].value.len() > 0,
        blank.value.len() == 0,
    ensures
        count_nonempty(g.update(r, g[r].update(c, blank))) == count_nonempty(g) - 1,
    decreases g.len(),
{
    let g2 = g.update(r, g[r].update(c, blank));
    if r == g.len() - 1 {
        assert(g2.drop_last() =~= g.drop_last());
        lemma_count_nonempty_congruent(g2.drop_last(), g.drop_last());
        lemma_count_row_empty(g[r], c, blank);
        assert(g2.last() =~= g[r].update(c, blank));
    } else {
        assert(g2.drop_last() =~= g.drop_last().update(r, g[r].update(c, blank)));
        lemma_count_empty(g.drop_last(), r, c, blank);
        assert(g2.last() =~= g.last());
        lemma_count_row_congruent(g2.last(), g.last());
    }
}

/// Equal rows count equally.
proof fn lemma_count_row_congruent(r1: Seq<CellV>, r2: Seq<CellV>)
    requires
        r1 =~= r2,
    ensures
        count_row(r1) == count_row(r2),
{
}

/// Equal grids count equally.
proof fn lemma_count_nonempty_congruent(g1: Seq<Seq<CellV>>, g2: Seq<Seq<CellV>>)
    requires
        g1 =~= g2,
    ensures
        count_nonempty(g1) == count_nonempty(g2),
{
}

/// A dependency path whose entries all reach cells with text is at most
/// twice as long as the number of such cells: no address appears more than
/// twice on it.
proof fn lemma_path_bound(p: Seq<Address>, g: Seq<Seq<CellV>>)
    requires
        ok_path(p),
        forall|i: int| 0 <= i < p.len() ==> cell_nonempty(g, #[trigger] p[i]),
    ensures
        p.len() <= 2 * count_nonempty(g),
    decreases p.len(),
{
    if p.len() > 0 {
        let x = p.last();
        let q = p.drop_last();
        let r = x.0 as int;
        let c = x.1 as int;
        assert(cell_nonempty(g, x));
        assert(in_extent(g, r, c));
        let blank = CellV {
            value: Seq::<char>::empty(),
            ..g[r][c]
        };
        let g2 = g.update(r, g[r].update(c, blank));
        lemma_count_empty(g, r, c, blank);
        assert(forall|a: Address|
            a != x && cell_nonempty(g, a) ==> cell_nonempty(g2, a)) by {
            assert forall|a: Address| a != x && cell_nonempty(g, a) implies cell_nonempty(
                g2,
                a,
            ) by {
                if a.0 as int == r && a.1 as int == c {
                    assert(a == x);
                }
            }
        }
        if forall|j: int| 0 <= j < q.len() ==> q[j] != x {
            assert(ok_path(q));
            assert(forall|i: int| 0 <= i < q.len() ==> cell_nonempty(g2, #[trigger] q[i]));
            lemma_path_bound(q, g2);
        } else {
            let j = choose|j: int| 0 <= j < q.len() && q[j] == x;
            assert(p[j] == p[p.len() - 1]);
            assert(j == p.len() - 2);
            assert(q.len() >= 1 && q.last() == x);
            let w = q.drop_last();
            assert forall|i: int| 0 <= i < w.len() implies w[i] != x by {
                if w[i] == x {
                    assert(p[i] == p[p.len() - 2] && i < p.len() - 2);
                    assert(p.len() - 2 == i + 1);
                    assert(p[i] == p[p.len() - 1] && i < p.len() - 1);
                    assert(p.len() - 1 == i + 1);
                }
            }
            assert(ok_path(w));
            assert(forall|i: int| 0 <= i < w.len() ==> cell_nonempty(g2, #[trigger] w[i]));
            lemma_path_bound(w, g2);
        }
    }
}

/// The cells two grids must agree on for `n` to evaluate alike: those its
/// reference leaves resolve to.
spec fn ref_cells_agree(n: NodeV, g1: Seq<Seq<CellV>>, g2: Seq<Seq<CellV>>) -> bool {
    forall|t: int|
        0 <= t < refs_of(n).len() ==> match resolve_spec(#[trigger] refs_of(n)[t]) {
            Ok(a) => cell_at(g2, a.0 as int, a.1 as int) == cell_at(g1, a.0 as int, a.1 as int),
            Err(_) => true,
        }
}

/// Evaluation reads nothing of the grid but the cells that reference leaves
/// resolve to.
proof fn lemma_eval_agree(n: NodeV, g1: Seq<Seq<CellV>>, g2: Seq<Seq<CellV>>)
    requires
        ref_cells_agree(n, g1, g2),
    ensures
        eval_spec(n, g2) == eval_spec(n, g1),
    decreases n,
{
    match n {
        NodeV::Literal(_) => {},
        NodeV::BinaryOp(op, l, r) => {
            let whole = refs_of(n);
            assert(whole =~= refs_of(*l) + refs_of(*r));
            assert forall|t: int| 0 <= t < refs_of(*l).len() implies match resolve_spec(
                #[trigger] refs_of(*l)[t],
            ) {
                Ok(a) => cell_at(g2, a.0 as int, a.1 as int) == cell_at(
                    g1,
                    a.0 as int,
                    a.1 as int,
                ),
                Err(_) => true,
            } by {
                assert(whole[t] == refs_of(*l)[t]);
            }
            assert forall|t: int| 0 <= t < refs_of(*r).len() implies match resolve_spec(
                #[trigger] refs_of(*r)[t],
            ) {
                Ok(a) => cell_at(g2, a.0 as int, a.1 as int) == cell_at(
                    g1,
                    a.0 as int,
                    a.1 as int,
                ),
                Err(_) => true,
            } by {
                assert(whole[refs_of(*l).len() + t] == refs_of(*r)[t]);
            }
            lemma_eval_agree(*l, g1, g2);
            lemma_eval_agree(*r, g1, g2);
        },
        NodeV::Reference(name) => {
            assert(refs_of(n)[0] == name);
        },
    }
}

/// The cell `a` reaches is an error whenever it is computed.
spec fn err_if_computed(g: Seq<Seq<CellV>>, a: Address) -> bool {
    cell_at(g, a.0 as int, a.1 as int).computed.is_computed ==> cell_at(
        g,
        a.0 as int,
        a.1 as int,
    ).computed.error
}

/// Every computed cell on the dependency path holds an error: a value there
/// would mean a cell changed after being read.
spec fn stack_errs(g: Seq<Seq<CellV>>, p: Seq<Address>) -> bool {
    forall|i: int| 0 <= i < p.len() ==> err_if_computed(g, #[trigger] p[i])
}

/// A successful evaluation certifies its reference targets: every leaf
/// resolves, and reaches a cell with text whose slot is a value.
proof fn lemma_eval_ok_refs(n: NodeV, g: Seq<Seq<CellV>>)
    requires
        eval_spec(n, g) is Ok,
    ensures
        forall|t: int|
            0 <= t < refs_of(n).len() ==> match resolve_spec(#[trigger] refs_of(n)[t]) {
                Ok(a) => {
                    let cl = cell_at(g, a.0 as int, a.1 as int);
                    cl.value.len() > 0 && !cl.computed.error && cl.computed.value is Some
                },
                Err(_) => false,
            },
    decreases n,
{
    match n {
        NodeV::Literal(_) => {},
        NodeV::BinaryOp(op, l, r) => {
            let whole = refs_of(n);
            assert(whole =~= refs_of(*l) + refs_of(*r));
            lemma_eval_ok_refs(*l, g);
            lemma_eval_ok_refs(*r, g);
            assert forall|t: int| 0 <= t < whole.len() implies match resolve_spec(
                #[trigger] whole[t],
            ) {
                Ok(a) => {
                    let cl = cell_at(g, a.0 as int, a.1 as int);
                    cl.value.len() > 0 && !cl.computed.error && cl.computed.value is Some
                },
                Err(_) => false,
            } by {
                if t < refs_of(*l).len() {
                    assert(whole[t] == refs_of(*l)[t]);
                } else {
                    assert(whole[t] == refs_of(*r)[t - refs_of(*l).len()]);
                }
            }
        },
        NodeV::Reference(name) => {
            assert(refs_of(n)[0] == name);
        },
    }
}

/// Writing a slot into a cell with text keeps the whole grid explained,
/// provided the new slot is itself explained and the old slot, when present,
/// was an error (so no value cell can have read it).
proof fn lemma_put_preserves_inv(g: Seq<Seq<CellV>>, addr: Address, comp: CompV)
    requires
        grid_inv(g),
        in_extent(g, addr.0 as int, addr.1 as int),
        cell_nonempty(g, addr),
        cell_at(g, addr.0 as int, addr.1 as int).computed.is_computed ==> cell_at(
            g,
            addr.0 as int,
            addr.1 as int,
        ).computed.error,
        comp.is_computed,
        slot_ok(grid_with_slot(g, addr, comp), addr.0 as int, addr.1 as int),
    ensures
        grid_inv(grid_with_slot(g, addr, comp)),
{
    let g2 = grid_with_slot(g, addr, comp);
    let ar = addr.0 as int;
    let ac = addr.1 as int;
    assert(g2.len() == g.len());
    assert forall|r: int, c: int| in_extent(g2, r, c) implies #[trigger] slot_ok(g2, r, c) by {
        if r == ar && c == ac {
        } else {
            assert(g2[r][c] == g[r][c]);
            assert(slot_ok(g, r, c));
            let cell = g[r][c];
            if cell.computed.is_computed {
                match parse_spec(cell.value) {
                    Err(_) => {},
                    Ok(node) => {
                        if !cell.computed.error {
                            assert(eval_spec(node, g) == Ok::<RatV, Seq<char>>(
                                cell.computed.value->Some_0,
                            ));
                            lemma_eval_ok_refs(node, g);
                            assert forall|t: int| 0 <= t < refs_of(node).len() implies match
                                resolve_spec(#[trigger] refs_of(node)[t]) {
                                Ok(a) => cell_at(g2, a.0 as int, a.1 as int) == cell_at(
                                    g,
                                    a.0 as int,
                                    a.1 as int,
                                ),
                                Err(_) => true,
                            } by {
                                match resolve_spec(refs_of(node)[t]) {
                                    Ok(a) => {
                                        if a.0 as int == ar && a.1 as int == ac {
                                            // the target would be the written cell: it has
                                            // text, so it is computed (the cell's own
                                            // clause), hence an error, and the value this
                                            // cell holds could not have evaluated
                                            assert(ref_target_computed(g, refs_of(node)[t]));
                                            assert(cell_at(g, ar, ac).computed.is_computed);
                                            assert(cell_at(g, ar, ac).computed.error);
                                            assert(false);
                                        }
                                    },
                                    Err(_) => {},
                                }
                            }
                            lemma_eval_agree(node, g, g2);
                            assert forall|t: int| 0 <= t < refs_of(node).len() implies
                                ref_target_computed(g2, #[trigger] refs_of(node)[t]) by {
                                assert(ref_target_computed(g, refs_of(node)[t]));
                                match resolve_spec(refs_of(node)[t]) {
                                    Ok(a) => {
                                        if a.0 as int == ar && a.1 as int == ac {
                                            assert(cell_at(g2, a.0 as int, a.1 as int)
                                                .computed.is_computed);
                                        }
                                    },
                                    Err(_) => {},
                                }
                            }
                        }
                        if refs_of(node).len() == 0 {
                            lemma_eval_agree(node, g, g2);
                        }
                    },
                }
            }
        }
    }
}

/// Preserving values composes.
proof fn lemma_values_trans(g0: Seq<Seq<CellV>>, g1: Seq<Seq<CellV>>, g2: Seq<Seq<CellV>>)
    requires
        values_preserved(g0, g1),
        values_preserved(g1, g2),
    ensures
        values_preserved(g0, g2),
{
    assert forall|r: int, c: int| 0 <= r < g0.len() && 0 <= c < g0[r].len() implies {
        &&& (#[trigger] g2[r][c]).value == g0[r][c].value
        &&& g2[r][c].alignment == g0[r][c].alignment
    } by {
        assert(g1[r][c].value == g0[r][c].value);
        assert(g2[r][c].value == g1[r][c].value);
        assert(g1[r][c].alignment == g0[r][c].alignment);
        assert(g2[r][c].alignment == g1[r][c].alignment);
    }
}

/// Whether the stack already holds this address.
fn stack_contains(stack: &Vec<Address>, a: Address) -> (r: bool)
    ensures
        r == stack@.contains(a),
{
    let mut i: usize = 0;
    while i < stack.len()
        invariant
            0 <= i <= stack@.len(),
            forall|j: int| 0 <= j < i ==> stack@[j] != a,
        decreases stack@.len() - i,
    {
        let x = stack[i];
        if x.0 == a.0 && x.1 == a.1 {
            proof {
                assert(stack@[i as int] == a);
            }
            return true;
        }
        i = i + 1;
    }
    proof {
        if stack@.contains(a) {
            let j = choose|j: int| 0 <= j < stack@.len() && stack@[j] == a;
        }
    }
    false
}

/// The stack with this address appended, as a fresh vector.
fn extended_stack(stack: &Vec<Address>, a: Address) -> (r: Vec<Address>)
    ensures
        r@ =~= stack@.push(a),
{
    let mut out: Vec<Address> = Vec::new();
    let mut i: usize = 0;
    while i < stack.len()
        invariant
            0 <= i <= stack@.len(),
            out@ =~= stack@.subrange(0, i as int),
        decreases stack@.len() - i,
    {
        out.push(stack[i]);
        proof {
            assert(out@ =~= stack@.subrange(0, i + 1));
        }
        i = i + 1;
    }
    proof {
        assert(out@ =~= stack@);
    }
    out.push(a);
    out
}

/// The textual form of a coordinate pair: `(row, column)`.
spec fn addr_str(a: Address) -> Seq<char> {
    seq!['('] + crate::text::dec_str(a.0 as nat) + seq![',', ' '] + crate::text::dec_str(
        a.1 as nat,
    ) + seq![')']
}

/// The textual form of the dependency path: its pairs between brackets,
/// separated by commas.
spec fn path_str_rec(p: Seq<Address>) -> Seq<char>
    decreases p.len(),
{
    if p.len() == 0 {
        Seq::<char>::empty()
    } else if p.len() == 1 {
        addr_str(p[0])
    } else {
        path_str_rec(p.drop_last()) + seq![',', ' '] + addr_str(p.last())
    }
}

/// The message stored in every cell of a cyclic reference chain.
spec fn msg_cycle(p: Seq<Address>) -> Seq<char> {
    "Data contains a cycle! "@ + seq!['['] + path_str_rec(p) + seq![']']
}

/// Appends the textual form of one coordinate pair.
fn append_addr(out: &mut String, a: Address)
    ensures
        final(out)@ == old(out)@ + addr_str(a),
{
    crate::text::push_char(out, '(');
    crate::text::append_u64(out, a.0 as u64);
    crate::text::push_char(out, ',');
    crate::text::push_char(out, ' ');
    crate::text::append_u64(out, a.1 as u64);
    crate::text::push_char(out, ')');
    proof {
        assert(out@ =~= old(out)@ + addr_str(a));
    }
}

/// The cycle message naming the dependency path.
fn cycle_message(stack: &Vec<Address>) -> (r: String)
    ensures
        r@ == msg_cycle(stack@),
{
    let mut out = String::from_str("Data contains a cycle! ");
    crate::text::push_char(&mut out, '[');
    let mut i: usize = 0;
    while i < stack.len()
        invariant
            0 <= i <= stack@.len(),
            out@ == "Data contains a cycle! "@ + seq!['['] + path_str_rec(
                stack@.subrange(0, i as int),
            ),
        decreases stack@.len() - i,
    {
        if i > 0 {
            crate::text::push_char(&mut out, ',');
            crate::text::push_char(&mut out, ' ');
        }
        let ghost pre = stack@.subrange(0, i as int);
        append_addr(&mut out, stack[i]);
        proof {
            assert(stack@.subrange(0, i + 1).drop_last() =~= pre);
            assert(stack@.subrange(0, i + 1).last() == stack@[i as int]);
            if i == 0 {
                assert(path_str_rec(stack@.subrange(0, 1)) =~= addr_str(stack@[0]));
                assert(out@ =~= "Data contains a cycle! "@ + seq!['['] + path_str_rec(
                    stack@.subrange(0, i + 1),
                ));
            } else {
                assert(out@ =~= "Data contains a cycle! "@ + seq!['['] + path_str_rec(
                    stack@.subrange(0, i + 1),
                ));
            }
        }
        i = i + 1;
    }
    crate::text::push_char(&mut out, ']');
    proof {
        assert(stack@.subrange(0, stack@.len() as int) =~= stack@);
        assert(out@ =~= msg_cycle(stack@));
    }
    out
}

/// Stores an error outcome for the cell at `addr` and keeps the grid
/// explained: the message must be the parse failure itself, or any message
/// for a formula with references, or the exact evaluation failure for one
/// without.
fn store_error(state: &mut State, addr: Address, err: String)
    requires
        grid_inv(old(state)@.grid),
        in_extent(old(state)@.grid, addr.0 as int, addr.1 as int),
        cell_nonempty(old(state)@.grid, addr),
        cell_at(old(state)@.grid, addr.0 as int, addr.1 as int).computed.is_computed ==> cell_at(
            old(state)@.grid,
            addr.0 as int,
            addr.1 as int,
        ).computed.error,
        match parse_spec(cell_at(old(state)@.grid, addr.0 as int, addr.1 as int).value) {
            Err(e) => e == err@,
            Ok(node) => refs_of(node).len() > 0 || (match eval_spec(node, old(state)@.grid) {
                Err(e2) => e2 == err@,
                Ok(_) => false,
            }),
        },
    ensures
        final(state)@.grid =~~= grid_with_slot(old(state)@.grid, addr, error_slot(err@)),
        grid_inv(final(state)@.grid),
        values_preserved(old(state)@.grid, final(state)@.grid),
        cell_at(final(state)@.grid, addr.0 as int, addr.1 as int).computed.is_computed,
        cell_at(final(state)@.grid, addr.0 as int, addr.1 as int).computed.error,
        forall|r: int, c: int|
            in_extent(old(state)@.grid, r, c) && !(r == addr.0 as int && c == addr.1 as int)
                ==> #[trigger] final(state)@.grid[r][c] == old(state)@.grid[r][c],

        final(state)@.mode == old(state)@.mode,
        final(state)@.scroll == old(state)@.scroll,
        final(state)@.cursor == old(state)@.cursor,
        final(state)@.edit_cursor == old(state)@.edit_cursor,
{
    let ghost g0 = state@.grid;
    let ghost msg = err@;
    let mut comp = CellComputation::new();
    comp.set_error(err);
    state.put_slot(addr, comp);
    proof {
        let g2 = grid_with_slot(g0, addr, error_slot(msg));
        assert(state@.grid =~~= g2);
        match parse_spec(cell_at(g0, addr.0 as int, addr.1 as int).value) {
            Err(_) => {},
            Ok(node) => {
                if refs_of(node).len() == 0 {
                    lemma_eval_agree(node, g0, g2);
                }
            },
        }
        assert(slot_ok(g2, addr.0 as int, addr.1 as int));
        lemma_put_preserves_inv(g0, addr, error_slot(msg));
        assert(grid_inv(state@.grid)) by {
            assert(state@.grid =~= g2);
        }
    }
}

/// Stores the computed value for the cell at `addr` and keeps the grid
/// explained: the value must be exactly what the cell's formula evaluates
/// to, with every referenced cell already computed.
fn store_value(state: &mut State, addr: Address, val: Rational)
    requires
        grid_inv(old(state)@.grid),
        in_extent(old(state)@.grid, addr.0 as int, addr.1 as int),
        cell_nonempty(old(state)@.grid, addr),
        cell_at(old(state)@.grid, addr.0 as int, addr.1 as int).computed.is_computed ==> cell_at(
            old(state)@.grid,
            addr.0 as int,
            addr.1 as int,
        ).computed.error,
        match parse_spec(cell_at(old(state)@.grid, addr.0 as int, addr.1 as int).value) {
            Ok(node) => {
                &&& eval_spec(node, old(state)@.grid) == Ok::<RatV, Seq<char>>(val@)
                &&& forall|t: int|
                    0 <= t < refs_of(node).len() ==> match resolve_spec(
                        #[trigger] refs_of(node)[t],
                    ) {
                        Ok(a) => cell_nonempty(old(state)@.grid, a) ==> cell_at(
                            old(state)@.grid,
                            a.0 as int,
                            a.1 as int,
                        ).computed.is_computed,
                        Err(_) => true,
                    }
            },
            Err(_) => false,
        },
    ensures
        final(state)@.grid =~~= grid_with_slot(old(state)@.grid, addr, value_slot(val@)),
        grid_inv(final(state)@.grid),
        values_preserved(old(state)@.grid, final(state)@.grid),
        cell_at(final(state)@.grid, addr.0 as int, addr.1 as int).computed.is_computed,
        forall|r: int, c: int|
            in_extent(old(state)@.grid, r, c) && !(r == addr.0 as int && c == addr.1 as int)
                ==> #[trigger] final(state)@.grid[r][c] == old(state)@.grid[r][c],

        final(state)@.mode == old(state)@.mode,
        final(state)@.scroll == old(state)@.scroll,
        final(state)@.cursor == old(state)@.cursor,
        final(state)@.edit_cursor == old(state)@.edit_cursor,
{
    let ghost g0 = state@.grid;
    let ghost vv = val@;
    let mut comp = CellComputation::new();
    comp.set_computed(val);
    state.put_slot(addr, comp);
    proof {
        let g2 = grid_with_slot(g0, addr, value_slot(vv));
        let ar = addr.0 as int;
        let ac = addr.1 as int;
        assert(state@.grid =~~= g2);
        let node = parse_spec(cell_at(g0, ar, ac).value)->Ok_0;
        lemma_eval_ok_refs(node, g0);
        assert forall|t: int| 0 <= t < refs_of(node).len() implies match resolve_spec(
            #[trigger] refs_of(node)[t],
        ) {
            Ok(a) => cell_at(g2, a.0 as int, a.1 as int) == cell_at(g0, a.0 as int, a.1 as int),
            Err(_) => true,
        } by {
            match resolve_spec(refs_of(node)[t]) {
                Ok(a) => {
                    if a.0 as int == ar && a.1 as int == ac {
                        assert(cell_at(g0, ar, ac).value.len() > 0);
                        assert(cell_at(g0, ar, ac).computed.is_computed);
                        assert(cell_at(g0, ar, ac).computed.error);
                        assert(!cell_at(g0, a.0 as int, a.1 as int).computed.error);
                        assert(false);
                    }
                },
                Err(_) => {},
            }
        }
        lemma_eval_agree(node, g0, g2);
        assert forall|t: int| 0 <= t < refs_of(node).len() implies ref_target_computed(
            g2,
            #[trigger] refs_of(node)[t],
        ) by {
            match resolve_spec(refs_of(node)[t]) {
                Ok(a) => {
                    assert(cell_at(g0, a.0 as int, a.1 as int).value.len() > 0
                        && !cell_at(g0, a.0 as int, a.1 as int).computed.error && cell_at(
                        g0,
                        a.0 as int,
                        a.1 as int,
                    ).computed.value is Some);
                    if cell_nonempty(g0, a) {
                        assert(cell_at(g0, a.0 as int, a.1 as int).computed.is_computed);
                    }
                },
                Err(_) => {},
            }
        }
        assert(slot_ok(g2, ar, ac));
        lemma_put_preserves_inv(g0, addr, value_slot(vv));
        assert(grid_inv(state@.grid)) by {
            assert(state@.grid =~= g2);
        }
    }
}

/// Bundles the frame bookkeeping of one slot write at the end of computing
/// a cell: stability for previously computed and for empty cells.
proof fn lemma_parse_cell_post(
    g0: Seq<Seq<CellV>>,
    gmid: Seq<Seq<CellV>>,
    gfin: Seq<Seq<CellV>>,
    addr: Address,
)
    requires
        values_preserved(g0, gmid),
        values_preserved(gmid, gfin),
        in_extent(g0, addr.0 as int, addr.1 as int),
        !g0[addr.0 as int][addr.1 as int].computed.is_computed,
        g0[addr.0 as int][addr.1 as int].value.len() > 0,
        forall|r: int, c: int|
            in_extent(g0, r, c) && (#[trigger] g0[r][c]).computed.is_computed ==> gmid[r][c]
                == g0[r][c],
        forall|r: int, c: int|
            in_extent(g0, r, c) && (#[trigger] g0[r][c]).value.len() == 0 ==> gmid[r][c]
                == g0[r][c],
        forall|r: int, c: int|
            in_extent(gmid, r, c) && !(r == addr.0 as int && c == addr.1 as int)
                ==> #[trigger] gfin[r][c] == gmid[r][c],
    ensures
        values_preserved(g0, gfin),
        forall|r: int, c: int|
            in_extent(g0, r, c) && (#[trigger] g0[r][c]).computed.is_computed ==> gfin[r][c]
                == g0[r][c],
        forall|r: int, c: int|
            in_extent(g0, r, c) && (#[trigger] g0[r][c]).value.len() == 0 ==> gfin[r][c]
                == g0[r][c],
{
    lemma_values_trans(g0, gmid, gfin);
    assert forall|r: int, c: int|
        in_extent(g0, r, c) && (#[trigger] g0[r][c]).computed.is_computed implies gfin[r][c]
        == g0[r][c] by {
        if r == addr.0 as int && c == addr.1 as int {
        } else {
            assert(gfin[r][c] == gmid[r][c]);
        }
    }
    assert forall|r: int, c: int|
        in_extent(g0, r, c) && (#[trigger] g0[r][c]).value.len() == 0 implies gfin[r][c]
        == g0[r][c] by {
        if r == addr.0 as int && c == addr.1 as int {
        } else {
            assert(gfin[r][c] == gmid[r][c]);
        }
    }
}

/// Ensures the cell at `addr` is computed: nothing happens when it is
/// already computed or holds no text; otherwise its text is parsed, its
/// references are computed first (reporting a cycle when one leads back into
/// the active path), and the evaluation outcome is stored.
fn parse_cell(state: &mut State, addr: Address, loop_stack: &Vec<Address>)
    requires
        grid_inv(old(state)@.grid),
        ok_path(loop_stack@.push(addr)),
        forall|i: int|
            0 <= i < loop_stack@.len() ==> cell_nonempty(
                old(state)@.grid,
                #[trigger] loop_stack@[i],
            ),
        stack_errs(old(state)@.grid, loop_stack@),
        path_edges(old(state)@.grid, loop_stack@, addr),
    ensures
        values_preserved(old(state)@.grid, final(state)@.grid),
        final(state)@.mode == old(state)@.mode,
        final(state)@.scroll == old(state)@.scroll,
        final(state)@.cursor == old(state)@.cursor,
        final(state)@.edit_cursor == old(state)@.edit_cursor,
        grid_inv(final(state)@.grid),
        forall|r: int, c: int|
            in_extent(old(state)@.grid, r, c) && (#[trigger] old(
                state,
            )@.grid[r][c]).computed.is_computed ==> final(state)@.grid[r][c] == old(
                state,
            )@.grid[r][c],
        forall|r: int, c: int|
            in_extent(old(state)@.grid, r, c) && (#[trigger] old(
                state,
            )@.grid[r][c]).value.len() == 0 ==> final(state)@.grid[r][c] == old(
                state,
            )@.grid[r][c],
        cell_nonempty(old(state)@.grid, addr) ==> cell_at(
            final(state)@.grid,
            addr.0 as int,
            addr.1 as int,
        ).computed.is_computed,
        stack_errs(final(state)@.grid, loop_stack@),
    decreases 2 * count_nonempty(old(state)@.grid) + 2 - loop_stack@.len(),
{
    let ghost g0 = state@.grid;
    let ghost ar = addr.0 as int;
    let ghost ac = addr.1 as int;
    if state.get_at(addr).computed.is_computed {
        return;
    }
    if state.get_at(addr).value.as_str().unicode_len() == 0 {
        return;
    }
    proof {
        if !in_extent(g0, ar, ac) {
            assert(cell_at(g0, ar, ac) == crate::state::blank_cell_v());
        }
    }
    let parse_result = crate::compute::parse::parse(state.get_at(addr).value.as_str());
    let node = match parse_result {
        Err(e) => {
            store_error(state, addr, e);
            proof {
                lemma_parse_cell_post(g0, g0, state@.grid, addr);
                assert forall|k: int| 0 <= k < loop_stack@.len() implies err_if_computed(
                    state@.grid,
                    #[trigger] loop_stack@[k],
                ) by {
                    let a2 = loop_stack@[k];
                    if a2 == addr {
                        assert(cell_at(state@.grid, a2.0 as int, a2.1 as int).computed.error);
                    } else {
                        if in_extent(g0, a2.0 as int, a2.1 as int) {
                            assert(state@.grid[a2.0 as int][a2.1 as int]
                                == g0[a2.0 as int][a2.1 as int]);
                        }
                        assert(err_if_computed(g0, a2));
                    }
                }
            }
            return;
        },
        Ok(node) => node,
    };
    let ghost nodev = node@;
    let refs = node.get_references();
    let new_loop_stack = extended_stack(loop_stack, addr);
    let mut i: usize = 0;
    while i < refs.len()
        invariant
            0 <= i <= refs@.len(),
            refs.deep_view() == refs_of(nodev),
            new_loop_stack@ =~= loop_stack@.push(addr),
            g0 == old(state)@.grid,
            values_preserved(g0, state@.grid),
            state@.mode == old(state)@.mode,
            state@.scroll == old(state)@.scroll,
            state@.cursor == old(state)@.cursor,
            state@.edit_cursor == old(state)@.edit_cursor,
            grid_inv(state@.grid),
            forall|r: int, c: int|
                in_extent(g0, r, c) && (#[trigger] g0[r][c]).computed.is_computed
                    ==> state@.grid[r][c] == g0[r][c],
            forall|r: int, c: int|
                in_extent(g0, r, c) && (#[trigger] g0[r][c]).value.len() == 0
                    ==> state@.grid[r][c] == g0[r][c],
            stack_errs(state@.grid, loop_stack@),
            in_extent(g0, ar, ac),
            ar == addr.0 as int,
            ac == addr.1 as int,
            cell_nonempty(g0, addr),
            !g0[ar][ac].computed.is_computed,
            parse_spec(g0[ar][ac].value) == Ok::<NodeV, Seq<char>>(nodev),
            err_if_computed(state@.grid, addr),
            ok_path(loop_stack@.push(addr)),
            forall|k: int|
                0 <= k < loop_stack@.len() ==> cell_nonempty(
                    state@.grid,
                    #[trigger] loop_stack@[k],
                ),
            path_edges(state@.grid, loop_stack@, addr),
            forall|j: int|
                0 <= j < i ==> match resolve_spec(#[trigger] refs_of(nodev)[j]) {
                    Ok(a) => !loop_stack@.contains(a) && (cell_nonempty(state@.grid, a)
                        ==> cell_at(state@.grid, a.0 as int, a.1 as int).computed.is_computed),
                    Err(_) => false,
                },
        decreases refs@.len() - i,
    {
        let ghost g_pre = state@.grid;
        let rstr: &String = refs[i];
        proof {
            assert(rstr@ == refs_of(nodev)[i as int]);
        }
        let ref_addr = match resolve_reference(rstr) {
            Err(e) => {
                proof {
                    assert(cell_at(g_pre, ar, ac).value == g0[ar][ac].value);
                }
                store_error(state, addr, e);
                proof {
                    lemma_parse_cell_post(g0, g_pre, state@.grid, addr);
                    assert forall|k: int| 0 <= k < loop_stack@.len() implies err_if_computed(
                        state@.grid,
                        #[trigger] loop_stack@[k],
                    ) by {
                        let a2 = loop_stack@[k];
                        if a2 == addr {
                            assert(cell_at(state@.grid, a2.0 as int, a2.1 as int)
                                .computed.error);
                        } else {
                            if in_extent(g_pre, a2.0 as int, a2.1 as int) {
                                assert(state@.grid[a2.0 as int][a2.1 as int]
                                    == g_pre[a2.0 as int][a2.1 as int]);
                            }
                            assert(err_if_computed(g_pre, a2));
                        }
                    }
                }
                return;
            },
            Ok(a) => a,
        };
        if stack_contains(loop_stack, ref_addr) {
            let msg = cycle_message(loop_stack);
            proof {
                assert(cell_at(g_pre, ar, ac).value == g0[ar][ac].value);
            }
            store_error(state, addr, msg);
            proof {
                lemma_parse_cell_post(g0, g_pre, state@.grid, addr);
                assert forall|k: int| 0 <= k < loop_stack@.len() implies err_if_computed(
                    state@.grid,
                    #[trigger] loop_stack@[k],
                ) by {
                    let a2 = loop_stack@[k];
                    if a2 == addr {
                        assert(cell_at(state@.grid, a2.0 as int, a2.1 as int).computed.error);
                    } else {
                        if in_extent(g_pre, a2.0 as int, a2.1 as int) {
                            assert(state@.grid[a2.0 as int][a2.1 as int]
                                == g_pre[a2.0 as int][a2.1 as int]);
                        }
                        assert(err_if_computed(g_pre, a2));
                    }
                }
            }
            return;
        }
        proof {
            lemma_count_values(g0, state@.grid);
            lemma_path_bound(loop_stack@.push(addr), state@.grid);
            assert forall|k: int|
                0 <= k < new_loop_stack@.len() implies cell_nonempty(
                state@.grid,
                #[trigger] new_loop_stack@[k],
            ) by {
                if k < loop_stack@.len() {
                    assert(new_loop_stack@[k] == loop_stack@[k]);
                } else {
                    assert(new_loop_stack@[k] == addr);
                }
            }
            assert(ok_path(new_loop_stack@.push(ref_addr))) by {
                let q = new_loop_stack@.push(ref_addr);
                assert forall|x: int, y: int|
                    #![trigger q[x], q[y]]
                    0 <= x < y < q.len() && q[x] == q[y] implies y == x + 1 by {
                    if y < q.len() - 1 {
                        assert(loop_stack@.push(addr)[x] == q[x]);
                        assert(loop_stack@.push(addr)[y] == q[y]);
                    } else {
                        if x < loop_stack@.len() {
                            assert(loop_stack@[x] == ref_addr);
                            assert(loop_stack@.contains(ref_addr));
                        }
                    }
                }
            }
            assert(stack_errs(state@.grid, new_loop_stack@)) by {
                assert forall|k: int| 0 <= k < new_loop_stack@.len() implies err_if_computed(
                    state@.grid,
                    #[trigger] new_loop_stack@[k],
                ) by {
                    if k < loop_stack@.len() {
                        assert(new_loop_stack@[k] == loop_stack@[k]);
                        assert(err_if_computed(state@.grid, loop_stack@[k]));
                    } else {
                        assert(new_loop_stack@[k] == addr);
                    }
                }
            }
            assert(path_edges(state@.grid, new_loop_stack@, ref_addr)) by {
                assert(cell_at(state@.grid, ar, ac).value == g0[ar][ac].value);
                assert(ref_edge(state@.grid, addr, ref_addr)) by {
                    assert(resolve_spec(refs_of(nodev)[i as int]) == Ok::<Address, Seq<char>>(
                        ref_addr,
                    ));
                }
                assert forall|k: int|
                    0 <= k < new_loop_stack@.len() - 1 implies ref_edge(
                    state@.grid,
                    #[trigger] new_loop_stack@[k],
                    new_loop_stack@[k + 1],
                ) by {
                    if k < loop_stack@.len() - 1 {
                        assert(new_loop_stack@[k] == loop_stack@[k]);
                        assert(new_loop_stack@[k + 1] == loop_stack@[k + 1]);
                    } else {
                        assert(new_loop_stack@[k] == loop_stack@.last());
                        assert(new_loop_stack@[k + 1] == addr);
                    }
                }
            }
        }
        parse_cell(state, ref_addr, &new_loop_stack);
        proof {
            lemma_values_trans(g0, g_pre, state@.grid);
            assert forall|j: int| 0 <= j <= i implies match resolve_spec(
                #[trigger] refs_of(nodev)[j],
            ) {
                Ok(a) => !loop_stack@.contains(a) && (cell_nonempty(state@.grid, a)
                    ==> cell_at(state@.grid, a.0 as int, a.1 as int).computed.is_computed),
                Err(_) => false,
            } by {
                if j < i {
                    match resolve_spec(refs_of(nodev)[j]) {
                        Ok(a) => {
                            if cell_nonempty(state@.grid, a) {
                                assert(cell_nonempty(g_pre, a));
                                assert(cell_at(g_pre, a.0 as int, a.1 as int)
                                    .computed.is_computed);
                                if in_extent(g_pre, a.0 as int, a.1 as int) {
                                    assert(state@.grid[a.0 as int][a.1 as int] == g_pre[a.0 as int][a.1 as int]);
                                } else {
                                    assert(cell_at(g_pre, a.0 as int, a.1 as int)
                                        == crate::state::blank_cell_v());
                                    assert(false);
                                }
                            }
                        },
                        Err(_) => {},
                    }
                } else {
                    assert(refs_of(nodev)[j] == rstr@);
                    if cell_nonempty(state@.grid, ref_addr) {
                        assert(cell_nonempty(g_pre, ref_addr));
                    }
                }
            }
            assert(stack_errs(state@.grid, loop_stack@)) by {
                assert forall|k: int| 0 <= k < loop_stack@.len() implies err_if_computed(
                    state@.grid,
                    #[trigger] loop_stack@[k],
                ) by {
                    assert(new_loop_stack@[k] == loop_stack@[k]);
                    assert(err_if_computed(state@.grid, new_loop_stack@[k]));
                }
            }
            assert(err_if_computed(state@.grid, addr)) by {
                assert(new_loop_stack@[loop_stack@.len() as int] == addr);
                assert(err_if_computed(state@.grid, new_loop_stack@[loop_stack@.len() as int]));
            }
        }
        i = i + 1;
    }
    // Every reference was found outside the path, so the address itself
    // cannot lie on it: its path successor would have been caught.
    proof {
        if loop_stack@.contains(addr) {
            let j = choose|j: int| 0 <= j < loop_stack@.len() && loop_stack@[j] == addr;
            let s: Address = if j < loop_stack@.len() - 1 {
                loop_stack@[j + 1]
            } else {
                addr
            };
            assert(ref_edge(state@.grid, addr, s)) by {
                if j < loop_stack@.len() - 1 {
                    assert(ref_edge(state@.grid, loop_stack@[j], loop_stack@[j + 1]));
                } else {
                    assert(ref_edge(state@.grid, loop_stack@.last(), addr));
                    assert(loop_stack@.last() == addr);
                }
            }
            assert(cell_at(state@.grid, ar, ac).value == g0[ar][ac].value);
            let t = choose|t: int|
                0 <= t < refs_of(nodev).len() && resolve_spec(#[trigger] refs_of(nodev)[t])
                    == Ok::<Address, Seq<char>>(s);
            assert(!loop_stack@.contains(s));
            assert(loop_stack@[j] == addr && s == addr ==> loop_stack@.contains(s));
            assert(j < loop_stack@.len() - 1 ==> loop_stack@.contains(s));
            assert(false);
        }
    }
    let ghost g_eval = state@.grid;
    proof {
        assert(crate::compute::node::refs_computed(nodev, g_eval)) by {
            assert forall|t: int|
                0 <= t < refs_of(nodev).len() implies crate::compute::node::ref_ready(
                #[trigger] refs_of(nodev)[t],
                g_eval,
            ) by {
                match resolve_spec(refs_of(nodev)[t]) {
                    Ok(a) => {
                        let cl = cell_at(g_eval, a.0 as int, a.1 as int);
                        if cl.value.len() > 0 {
                            assert(cl.computed.is_computed);
                            if !cl.computed.error {
                                assert(in_extent(g_eval, a.0 as int, a.1 as int)) by {
                                    if !in_extent(g_eval, a.0 as int, a.1 as int) {
                                        assert(cl == crate::state::blank_cell_v());
                                    }
                                }
                                assert(slot_ok(g_eval, a.0 as int, a.1 as int));
                            }
                        }
                    },
                    Err(_) => {},
                }
            }
        }
    }
    let result = node.compute(state);
    match result {
        Ok(val) => {
            proof {
                assert(cell_at(g_eval, ar, ac).value == g0[ar][ac].value);
            }
            store_value(state, addr, val);
            proof {
                lemma_parse_cell_post(g0, g_eval, state@.grid, addr);
                assert(cell_at(state@.grid, ar, ac).computed.is_computed);
                assert(stack_errs(state@.grid, loop_stack@)) by {
                    assert forall|k: int| 0 <= k < loop_stack@.len() implies err_if_computed(
                        state@.grid,
                        #[trigger] loop_stack@[k],
                    ) by {
                        assert(loop_stack@[k] != addr);
                        assert(err_if_computed(g_eval, loop_stack@[k]));
                    }
                }
            }
        },
        Err(err) => {
            proof {
                assert(cell_at(g_eval, ar, ac).value == g0[ar][ac].value);
            }
            store_error(state, addr, err);
            proof {
                lemma_parse_cell_post(g0, g_eval, state@.grid, addr);
                assert forall|k: int| 0 <= k < loop_stack@.len() implies err_if_computed(
                    state@.grid,
                    #[trigger] loop_stack@[k],
                ) by {
                    let a2 = loop_stack@[k];
                    assert(a2 != addr);
                    if in_extent(g_eval, a2.0 as int, a2.1 as int) {
                        assert(state@.grid[a2.0 as int][a2.1 as int]
                            == g_eval[a2.0 as int][a2.1 as int]);
                    }
                    assert(err_if_computed(g_eval, a2));
                }
            }
        },
    }
}

/// One full recompute pass: clears every computed slot, then computes every
/// cell of the grid in row-major order, dependencies first.  Afterwards a
/// cell is computed exactly when it holds text, and every computed slot is
/// explained by `slot_ok` against the final grid: parse failures and
/// reference-free formulas hold their exact outcome, and every stored value
/// is exactly what the cell's formula evaluates to.
pub fn bake(state: &mut State)
    ensures
        values_preserved(old(state)@.grid, final(state)@.grid),
        final(state)@.mode == old(state)@.mode,
        final(state)@.scroll == old(state)@.scroll,
        final(state)@.cursor == old(state)@.cursor,
        final(state)@.edit_cursor == old(state)@.edit_cursor,
        grid_inv(final(state)@.grid),
        forall|r: int, c: int|
            in_extent(final(state)@.grid, r, c) && r < 0x10000 && c < 0x10000 ==> ((#[trigger]
            final(state)@.grid[r][c]).computed.is_computed
                <==> final(state)@.grid[r][c].value.len() > 0),
{
    let ghost gorig = state@.grid;
    state.clear_all();
    proof {
        assert(values_preserved(gorig, state@.grid));
        assert(grid_inv(state@.grid)) by {
            assert forall|r: int, c: int|
                in_extent(state@.grid, r, c) implies #[trigger] slot_ok(state@.grid, r, c) by {
                assert(in_extent(gorig, r, c));
                assert(!state@.grid[r][c].computed.is_computed);
            }
        }
    }
    let ghost g1 = state@.grid;
    let empty_stack: Vec<Address> = Vec::new();
    let num_rows = state.content.len();
    let mut r: usize = 0;
    while r < num_rows
        invariant
            0 <= r <= num_rows,
            gorig == old(state)@.grid,
            values_preserved(gorig, g1),
            num_rows == g1.len(),
            empty_stack@ =~= Seq::<Address>::empty(),
            values_preserved(g1, state@.grid),
            state@.mode == old(state)@.mode,
            state@.scroll == old(state)@.scroll,
            state@.cursor == old(state)@.cursor,
            state@.edit_cursor == old(state)@.edit_cursor,
            grid_inv(state@.grid),
            forall|i: int, j: int|
                in_extent(g1, i, j) && (#[trigger] g1[i][j]).value.len() == 0
                    ==> state@.grid[i][j] == g1[i][j],
            forall|i: int, j: int|
                in_extent(g1, i, j) && i < r && i < 0x10000 && j < 0x10000 && (#[trigger]
                g1[i][j]).value.len() > 0 ==> state@.grid[i][j].computed.is_computed,
        decreases num_rows - r,
    {
        let num_columns = state.content[r].len();
        let mut c: usize = 0;
        while c < num_columns
            invariant
                0 <= r < num_rows,
                0 <= c <= num_columns,
                gorig == old(state)@.grid,
                values_preserved(gorig, g1),
                num_rows == g1.len(),
                num_columns == g1[r as int].len(),
                empty_stack@ =~= Seq::<Address>::empty(),
                values_preserved(g1, state@.grid),
                state@.mode == old(state)@.mode,
                state@.scroll == old(state)@.scroll,
                state@.cursor == old(state)@.cursor,
                state@.edit_cursor == old(state)@.edit_cursor,
                grid_inv(state@.grid),
                forall|i: int, j: int|
                    in_extent(g1, i, j) && (#[trigger] g1[i][j]).value.len() == 0
                        ==> state@.grid[i][j] == g1[i][j],
                forall|i: int, j: int|
                    in_extent(g1, i, j) && i < r && i < 0x10000 && j < 0x10000 && (#[trigger]
                    g1[i][j]).value.len() > 0 ==> state@.grid[i][j].computed.is_computed,
                forall|j: int|
                    0 <= j < c && j < 0x10000 && r < 0x10000 && (#[trigger]
                    g1[r as int][j]).value.len() > 0
                        ==> state@.grid[r as int][j].computed.is_computed,
            decreases num_columns - c,
        {
            let ghost g_pre = state@.grid;
            let addr: Address = (#[verifier::truncate] (r as u16), #[verifier::truncate] (
            c as u16));
            parse_cell(state, addr, &empty_stack);
            proof {
                lemma_values_trans(g1, g_pre, state@.grid);
                assert forall|i: int, j: int|
                    in_extent(g1, i, j) && (#[trigger] g1[i][j]).value.len() == 0 implies
                    state@.grid[i][j] == g1[i][j] by {
                    assert(g_pre[i][j] == g1[i][j]);
                    assert(in_extent(g_pre, i, j));
                }
                assert forall|i: int, j: int|
                    in_extent(g1, i, j) && i < r && i < 0x10000 && j < 0x10000 && (#[trigger]
                    g1[i][j]).value.len() > 0 implies state@.grid[i][j].computed.is_computed by {
                    assert(g_pre[i][j].computed.is_computed);
                    assert(in_extent(g_pre, i, j));
                    assert(state@.grid[i][j] == g_pre[i][j]);
                }
                if r < 0x10000 && c < 0x10000 {
                    assert(addr.0 as int == r as int && addr.1 as int == c as int);
                    if g1[r as int][c as int].value.len() > 0 {
                        assert(cell_nonempty(g_pre, addr)) by {
                            assert(in_extent(g_pre, r as int, c as int));
                            assert(g_pre[r as int][c as int].value == g1[r as int][
                                c as int].value);
                        }
                        assert(cell_at(state@.grid, r as int, c as int).computed.is_computed);
                        assert(in_extent(state@.grid, r as int, c as int));
                    }
                }
                assert forall|j: int|
                    0 <= j < c + 1 && j < 0x10000 && r < 0x10000 && (#[trigger]
                    g1[r as int][j]).value.len() > 0 implies state@.grid[r as int][
                    j].computed.is_computed by {
                    if j < c {
                        assert(g_pre[r as int][j].computed.is_computed);
                        assert(in_extent(g_pre, r as int, j));
                        assert(state@.grid[r as int][j] == g_pre[r as int][j]);
                    }
                }
            }
            c = c + 1;
        }
        proof {
            assert forall|i: int, j: int|
                in_extent(g1, i, j) && i < r + 1 && i < 0x10000 && j < 0x10000 && (#[trigger]
                g1[i][j]).value.len() > 0 implies state@.grid[i][j].computed.is_computed by {
                if i == r as int {
                    assert(g1[r as int].len() == num_columns);
                }
            }
        }
        r = r + 1;
    }
    proof {
        lemma_values_trans(gorig, g1, state@.grid);
        assert forall|r: int, c: int|
            in_extent(state@.grid, r, c) && r < 0x10000 && c < 0x10000 implies ((#[trigger]
        state@.grid[r][c]).computed.is_computed <==> state@.grid[r][c].value.len() > 0) by {
            assert(in_extent(g1, r, c));
            if g1[r][c].value.len() > 0 {
                assert(state@.grid[r][c].computed.is_computed);
            } else {
                assert(state@.grid[r][c] == g1[r][c]);
                assert(!state@.grid[r][c].computed.is_computed);
            }
            if state@.grid[r][c].computed.is_computed {
                assert(slot_ok(state@.grid, r, c));
            }
        }
    }
}

} // verus!
