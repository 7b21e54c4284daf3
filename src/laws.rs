//! Properties of the layouter and the verifier, stated over the same spec
//! functions as their contracts and proved.
use crate::circuit::Expr;
use crate::layout::{placement_ok, Assignment, Cell, RegionInfo};
use crate::prover::{
    any_violation, copy_fails, eval, gate_fails, in_table, inputs_known, input_value, lookup_fails,
    lookup_width, row_matches, table_complete, table_height, table_incomplete,
};
use vstd::prelude::*;

verus! {

/// The value held by cell `c`.
pub open spec fn value_of(a: &Assignment, c: Cell) -> Option<int> {
    a.cell_value(c.column, c.row as int)
}

/// Copy constraint `k` joins `x` and `y`, in either order.
pub open spec fn joins(a: &Assignment, k: int, x: Cell, y: Cell) -> bool {
    &&& 0 <= k < a.copies@.len()
    &&& (a.copies@[k].a == x && a.copies@[k].b == y) || (a.copies@[k].a == y && a.copies@[k].b
        == x)
}

/// Some copy constraint joins `x` and `y`.
pub open spec fn step(a: &Assignment, x: Cell, y: Cell) -> bool {
    exists|k: int| #[trigger] joins(a, k, x, y)
}

/// `s` is a walk along copy constraints.
pub open spec fn is_walk(a: &Assignment, s: Seq<Cell>) -> bool {
    forall|i: int| #![trigger s[i]] 0 <= i < s.len() - 1 ==> step(a, s[i], s[i + 1])
}

/// `x` and `y` lie in one equivalence class of the copy constraints: some
/// walk along them leads from `x` to `y`.
pub open spec fn same_class(a: &Assignment, x: Cell, y: Cell) -> bool {
    exists|s: Seq<Cell>| s.len() > 0 && s[0] == x && s.last() == y && #[trigger] is_walk(a, s)
}

/// Every equivalence class of the copy constraints holds one value.
pub open spec fn classes_agree(a: &Assignment) -> bool {
    forall|x: Cell, y: Cell| #[trigger] same_class(a, x, y) ==> value_of(a, x) == value_of(a, y)
}

proof fn lemma_walk_agrees(a: &Assignment, s: Seq<Cell>, i: int)
    requires
        forall|k: int| !#[trigger] copy_fails(a, k),
        is_walk(a, s),
        0 <= i < s.len(),
    ensures
        value_of(a, s[0]) == value_of(a, s[i]),
    decreases i,
{
    if i > 0 {
        lemma_walk_agrees(a, s, i - 1);
        assert(step(a, s[i - 1], s[(i - 1) + 1]));
        let k = choose|k: int| #[trigger] joins(a, k, s[i - 1], s[(i - 1) + 1]);
        assert(!copy_fails(a, k));
    }
}

/// Checking each copy constraint on its own decides the equivalence classes:
/// no copy constraint fails exactly when every class holds one value.
pub proof fn lemma_classes_from_pairs(a: &Assignment)
    ensures
        classes_agree(a) <==> forall|k: int| !#[trigger] copy_fails(a, k),
{
    if forall|k: int| !#[trigger] copy_fails(a, k) {
        assert forall|x: Cell, y: Cell| #[trigger] same_class(a, x, y) implies value_of(a, x)
            == value_of(a, y) by {
            let s = choose|s: Seq<Cell>|
                s.len() > 0 && s[0] == x && s.last() == y && #[trigger] is_walk(a, s);
            lemma_walk_agrees(a, s, s.len() - 1);
        }
    }
    if classes_agree(a) {
        assert forall|k: int| !#[trigger] copy_fails(a, k) by {
            if 0 <= k < a.copies@.len() {
                let c = a.copies@[k];
                let s = seq![c.a, c.b];
                assert(joins(a, k, s[0], s[1]));
                assert(step(a, s[0], s[1]));
                assert(is_walk(a, s));
                assert(same_class(a, c.a, c.b));
            }
        }
    }
}

/// A witness on which every gate polynomial evaluates to zero on every row
/// (or reads an unknown cell), every lookup has a complete table holding its
/// input tuple on every row (where the tuple is known), and every equivalence
/// class of the copy constraints holds one value, breaks no constraint:
/// `verify` returns no violation.
pub proof fn lemma_satisfied_passes(a: &Assignment)
    requires
        forall|g: int, p: int, row: int|
            0 <= g < a.cs.gates@.len() && 0 <= p < a.cs.gates@[g].polys@.len() && 0 <= row
                < a.rows ==> (#[trigger] eval(a, a.cs.gates@[g].polys@[p], row) matches Some(v) ==> v == 0),
        forall|l: int| 0 <= l < a.cs.lookups@.len() ==> #[trigger] table_complete(a, l),
        forall|l: int, row: int|
            0 <= l < a.cs.lookups@.len() && 0 <= row < a.rows && inputs_known(a, l, row) ==> #[trigger] in_table(a, l, row),
        classes_agree(a),
    ensures
        !any_violation(a),
{
    lemma_classes_from_pairs(a);
    assert forall|g: int, p: int, row: int| !#[trigger] gate_fails(a, g, p, row) by {
        if 0 <= g < a.cs.gates@.len() && 0 <= p < a.cs.gates@[g].polys@.len() && 0 <= row < a.rows {
            assert(eval(a, a.cs.gates@[g].polys@[p], row) matches Some(v) ==> v == 0);
        }
    }
    assert forall|l: int, row: int| !#[trigger] lookup_fails(a, l, row) by {
        if 0 <= l < a.cs.lookups@.len() && 0 <= row < a.rows && inputs_known(a, l, row) {
            assert(in_table(a, l, row));
        }
    }
    assert forall|l: int| !#[trigger] table_incomplete(a, l) by {
        if 0 <= l < a.cs.lookups@.len() {
            assert(table_complete(a, l));
        }
    }
}

/// `e`, evaluated at `row`, reads cell `c`.
pub open spec fn reads(e: Expr, row: int, c: Cell) -> bool
    decreases e,
{
    match e {
        Expr::Constant(_) => false,
        Expr::Query(col, rot) => col == c.column && row + rot == c.row,
        Expr::Selector(_) => false,
        Expr::Negated(x) => reads(*x, row, c),
        Expr::Sum(x, y) => reads(*x, row, c) || reads(*y, row, c),
        Expr::Product(x, y) => reads(*x, row, c) || reads(*y, row, c),
    }
}

/// `b` is `a` with at most the value of cell `c` changed.
pub open spec fn differs_only_at(a: &Assignment, b: &Assignment, c: Cell) -> bool {
    &&& a.cs == b.cs
    &&& a.rows == b.rows
    &&& a.selectors@ == b.selectors@
    &&& a.tables@ == b.tables@
    &&& a.table_lens@ == b.table_lens@
    &&& a.copies@ == b.copies@
    &&& forall|col: crate::circuit::Column, r: int|
        !(col == c.column && r == c.row) ==> #[trigger] a.cell(col, r) == b.cell(col, r)
}

proof fn lemma_eval_unread(a: &Assignment, b: &Assignment, c: Cell, e: Expr, row: int)
    requires
        differs_only_at(a, b, c),
        !reads(e, row, c),
    ensures
        eval(a, e, row) == eval(b, e, row),
    decreases e,
{
    match e {
        Expr::Constant(_) => {},
        Expr::Query(col, rot) => {
            assert(a.cell(col, row + rot) == b.cell(col, row + rot));
        },
        Expr::Selector(_) => {},
        Expr::Negated(x) => {
            lemma_eval_unread(a, b, c, *x, row);
        },
        Expr::Sum(x, y) => {
            lemma_eval_unread(a, b, c, *x, row);
            lemma_eval_unread(a, b, c, *y, row);
        },
        Expr::Product(x, y) => {
            lemma_eval_unread(a, b, c, *x, row);
            lemma_eval_unread(a, b, c, *y, row);
        },
    }
}

/// Changing the value of one cell so that polynomial `p` of gate `g` no
/// longer vanishes at `row` makes that gate fail there; every gate polynomial
/// that does not read the cell fails, or not, on each row as before.
pub proof fn lemma_one_cell_changed(a: &Assignment, b: &Assignment, c: Cell, g: int, p: int, row: int)
    requires
        differs_only_at(a, b, c),
        0 <= g < a.cs.gates@.len(),
        0 <= p < a.cs.gates@[g].polys@.len(),
        0 <= row < a.rows,
        eval(b, a.cs.gates@[g].polys@[p], row) matches Some(v) && v != 0,
    ensures
        gate_fails(b, g, p, row),
        forall|g2: int, p2: int, r2: int|
            0 <= g2 < a.cs.gates@.len() && 0 <= p2 < a.cs.gates@[g2].polys@.len() && !reads(
                a.cs.gates@[g2].polys@[p2],
                r2,
                c,
            ) ==> (#[trigger] gate_fails(a, g2, p2, r2) <==> gate_fails(b, g2, p2, r2)),
{
    assert forall|g2: int, p2: int, r2: int|
        0 <= g2 < a.cs.gates@.len() && 0 <= p2 < a.cs.gates@[g2].polys@.len() && !reads(
            a.cs.gates@[g2].polys@[p2],
            r2,
            c,
        ) implies (#[trigger] gate_fails(a, g2, p2, r2) <==> gate_fails(b, g2, p2, r2)) by {
        lemma_eval_unread(a, b, c, a.cs.gates@[g2].polys@[p2], r2);
    }
}

/// Lookup `l` reads cell `c` at `row` through one of its inputs.
pub open spec fn lookup_reads(a: &Assignment, l: int, row: int, c: Cell) -> bool {
    exists|j: int| 0 <= j < lookup_width(a, l) && #[trigger] reads(a.cs.lookups@[l].inputs@[j].input, row, c)
}

/// With a complete table, a lookup passes at a row whose input tuple equals
/// some table row, and fails at a row whose known tuple equals none.
/// Changing one cell leaves unchanged the outcome of every lookup, on every
/// row, that does not read that cell.
pub proof fn lemma_lookup_containment(a: &Assignment, b: &Assignment, c: Cell, l: int, row: int)
    requires
        0 <= l < a.cs.lookups@.len(),
        0 <= row < a.rows,
        table_complete(a, l),
        differs_only_at(a, b, c),
    ensures
        (exists|t: int| 0 <= t < table_height(a, l) && #[trigger] row_matches(a, l, row, t))
            ==> !lookup_fails(a, l, row),
        inputs_known(a, l, row) && (forall|t: int|
            0 <= t < table_height(a, l) ==> !#[trigger] row_matches(a, l, row, t)) ==> lookup_fails(
            a,
            l,
            row,
        ),
        forall|l2: int, r2: int|
            0 <= l2 < a.cs.lookups@.len() && !lookup_reads(a, l2, r2, c) ==> (#[trigger] lookup_fails(
                a,
                l2,
                r2,
            ) <==> lookup_fails(b, l2, r2)),
{
    assert forall|l2: int, r2: int|
        0 <= l2 < a.cs.lookups@.len() && !lookup_reads(a, l2, r2, c) implies (#[trigger] lookup_fails(
            a,
            l2,
            r2,
        ) <==> lookup_fails(b, l2, r2)) by {
        assert forall|j: int| 0 <= j < lookup_width(a, l2) implies #[trigger] input_value(a, l2, j, r2)
            == input_value(b, l2, j, r2) by {
            assert(!reads(a.cs.lookups@[l2].inputs@[j].input, r2, c));
            lemma_eval_unread(a, b, c, a.cs.lookups@[l2].inputs@[j].input, r2);
        }
        assert(forall|t: int, r: int| #[trigger] a.table_cell(t, r) == b.table_cell(t, r));
        assert(forall|t: int| #[trigger] a.table_len(t) == b.table_len(t));
        assert(inputs_known(a, l2, r2) <==> inputs_known(b, l2, r2)) by {
            if inputs_known(a, l2, r2) {
                assert forall|j: int| 0 <= j < lookup_width(b, l2) implies #[trigger] input_value(b, l2, j, r2) is Some by {
                    assert(input_value(a, l2, j, r2) is Some);
                }
            }
            if inputs_known(b, l2, r2) {
                assert forall|j: int| 0 <= j < lookup_width(a, l2) implies #[trigger] input_value(a, l2, j, r2) is Some by {
                    assert(input_value(b, l2, j, r2) is Some);
                }
            }
        }
        assert forall|t: int| #[trigger] row_matches(a, l2, r2, t) <==> row_matches(b, l2, r2, t) by {
            if row_matches(a, l2, r2, t) {
                assert forall|j: int| 0 <= j < lookup_width(b, l2) implies #[trigger] input_value(b, l2, j, r2) == crate::layout::fe_opt(
                    b.table_cell(crate::prover::table_of(b, l2, j), t)) by {
                    assert(input_value(a, l2, j, r2) == crate::layout::fe_opt(
                    a.table_cell(crate::prover::table_of(a, l2, j), t)));
                }
            }
            if row_matches(b, l2, r2, t) {
                assert forall|j: int| 0 <= j < lookup_width(a, l2) implies #[trigger] input_value(a, l2, j, r2) == crate::layout::fe_opt(
                    a.table_cell(crate::prover::table_of(a, l2, j), t)) by {
                    assert(input_value(b, l2, j, r2) == crate::layout::fe_opt(
                    b.table_cell(crate::prover::table_of(b, l2, j), t)));
                }
            }
        }
        assert(in_table(a, l2, r2) <==> in_table(b, l2, r2)) by {
            if in_table(a, l2, r2) {
                let t = choose|t: int| 0 <= t < table_height(a, l2) && #[trigger] row_matches(a, l2, r2, t);
                assert(row_matches(b, l2, r2, t));
            }
            if in_table(b, l2, r2) {
                let t = choose|t: int| 0 <= t < table_height(b, l2) && #[trigger] row_matches(b, l2, r2, t);
                assert(row_matches(a, l2, r2, t));
            }
        }
        assert(table_height(a, l2) == table_height(b, l2));
        assert(forall|j: int| #[trigger] crate::prover::table_of(a, l2, j) == crate::prover::table_of(b, l2, j));
        assert(table_complete(a, l2) <==> table_complete(b, l2)) by {
            if table_complete(a, l2) {
                assert forall|j: int| 0 <= j < lookup_width(b, l2) implies b.table_len(#[trigger] crate::prover::table_of(b, l2, j)) == table_height(b, l2)
                    && forall|t: int| 0 <= t < table_height(b, l2) ==> #[trigger] b.table_cell(crate::prover::table_of(b, l2, j), t) is Some by {
                    assert(a.table_len(crate::prover::table_of(a, l2, j)) == table_height(a, l2));
                    assert forall|t: int| 0 <= t < table_height(b, l2) implies #[trigger] b.table_cell(crate::prover::table_of(b, l2, j), t) is Some by {
                        assert(a.table_cell(crate::prover::table_of(a, l2, j), t) is Some);
                    }
                }
            }
            if table_complete(b, l2) {
                assert forall|j: int| 0 <= j < lookup_width(a, l2) implies a.table_len(#[trigger] crate::prover::table_of(a, l2, j)) == table_height(a, l2)
                    && forall|t: int| 0 <= t < table_height(a, l2) ==> #[trigger] a.table_cell(crate::prover::table_of(a, l2, j), t) is Some by {
                    assert(b.table_len(crate::prover::table_of(b, l2, j)) == table_height(b, l2));
                    assert forall|t: int| 0 <= t < table_height(a, l2) implies #[trigger] a.table_cell(crate::prover::table_of(a, l2, j), t) is Some by {
                        assert(b.table_cell(crate::prover::table_of(b, l2, j), t) is Some);
                    }
                }
            }
        }
    }
}

/// The first row of region `i` when the regions have the heights of
/// `regions`: the sum of the heights before it.
pub open spec fn start_of(regions: Seq<RegionInfo>, i: int) -> int
    decreases i,
{
    if i <= 0 {
        0
    } else {
        start_of(regions, i - 1) + regions[i - 1].height
    }
}

proof fn lemma_starts(regions: Seq<RegionInfo>, rows: int, i: int)
    requires
        placement_ok(regions, rows),
        0 <= i < regions.len(),
    ensures
        regions[i].start == start_of(regions, i),
    decreases i,
{
    if i > 0 {
        lemma_starts(regions, rows, i - 1);
        assert(regions[(i - 1) + 1].start == regions[i - 1].start + regions[i - 1].height);
    }
}

/// Placement is determined by the sequence of regions: two layouts whose
/// regions have the same heights, in the same order, place every region on
/// the same rows, each right after the one before it.
pub proof fn lemma_placement_deterministic(a: &Assignment, b: &Assignment)
    requires
        a.wf(),
        b.wf(),
        a.regions@.len() == b.regions@.len(),
        forall|i: int| 0 <= i < a.regions@.len() ==> #[trigger] a.regions@[i].height == b.regions@[i].height,
    ensures
        forall|i: int| 0 <= i < a.regions@.len() ==> #[trigger] a.regions@[i].start == start_of(a.regions@, i),
        forall|i: int| 0 <= i < a.regions@.len() ==> #[trigger] a.regions@[i] == b.regions@[i],
{
    assert forall|i: int| 0 <= i < a.regions@.len() implies #[trigger] a.regions@[i].start == start_of(
        a.regions@,
        i,
    ) by {
        lemma_starts(a.regions@, a.rows as int, i);
    }
    assert forall|i: int| 0 <= i < a.regions@.len() implies #[trigger] a.regions@[i] == b.regions@[i] by {
        lemma_starts(a.regions@, a.rows as int, i);
        lemma_starts(b.regions@, b.rows as int, i);
        lemma_same_starts(a.regions@, b.regions@, i);
    }
}

proof fn lemma_same_starts(r1: Seq<RegionInfo>, r2: Seq<RegionInfo>, i: int)
    requires
        r1.len() == r2.len(),
        0 <= i < r1.len(),
        forall|j: int| 0 <= j < r1.len() ==> #[trigger] r1[j].height == r2[j].height,
    ensures
        start_of(r1, i) == start_of(r2, i),
    decreases i,
{
    if i > 0 {
        lemma_same_starts(r1, r2, i - 1);
    }
}

} // verus!
