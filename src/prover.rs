//! The mock verifier: evaluates every gate on every row, every lookup on every
//! row and every copy constraint against a laid-out witness, and collects
//! every violation.
use crate::circuit::Expr;
use crate::field::{add_mod, mul_mod, neg_mod, Fe};
use crate::layout::{fe_opt, lemma_flat_in_bounds, Assignment, Cell};
use vstd::prelude::*;

verus! {

/// The value of `e` at `row`: unknown where it reads an unknown cell or a row
/// outside the grid.
pub open spec fn eval(a: &Assignment, e: Expr, row: int) -> Option<int>
    decreases e,
{
    match e {
        Expr::Constant(c) => Some(c.val()),
        Expr::Query(col, rot) => a.cell_value(col, row + rot),
        Expr::Selector(s) => if a.selector_on(s.index as int, row) {
            Some(1)
        } else {
            Some(0)
        },
        Expr::Negated(x) => match eval(a, *x, row) {
            Some(v) => Some(neg_mod(v)),
            None => None,
        },
        Expr::Sum(x, y) => match (eval(a, *x, row), eval(a, *y, row)) {
            (Some(u), Some(v)) => Some(add_mod(u, v)),
            _ => None,
        },
        Expr::Product(x, y) => match (eval(a, *x, row), eval(a, *y, row)) {
            (Some(u), Some(v)) => Some(mul_mod(u, v)),
            _ => None,
        },
    }
}

/// The absolute row `row + rot`, if it lies on the grid.
fn rotate(row: usize, rot: i32, rows: usize) -> (r: Option<usize>)
    requires
        row < rows,
    ensures
        r matches Some(x) ==> x == row + rot && x < rows,
        r is None ==> row + rot < 0 || row + rot >= rows,
{
    if rot >= 0 {
        let d = rot as usize;
        if d >= rows - row {
            None
        } else {
            Some(row + d)
        }
    } else {
        let d = (-(rot as i64)) as usize;
        if d > row {
            None
        } else {
            Some(row - d)
        }
    }
}

/// Evaluates `e` at `row`.
pub fn evaluate(a: &Assignment, e: &Expr, row: usize) -> (r: Option<Fe>)
    requires
        a.wf(),
        row < a.rows,
    ensures
        fe_opt(r) == eval(a, *e, row as int),
    decreases e,
{
    match e {
        Expr::Constant(c) => Some(*c),
        Expr::Query(col, rot) => match rotate(row, *rot, a.rows) {
            Some(x) => a.get_cell(Cell { column: *col, row: x }),
            None => None,
        },
        Expr::Selector(s) => {
            let on = if s.index < a.cs.selectors.len() {
                let len = a.selectors.len();
                proof {
                    lemma_flat_in_bounds(s.index as int, row as int, a.cs.selectors@.len() as int, a.rows as int);
                }
                a.selectors[s.index * a.rows + row]
            } else {
                false
            };
            if on {
                Some(Fe::one())
            } else {
                Some(Fe::zero())
            }
        },
        Expr::Negated(x) => match evaluate(a, x, row) {
            Some(v) => Some(v.neg()),
            None => None,
        },
        Expr::Sum(x, y) => match (evaluate(a, x, row), evaluate(a, y, row)) {
            (Some(u), Some(v)) => Some(u.add(&v)),
            _ => None,
        },
        Expr::Product(x, y) => match (evaluate(a, x, row), evaluate(a, y, row)) {
            (Some(u), Some(v)) => Some(u.mul(&v)),
            _ => None,
        },
    }
}

/// One way in which a witness breaks the constraint system.
#[derive(Clone, Copy, Debug)]
pub enum Violation {
    /// Polynomial `poly` of gate `gate` evaluates to the non-zero `value` at `row`.
    Gate { gate: usize, poly: usize, row: usize, value: Fe },
    /// The inputs of lookup `lookup` at `row` are known and match no table row.
    Lookup { lookup: usize, row: usize },
    /// A table column of lookup `lookup` has a hole, or its table columns
    /// differ in length.
    IncompleteTable { lookup: usize },
    /// The two cells of copy constraint `copy` differ.
    Equality { copy: usize },
}

pub open spec fn lookup_width(a: &Assignment, l: int) -> int {
    a.cs.lookups@[l].inputs@.len() as int
}

/// The table column of component `j` of lookup `l`.
pub open spec fn table_of(a: &Assignment, l: int, j: int) -> int {
    a.cs.lookups@[l].inputs@[j].table.index as int
}

/// How many rows the table of lookup `l` has: the length of its first column.
pub open spec fn table_height(a: &Assignment, l: int) -> int {
    if lookup_width(a, l) > 0 {
        a.table_len(table_of(a, l, 0))
    } else {
        0
    }
}

/// All table columns of lookup `l` have the same length and no hole.
pub open spec fn table_complete(a: &Assignment, l: int) -> bool {
    forall|j: int|
        0 <= j < lookup_width(a, l) ==> a.table_len(#[trigger] table_of(a, l, j)) == table_height(a, l)
            && forall|t: int| 0 <= t < table_height(a, l) ==> #[trigger] a.table_cell(table_of(a, l, j), t) is Some
}

pub open spec fn table_incomplete(a: &Assignment, l: int) -> bool {
    0 <= l < a.cs.lookups@.len() && !table_complete(a, l)
}

/// Component `j` of the input tuple of lookup `l` at `row`.
pub open spec fn input_value(a: &Assignment, l: int, j: int, row: int) -> Option<int> {
    eval(a, a.cs.lookups@[l].inputs@[j].input, row)
}

pub open spec fn inputs_known(a: &Assignment, l: int, row: int) -> bool {
    forall|j: int| 0 <= j < lookup_width(a, l) ==> #[trigger] input_value(a, l, j, row) is Some
}

/// The input tuple of lookup `l` at `row` equals table row `t`.
pub open spec fn row_matches(a: &Assignment, l: int, row: int, t: int) -> bool {
    forall|j: int|
        0 <= j < lookup_width(a, l) ==> #[trigger] input_value(a, l, j, row) == fe_opt(
            a.table_cell(table_of(a, l, j), t),
        )
}

pub open spec fn in_table(a: &Assignment, l: int, row: int) -> bool {
    exists|t: int| 0 <= t < table_height(a, l) && #[trigger] row_matches(a, l, row, t)
}

/// The inputs of lookup `l` at `row` are known and match no row of its
/// complete table.
pub open spec fn lookup_fails(a: &Assignment, l: int, row: int) -> bool {
    &&& 0 <= l < a.cs.lookups@.len()
    &&& 0 <= row < a.rows
    &&& table_complete(a, l)
    &&& inputs_known(a, l, row)
    &&& !in_table(a, l, row)
}

/// The two cells of copy constraint `k` hold different values (a known value
/// differs from an unknown one).
pub open spec fn copy_fails(a: &Assignment, k: int) -> bool {
    &&& 0 <= k < a.copies@.len()
    &&& a.cell_value(a.copies@[k].a.column, a.copies@[k].a.row as int) != a.cell_value(
        a.copies@[k].b.column,
        a.copies@[k].b.row as int,
    )
}

/// Some constraint of the system does not hold of the witness.
pub open spec fn any_violation(a: &Assignment) -> bool {
    ||| exists|g: int, p: int, row: int| #[trigger] gate_fails(a, g, p, row)
    ||| exists|l: int, row: int| #[trigger] lookup_fails(a, l, row)
    ||| exists|l: int| #[trigger] table_incomplete(a, l)
    ||| exists|k: int| #[trigger] copy_fails(a, k)
}

pub open spec fn violation_holds(a: &Assignment, v: Violation) -> bool {
    match v {
        Violation::Gate { gate, poly, row, value } => gate_fails(a, gate as int, poly as int, row as int)
            && eval(a, a.cs.gates@[gate as int].polys@[poly as int], row as int) == Some(value.val()),
        Violation::Lookup { lookup, row } => lookup_fails(a, lookup as int, row as int),
        Violation::IncompleteTable { lookup } => table_incomplete(a, lookup as int),
        Violation::Equality { copy } => copy_fails(a, copy as int),
    }
}

pub open spec fn gate_fails(a: &Assignment, g: int, p: int, row: int) -> bool {
    &&& 0 <= g < a.cs.gates@.len()
    &&& 0 <= p < a.cs.gates@[g].polys@.len()
    &&& 0 <= row < a.rows
    &&& eval(a, a.cs.gates@[g].polys@[p], row) matches Some(v) && v != 0
}

pub open spec fn is_gate_at(v: Violation, g: int, p: int, row: int) -> bool {
    match v {
        Violation::Gate { gate, poly, row: x, .. } => gate == g && poly == p && x == row,
        _ => false,
    }
}

pub open spec fn is_lookup_at(v: Violation, l: int, row: int) -> bool {
    match v {
        Violation::Lookup { lookup, row: x } => lookup == l && x == row,
        _ => false,
    }
}

pub open spec fn is_incomplete_at(v: Violation, l: int) -> bool {
    match v {
        Violation::IncompleteTable { lookup } => lookup == l,
        _ => false,
    }
}

pub open spec fn is_equality_at(v: Violation, k: int) -> bool {
    match v {
        Violation::Equality { copy } => copy == k,
        _ => false,
    }
}

pub open spec fn gate_reported(r: Seq<Violation>, g: int, p: int, row: int) -> bool {
    exists|i: int| 0 <= i < r.len() && #[trigger] is_gate_at(r[i], g, p, row)
}

pub open spec fn lookup_reported(r: Seq<Violation>, l: int, row: int) -> bool {
    exists|i: int| 0 <= i < r.len() && #[trigger] is_lookup_at(r[i], l, row)
}

pub open spec fn incomplete_reported(r: Seq<Violation>, l: int) -> bool {
    exists|i: int| 0 <= i < r.len() && #[trigger] is_incomplete_at(r[i], l)
}

pub open spec fn equality_reported(r: Seq<Violation>, k: int) -> bool {
    exists|i: int| 0 <= i < r.len() && #[trigger] is_equality_at(r[i], k)
}

proof fn lemma_push_keeps(s: Seq<Violation>, x: Violation)
    ensures
        forall|g: int, p: int, row: int|
            gate_reported(s, g, p, row) ==> #[trigger] gate_reported(s.push(x), g, p, row),
        forall|l: int, row: int|
            lookup_reported(s, l, row) ==> #[trigger] lookup_reported(s.push(x), l, row),
        forall|l: int| incomplete_reported(s, l) ==> #[trigger] incomplete_reported(s.push(x), l),
        forall|k: int| equality_reported(s, k) ==> #[trigger] equality_reported(s.push(x), k),
{
    assert forall|g: int, p: int, row: int|
        gate_reported(s, g, p, row) implies #[trigger] gate_reported(s.push(x), g, p, row) by {
        let i = choose|i: int| 0 <= i < s.len() && #[trigger] is_gate_at(s[i], g, p, row);
        assert(s.push(x)[i] == s[i]);
    }
    assert forall|l: int, row: int|
        lookup_reported(s, l, row) implies #[trigger] lookup_reported(s.push(x), l, row) by {
        let i = choose|i: int| 0 <= i < s.len() && #[trigger] is_lookup_at(s[i], l, row);
        assert(s.push(x)[i] == s[i]);
    }
    assert forall|l: int| incomplete_reported(s, l) implies #[trigger] incomplete_reported(
        s.push(x),
        l,
    ) by {
        let i = choose|i: int| 0 <= i < s.len() && #[trigger] is_incomplete_at(s[i], l);
        assert(s.push(x)[i] == s[i]);
    }
    assert forall|k: int| equality_reported(s, k) implies #[trigger] equality_reported(
        s.push(x),
        k,
    ) by {
        let i = choose|i: int| 0 <= i < s.len() && #[trigger] is_equality_at(s[i], k);
        assert(s.push(x)[i] == s[i]);
    }
}

/// Where a violation stands in the order of the report: gates by gate,
/// polynomial and row, then lookups by lookup and row, then copy constraints.
pub open spec fn key(v: Violation) -> (int, int, int, int) {
    match v {
        Violation::Gate { gate, poly, row, .. } => (0, gate as int, poly as int, row as int),
        Violation::IncompleteTable { lookup } => (1, lookup as int, 0, 0),
        Violation::Lookup { lookup, row } => (1, lookup as int, 1, row as int),
        Violation::Equality { copy } => (2, copy as int, 0, 0),
    }
}

pub open spec fn key_lt(a: (int, int, int, int), b: (int, int, int, int)) -> bool {
    a.0 < b.0 || (a.0 == b.0 && (a.1 < b.1 || (a.1 == b.1 && (a.2 < b.2 || (a.2 == b.2 && a.3
        < b.3)))))
}

/// The report lists violations in strictly increasing order.
pub open spec fn ordered(s: Seq<Violation>) -> bool {
    forall|i: int, j: int| 0 <= i < j < s.len() ==> key_lt(#[trigger] key(s[i]), #[trigger] key(s[j]))
}

/// Every violation listed comes before `b`.
pub open spec fn all_before(s: Seq<Violation>, b: (int, int, int, int)) -> bool {
    forall|i: int| 0 <= i < s.len() ==> key_lt(#[trigger] key(s[i]), b)
}

proof fn lemma_push_ordered(s: Seq<Violation>, x: Violation, b: (int, int, int, int))
    requires
        ordered(s),
        all_before(s, key(x)),
        key_lt(key(x), b),
    ensures
        ordered(s.push(x)),
        all_before(s.push(x), b),
{
    let t = s.push(x);
    assert forall|i: int, j: int| 0 <= i < j < t.len() implies key_lt(#[trigger] key(t[i]), #[trigger] key(t[j])) by {
        if j < s.len() {
            assert(key_lt(key(s[i]), key(s[j])));
        } else {
            assert(key_lt(key(s[i]), key(x)));
        }
    }
    assert forall|i: int| 0 <= i < t.len() implies key_lt(#[trigger] key(t[i]), b) by {
        if i < s.len() {
            assert(key_lt(key(s[i]), key(x)));
        }
    }
}

proof fn lemma_before_mono(s: Seq<Violation>, b1: (int, int, int, int), b2: (int, int, int, int))
    requires
        all_before(s, b1),
        key_lt(b1, b2) || b1 == b2,
    ensures
        all_before(s, b2),
{
    assert forall|i: int| 0 <= i < s.len() implies key_lt(#[trigger] key(s[i]), b2) by {
        assert(key_lt(key(s[i]), b1));
    }
}

proof fn lemma_ordered_distinct(s: Seq<Violation>)
    requires
        ordered(s),
    ensures
        s.no_duplicates(),
{
    assert forall|i: int, j: int| 0 <= i < s.len() && 0 <= j < s.len() && i != j implies s[i] != s[j] by {
        if i < j {
            assert(key_lt(key(s[i]), key(s[j])));
        } else {
            assert(key_lt(key(s[j]), key(s[i])));
        }
    }
}

/// Checks polynomial `p` of gate `g` on every row, adding what fails to `out`.
fn check_poly(a: &Assignment, g: usize, p: usize, out: &mut Vec<Violation>)
    requires
        a.wf(),
        g < a.cs.gates@.len(),
        p < a.cs.gates@[g as int].polys@.len(),
        forall|i: int| 0 <= i < old(out)@.len() ==> violation_holds(a, #[trigger] old(out)@[i]),
        ordered(old(out)@),
        all_before(old(out)@, (0, g as int, p as int, 0)),
    ensures
        ordered(final(out)@),
        all_before(final(out)@, (0, g as int, p + 1, 0)),
        forall|i: int| 0 <= i < final(out)@.len() ==> violation_holds(a, #[trigger] final(out)@[i]),
        forall|g2: int, p2: int, row: int|
            gate_reported(old(out)@, g2, p2, row) ==> #[trigger] gate_reported(final(out)@, g2, p2, row),
        forall|l: int, row: int|
            lookup_reported(old(out)@, l, row) ==> #[trigger] lookup_reported(final(out)@, l, row),
        forall|l: int| incomplete_reported(old(out)@, l) ==> #[trigger] incomplete_reported(final(out)@, l),
        forall|k: int| equality_reported(old(out)@, k) ==> #[trigger] equality_reported(final(out)@, k),
        forall|row: int| gate_fails(a, g as int, p as int, row) ==> #[trigger] gate_reported(final(out)@, g as int, p as int, row),
{
    let e = &a.cs.gates[g].polys[p];
    let mut row: usize = 0;
    while row < a.rows
        invariant
            a.wf(),
            g < a.cs.gates@.len(),
            p < a.cs.gates@[g as int].polys@.len(),
            *e == a.cs.gates@[g as int].polys@[p as int],
            row <= a.rows,
            ordered(out@),
            all_before(out@, (0, g as int, p as int, row as int)),
            forall|i: int| 0 <= i < out@.len() ==> violation_holds(a, #[trigger] out@[i]),
            forall|g2: int, p2: int, r2: int|
                gate_reported(old(out)@, g2, p2, r2) ==> #[trigger] gate_reported(out@, g2, p2, r2),
            forall|l: int, r2: int|
                lookup_reported(old(out)@, l, r2) ==> #[trigger] lookup_reported(out@, l, r2),
            forall|l: int| incomplete_reported(old(out)@, l) ==> #[trigger] incomplete_reported(out@, l),
            forall|k: int| equality_reported(old(out)@, k) ==> #[trigger] equality_reported(out@, k),
            forall|r2: int| 0 <= r2 < row && gate_fails(a, g as int, p as int, r2) ==> #[trigger] gate_reported(out@, g as int, p as int, r2),
        decreases a.rows - row,
    {
        proof {
            lemma_before_mono(out@, (0, g as int, p as int, row as int), (0, g as int, p as int, row + 1));
        }

        match evaluate(a, e, row) {
            Some(v) => {
                if !v.is_zero() {
                    let x = Violation::Gate { gate: g, poly: p, row, value: v };
                    proof {
                        lemma_push_keeps(out@, x);
                        lemma_push_ordered(out@, x, (0, g as int, p as int, row + 1));
                        assert(is_gate_at(out@.push(x)[out@.len() as int], g as int, p as int, row as int));
                    }
                    out.push(x);
                }
            },
            None => {},
        }
        row = row + 1;
    }
    proof {
        lemma_before_mono(out@, (0, g as int, p as int, row as int), (0, g as int, p + 1, 0));
    }
}

/// Checks every gate on every row, adding what fails to `out`.
fn check_gates(a: &Assignment, out: &mut Vec<Violation>)
    requires
        a.wf(),
        forall|i: int| 0 <= i < old(out)@.len() ==> violation_holds(a, #[trigger] old(out)@[i]),
        ordered(old(out)@),
        all_before(old(out)@, (0, 0, 0, 0)),
    ensures
        ordered(final(out)@),
        all_before(final(out)@, (1, 0, 0, 0)),
        forall|i: int| 0 <= i < final(out)@.len() ==> violation_holds(a, #[trigger] final(out)@[i]),
        forall|l: int, row: int|
            lookup_reported(old(out)@, l, row) ==> #[trigger] lookup_reported(final(out)@, l, row),
        forall|l: int| incomplete_reported(old(out)@, l) ==> #[trigger] incomplete_reported(final(out)@, l),
        forall|k: int| equality_reported(old(out)@, k) ==> #[trigger] equality_reported(final(out)@, k),
        forall|g: int, p: int, row: int| gate_fails(a, g, p, row) ==> #[trigger] gate_reported(final(out)@, g, p, row),
{
    let mut g: usize = 0;
    while g < a.cs.gates.len()
        invariant
            a.wf(),
            g <= a.cs.gates@.len(),
            ordered(out@),
            all_before(out@, (0, g as int, 0, 0)),
            forall|i: int| 0 <= i < out@.len() ==> violation_holds(a, #[trigger] out@[i]),
            forall|l: int, r2: int|
                lookup_reported(old(out)@, l, r2) ==> #[trigger] lookup_reported(out@, l, r2),
            forall|l: int| incomplete_reported(old(out)@, l) ==> #[trigger] incomplete_reported(out@, l),
            forall|k: int| equality_reported(old(out)@, k) ==> #[trigger] equality_reported(out@, k),
            forall|g2: int, p2: int, r2: int| 0 <= g2 < g && gate_fails(a, g2, p2, r2) ==> #[trigger] gate_reported(out@, g2, p2, r2),
        decreases a.cs.gates@.len() - g,
    {
        let mut p: usize = 0;
        while p < a.cs.gates[g].polys.len()
            invariant
                a.wf(),
                g < a.cs.gates@.len(),
                p <= a.cs.gates@[g as int].polys@.len(),
                ordered(out@),
                all_before(out@, (0, g as int, p as int, 0)),
                forall|i: int| 0 <= i < out@.len() ==> violation_holds(a, #[trigger] out@[i]),
                forall|l: int, r2: int|
                    lookup_reported(old(out)@, l, r2) ==> #[trigger] lookup_reported(out@, l, r2),
                forall|l: int| incomplete_reported(old(out)@, l) ==> #[trigger] incomplete_reported(out@, l),
                forall|k: int| equality_reported(old(out)@, k) ==> #[trigger] equality_reported(out@, k),
                forall|g2: int, p2: int, r2: int| 0 <= g2 < g && gate_fails(a, g2, p2, r2) ==> #[trigger] gate_reported(out@, g2, p2, r2),
                forall|p2: int, r2: int| 0 <= p2 < p && gate_fails(a, g as int, p2, r2) ==> #[trigger] gate_reported(out@, g as int, p2, r2),
            decreases a.cs.gates@[g as int].polys@.len() - p,
        {
            check_poly(a, g, p, out);
            p = p + 1;
        }
        proof {
            lemma_before_mono(out@, (0, g as int, p as int, 0), (0, g + 1, 0, 0));
        }
        g = g + 1;
    }
    proof {
        lemma_before_mono(out@, (0, g as int, 0, 0), (1, 0, 0, 0));
    }
}

fn table_len_of(a: &Assignment, t: usize) -> (r: usize)
    requires
        a.wf(),
    ensures
        r == a.table_len(t as int),
        r <= a.rows,
{
    if t < a.table_lens.len() {
        a.table_lens[t]
    } else {
        0
    }
}

fn table_at(a: &Assignment, t: usize, row: usize) -> (r: Option<Fe>)
    requires
        a.wf(),
        row < a.rows,
    ensures
        r == a.table_cell(t as int, row as int),
{
    if t < a.cs.num_tables {
        let len = a.tables.len();
        proof {
            lemma_flat_in_bounds(t as int, row as int, a.cs.num_tables as int, a.rows as int);
        }
        a.tables[t * a.rows + row]
    } else {
        None
    }
}

fn check_table(a: &Assignment, l: usize) -> (r: bool)
    requires
        a.wf(),
        l < a.cs.lookups@.len(),
    ensures
        r == table_complete(a, l as int),
{
    let ins = &a.cs.lookups[l].inputs;
    if ins.len() == 0 {
        return true;
    }
    let h = table_len_of(a, ins[0].table.index);
    let mut j: usize = 0;
    while j < ins.len()
        invariant
            a.wf(),
            l < a.cs.lookups@.len(),
            *ins == a.cs.lookups@[l as int].inputs,
            ins@.len() > 0,
            h == table_height(a, l as int),
            h <= a.rows,
            j <= ins@.len(),
            forall|j2: int|
                0 <= j2 < j ==> a.table_len(#[trigger] table_of(a, l as int, j2)) == table_height(a, l as int)
                    && forall|t: int| 0 <= t < table_height(a, l as int) ==> #[trigger] a.table_cell(table_of(a, l as int, j2), t) is Some,
        decreases ins@.len() - j,
    {
        let tc = ins[j].table.index;
        if table_len_of(a, tc) != h {
            assert(a.table_len(table_of(a, l as int, j as int)) != table_height(a, l as int));
            return false;
        }
        let mut t: usize = 0;
        while t < h
            invariant
                a.wf(),
                h <= a.rows,
                t <= h,
                l < a.cs.lookups@.len(),
                j < ins@.len(),
                *ins == a.cs.lookups@[l as int].inputs,
                tc == table_of(a, l as int, j as int),
                h == table_height(a, l as int),
                forall|t2: int| 0 <= t2 < t ==> #[trigger] a.table_cell(tc as int, t2) is Some,
            decreases h - t,
        {
            if table_at(a, tc, t).is_none() {
                assert(!(a.table_cell(table_of(a, l as int, j as int), t as int) is Some));
                return false;
            }
            t = t + 1;
        }
        assert(table_of(a, l as int, j as int) == tc);
        j = j + 1;
    }
    true
}

fn eval_inputs(a: &Assignment, l: usize, row: usize) -> (r: Vec<Option<Fe>>)
    requires
        a.wf(),
        l < a.cs.lookups@.len(),
        row < a.rows,
    ensures
        r@.len() == lookup_width(a, l as int),
        forall|j: int| 0 <= j < r@.len() ==> fe_opt(#[trigger] r@[j]) == input_value(a, l as int, j, row as int),
{
    let ins = &a.cs.lookups[l].inputs;
    let mut r: Vec<Option<Fe>> = Vec::new();
    let mut j: usize = 0;
    while j < ins.len()
        invariant
            a.wf(),
            l < a.cs.lookups@.len(),
            row < a.rows,
            *ins == a.cs.lookups@[l as int].inputs,
            j <= ins@.len(),
            r@.len() == j,
            forall|j2: int| 0 <= j2 < j ==> fe_opt(#[trigger] r@[j2]) == input_value(a, l as int, j2, row as int),
        decreases ins@.len() - j,
    {
        let v = evaluate(a, &ins[j].input, row);
        r.push(v);
        j = j + 1;
    }
    r
}

fn matches_row(a: &Assignment, l: usize, row: usize, vals: &Vec<Option<Fe>>, t: usize) -> (r: bool)
    requires
        a.wf(),
        l < a.cs.lookups@.len(),
        row < a.rows,
        t < a.rows,
        vals@.len() == lookup_width(a, l as int),
        forall|j: int| 0 <= j < vals@.len() ==> fe_opt(#[trigger] vals@[j]) == input_value(a, l as int, j, row as int),
    ensures
        r == row_matches(a, l as int, row as int, t as int),
{
    let ins = &a.cs.lookups[l].inputs;
    let mut j: usize = 0;
    while j < ins.len()
        invariant
            a.wf(),
            l < a.cs.lookups@.len(),
            row < a.rows,
            t < a.rows,
            *ins == a.cs.lookups@[l as int].inputs,
            vals@.len() == ins@.len(),
            forall|j2: int| 0 <= j2 < vals@.len() ==> fe_opt(#[trigger] vals@[j2]) == input_value(a, l as int, j2, row as int),
            j <= ins@.len(),
            forall|j2: int| 0 <= j2 < j ==> #[trigger] input_value(a, l as int, j2, row as int) == fe_opt(
                a.table_cell(table_of(a, l as int, j2), t as int),
            ),
        decreases ins@.len() - j,
    {
        let cell = table_at(a, ins[j].table.index, t);
        let same = match (vals[j], cell) {
            (Some(x), Some(y)) => x.equals(&y),
            (None, None) => true,
            _ => false,
        };
        assert(table_of(a, l as int, j as int) == ins@[j as int].table.index);
        if !same {
            assert(fe_opt(vals@[j as int]) != fe_opt(a.table_cell(table_of(a, l as int, j as int), t as int)));
            return false;
        }
        j = j + 1;
    }
    true
}

fn all_known(vals: &Vec<Option<Fe>>) -> (r: bool)
    ensures
        r == forall|j: int| 0 <= j < vals@.len() ==> #[trigger] vals@[j] is Some,
{
    let mut j: usize = 0;
    while j < vals.len()
        invariant
            j <= vals@.len(),
            forall|j2: int| 0 <= j2 < j ==> #[trigger] vals@[j2] is Some,
        decreases vals@.len() - j,
    {
        if vals[j].is_none() {
            return false;
        }
        j = j + 1;
    }
    true
}

/// Checks lookup `l` on every row, adding what fails to `out`.
fn check_lookup(a: &Assignment, l: usize, out: &mut Vec<Violation>)
    requires
        a.wf(),
        l < a.cs.lookups@.len(),
        forall|i: int| 0 <= i < old(out)@.len() ==> violation_holds(a, #[trigger] old(out)@[i]),
        ordered(old(out)@),
        all_before(old(out)@, (1, l as int, 0, 0)),
    ensures
        ordered(final(out)@),
        all_before(final(out)@, (1, l + 1, 0, 0)),
        forall|i: int| 0 <= i < final(out)@.len() ==> violation_holds(a, #[trigger] final(out)@[i]),
        forall|g2: int, p2: int, row: int|
            gate_reported(old(out)@, g2, p2, row) ==> #[trigger] gate_reported(final(out)@, g2, p2, row),
        forall|l2: int, row: int|
            lookup_reported(old(out)@, l2, row) ==> #[trigger] lookup_reported(final(out)@, l2, row),
        forall|l2: int| incomplete_reported(old(out)@, l2) ==> #[trigger] incomplete_reported(final(out)@, l2),
        forall|k: int| equality_reported(old(out)@, k) ==> #[trigger] equality_reported(final(out)@, k),
        table_incomplete(a, l as int) ==> incomplete_reported(final(out)@, l as int),
        forall|row: int| lookup_fails(a, l as int, row) ==> #[trigger] lookup_reported(final(out)@, l as int, row),
{
    if !check_table(a, l) {
        let x = Violation::IncompleteTable { lookup: l };
        proof {
            lemma_push_keeps(out@, x);
            lemma_push_ordered(out@, x, (1, l + 1, 0, 0));
            assert(is_incomplete_at(out@.push(x)[out@.len() as int], l as int));
        }
        out.push(x);
        return;
    }
    proof {
        lemma_before_mono(out@, (1, l as int, 0, 0), (1, l as int, 1, 0));
    }
    let ins = &a.cs.lookups[l].inputs;
    let h: usize = if ins.len() > 0 { table_len_of(a, ins[0].table.index) } else { 0 };
    let mut row: usize = 0;
    while row < a.rows
        invariant
            a.wf(),
            l < a.cs.lookups@.len(),
            *ins == a.cs.lookups@[l as int].inputs,
            h == table_height(a, l as int),
            h <= a.rows,
            table_complete(a, l as int),
            row <= a.rows,
            ordered(out@),
            all_before(out@, (1, l as int, 1, row as int)),
            forall|i: int| 0 <= i < out@.len() ==> violation_holds(a, #[trigger] out@[i]),
            forall|g2: int, p2: int, r2: int|
                gate_reported(old(out)@, g2, p2, r2) ==> #[trigger] gate_reported(out@, g2, p2, r2),
            forall|l2: int, r2: int|
                lookup_reported(old(out)@, l2, r2) ==> #[trigger] lookup_reported(out@, l2, r2),
            forall|l2: int| incomplete_reported(old(out)@, l2) ==> #[trigger] incomplete_reported(out@, l2),
            forall|k: int| equality_reported(old(out)@, k) ==> #[trigger] equality_reported(out@, k),
            forall|r2: int| 0 <= r2 < row && lookup_fails(a, l as int, r2) ==> #[trigger] lookup_reported(out@, l as int, r2),
        decreases a.rows - row,
    {
        let vals = eval_inputs(a, l, row);
        proof {
            lemma_before_mono(out@, (1, l as int, 1, row as int), (1, l as int, 1, row + 1));
        }

        let known = all_known(&vals);
        proof {
            assert(known == inputs_known(a, l as int, row as int)) by {
                if known {
                    assert forall|j: int| 0 <= j < lookup_width(a, l as int) implies #[trigger] input_value(a, l as int, j, row as int) is Some by {
                        assert(vals@[j] is Some);
                    }
                } else {
                    let j = choose|j: int| 0 <= j < vals@.len() && !(#[trigger] vals@[j] is Some);
                    assert(fe_opt(vals@[j]) == input_value(a, l as int, j, row as int));
                }
            }
        }
        if known {
            let mut t: usize = 0;
            let mut found = false;
            while t < h && !found
                invariant
                    a.wf(),
                    l < a.cs.lookups@.len(),
                    row < a.rows,
                    h <= a.rows,
                    t <= h,
                    h == table_height(a, l as int),
                    vals@.len() == lookup_width(a, l as int),
                    forall|j: int| 0 <= j < vals@.len() ==> fe_opt(#[trigger] vals@[j]) == input_value(a, l as int, j, row as int),
                    found ==> in_table(a, l as int, row as int),
                    !found ==> forall|t2: int| 0 <= t2 < t ==> !#[trigger] row_matches(a, l as int, row as int, t2),
                decreases h - t,
            {
                if matches_row(a, l, row, &vals, t) {
                    found = true;
                }
                t = t + 1;
            }
            if !found {
                let x = Violation::Lookup { lookup: l, row };
                proof {
                    lemma_push_keeps(out@, x);
                    lemma_push_ordered(out@, x, (1, l as int, 1, row + 1));
                    assert(is_lookup_at(out@.push(x)[out@.len() as int], l as int, row as int));
                }
                out.push(x);
            }
        }
        row = row + 1;
    }
    proof {
        lemma_before_mono(out@, (1, l as int, 1, row as int), (1, l + 1, 0, 0));
    }
}

fn same_value(x: Option<Fe>, y: Option<Fe>) -> (r: bool)
    ensures
        r == (fe_opt(x) == fe_opt(y)),
{
    match (x, y) {
        (Some(u), Some(v)) => u.equals(&v),
        (None, None) => true,
        _ => false,
    }
}

/// Checks every copy constraint, adding what fails to `out`.
fn check_copies(a: &Assignment, out: &mut Vec<Violation>)
    requires
        a.wf(),
        forall|i: int| 0 <= i < old(out)@.len() ==> violation_holds(a, #[trigger] old(out)@[i]),
        ordered(old(out)@),
        all_before(old(out)@, (2, 0, 0, 0)),
    ensures
        ordered(final(out)@),
        forall|i: int| 0 <= i < final(out)@.len() ==> violation_holds(a, #[trigger] final(out)@[i]),
        forall|g2: int, p2: int, row: int|
            gate_reported(old(out)@, g2, p2, row) ==> #[trigger] gate_reported(final(out)@, g2, p2, row),
        forall|l2: int, row: int|
            lookup_reported(old(out)@, l2, row) ==> #[trigger] lookup_reported(final(out)@, l2, row),
        forall|l2: int| incomplete_reported(old(out)@, l2) ==> #[trigger] incomplete_reported(final(out)@, l2),
        forall|k: int| copy_fails(a, k) ==> #[trigger] equality_reported(final(out)@, k),
{
    let mut k: usize = 0;
    while k < a.copies.len()
        invariant
            a.wf(),
            k <= a.copies@.len(),
            ordered(out@),
            all_before(out@, (2, k as int, 0, 0)),
            forall|i: int| 0 <= i < out@.len() ==> violation_holds(a, #[trigger] out@[i]),
            forall|g2: int, p2: int, r2: int|
                gate_reported(old(out)@, g2, p2, r2) ==> #[trigger] gate_reported(out@, g2, p2, r2),
            forall|l2: int, r2: int|
                lookup_reported(old(out)@, l2, r2) ==> #[trigger] lookup_reported(out@, l2, r2),
            forall|l2: int| incomplete_reported(old(out)@, l2) ==> #[trigger] incomplete_reported(out@, l2),
            forall|k2: int| 0 <= k2 < k && copy_fails(a, k2) ==> #[trigger] equality_reported(out@, k2),
        decreases a.copies@.len() - k,
    {
        proof {
            lemma_before_mono(out@, (2, k as int, 0, 0), (2, k + 1, 0, 0));
        }

        let c = a.copies[k];
        let x = a.get_cell(c.a);
        let y = a.get_cell(c.b);
        if !same_value(x, y) {
            let v = Violation::Equality { copy: k };
            proof {
                lemma_push_keeps(out@, v);
                lemma_push_ordered(out@, v, (2, k + 1, 0, 0));
                assert(is_equality_at(out@.push(v)[out@.len() as int], k as int));
            }
            out.push(v);
        }
        k = k + 1;
    }
}

/// Checks every gate on every row, every lookup on every row and every copy
/// constraint, and returns every violation found: none exactly when the
/// witness satisfies the constraint system.
pub fn verify(a: &Assignment) -> (r: Vec<Violation>)
    requires
        a.wf(),
    ensures
        forall|i: int| 0 <= i < r@.len() ==> violation_holds(a, #[trigger] r@[i]),
        forall|g: int, p: int, row: int| gate_fails(a, g, p, row) ==> #[trigger] gate_reported(r@, g, p, row),
        forall|l: int, row: int| lookup_fails(a, l, row) ==> #[trigger] lookup_reported(r@, l, row),
        forall|l: int| table_incomplete(a, l) ==> #[trigger] incomplete_reported(r@, l),
        forall|k: int| copy_fails(a, k) ==> #[trigger] equality_reported(r@, k),
        r@.len() == 0 <==> !any_violation(a),
        r@.no_duplicates(),
        ordered(r@),
{
    let mut out: Vec<Violation> = Vec::new();
    check_gates(a, &mut out);
    proof {
        lemma_before_mono(out@, (1, 0, 0, 0), (1, 0, 0, 0));
    }
    let mut l: usize = 0;
    while l < a.cs.lookups.len()
        invariant
            a.wf(),
            l <= a.cs.lookups@.len(),
            ordered(out@),
            all_before(out@, (1, l as int, 0, 0)),
            forall|i: int| 0 <= i < out@.len() ==> violation_holds(a, #[trigger] out@[i]),
            forall|g: int, p: int, row: int| gate_fails(a, g, p, row) ==> #[trigger] gate_reported(out@, g, p, row),
            forall|l2: int, row: int| 0 <= l2 < l && lookup_fails(a, l2, row) ==> #[trigger] lookup_reported(out@, l2, row),
            forall|l2: int| 0 <= l2 < l && table_incomplete(a, l2) ==> #[trigger] incomplete_reported(out@, l2),
        decreases a.cs.lookups@.len() - l,
    {
        check_lookup(a, l, &mut out);
        l = l + 1;
    }
    proof {
        lemma_before_mono(out@, (1, l as int, 0, 0), (2, 0, 0, 0));
    }
    check_copies(a, &mut out);
    proof {
        lemma_ordered_distinct(out@);
        if out@.len() == 0 {
            assert(!any_violation(a)) by {
                assert forall|g: int, p: int, row: int| !#[trigger] gate_fails(a, g, p, row) by {
                    if gate_fails(a, g, p, row) {
                        assert(gate_reported(out@, g, p, row));
                    }
                }
                assert forall|l2: int, row: int| !#[trigger] lookup_fails(a, l2, row) by {
                    if lookup_fails(a, l2, row) {
                        assert(lookup_reported(out@, l2, row));
                    }
                }
                assert forall|l2: int| !#[trigger] table_incomplete(a, l2) by {
                    if table_incomplete(a, l2) {
                        assert(incomplete_reported(out@, l2));
                    }
                }
                assert forall|k: int| !#[trigger] copy_fails(a, k) by {
                    if copy_fails(a, k) {
                        assert(equality_reported(out@, k));
                    }
                }
            }
        } else {
            let v = out@[0];
            assert(violation_holds(a, v));
            match v {
                Violation::Gate { gate, poly, row, value } => {
                    assert(gate_fails(a, gate as int, poly as int, row as int));
                },
                Violation::Lookup { lookup, row } => {
                    assert(lookup_fails(a, lookup as int, row as int));
                },
                Violation::IncompleteTable { lookup } => {
                    assert(table_incomplete(a, lookup as int));
                },
                Violation::Equality { copy } => {
                    assert(copy_fails(a, copy as int));
                },
            }
        }
    }
    out
}

} // verus!
