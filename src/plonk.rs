//! A standard PLONK gate `a * ql + b * qr + a * b * qm + c * qo + qc` on three
//! advice columns, with one fixed column per coefficient and an instance
//! column for public inputs. Each operation of the chip is a region of one row.
use crate::circuit::{prod, q, sum, Column, ColumnKind, ConstraintSystem, Expr};
use crate::field::{add_mod, add_opt, mul_mod, mul_opt, neg_mod, Fe};
use crate::layout::{
    lemma_keeps_above_trans, earlier, fe_opt, keeps_above, next_row, Assignment, Cell, CopyConstraint, RegionInfo,
    SynthesisError,
};
use vstd::prelude::*;

verus! {

#[derive(Clone, Copy, Debug)]
pub struct PlonkChip {
    pub ql: Column,
    pub qr: Column,
    pub qm: Column,
    pub qo: Column,
    pub qc: Column,
}

#[derive(Clone, Copy, Debug)]
pub struct PlonkConfig {
    pub plonk_chip: PlonkChip,
    pub pi: Column,
    pub a: Column,
    pub b: Column,
    pub c: Column,
}

/// The five coefficients of one row of the PLONK gate.
#[derive(Clone, Copy, Debug)]
pub struct Coefficients {
    pub ql: Fe,
    pub qr: Fe,
    pub qm: Fe,
    pub qo: Fe,
    pub qc: Fe,
}

/// `a * ql + b * qr + a * b * qm + qo * c + qc`, all on the current row.
pub open spec fn plonk_poly(c: PlonkConfig) -> Expr {
    let k = c.plonk_chip;
    sum(
        sum(
            sum(
                sum(prod(q(c.a, 0), q(k.ql, 0)), prod(q(c.b, 0), q(k.qr, 0))),
                prod(prod(q(c.a, 0), q(c.b, 0)), q(k.qm, 0)),
            ),
            prod(q(k.qo, 0), q(c.c, 0)),
        ),
        q(k.qc, 0),
    )
}

impl PlonkChip {
    /// Declares the five coefficient columns and a gate holding `plonk_poly`
    /// over the given advice columns.
    pub fn new_for_advices(cs: &mut ConstraintSystem, pi: Column, a: Column, b: Column, c: Column) -> (r: PlonkChip)
        requires
            old(cs).num_fixed + 5 <= usize::MAX,
            old(cs).has_column(pi),
            old(cs).has_column(a),
            old(cs).has_column(b),
            old(cs).has_column(c),
        ensures
            r.ql == (Column { kind: ColumnKind::Fixed, index: old(cs).num_fixed }),
            r.qr == (Column { kind: ColumnKind::Fixed, index: (old(cs).num_fixed + 1) as usize }),
            r.qm == (Column { kind: ColumnKind::Fixed, index: (old(cs).num_fixed + 2) as usize }),
            r.qo == (Column { kind: ColumnKind::Fixed, index: (old(cs).num_fixed + 3) as usize }),
            r.qc == (Column { kind: ColumnKind::Fixed, index: (old(cs).num_fixed + 4) as usize }),
            final(cs).num_fixed == old(cs).num_fixed + 5,
            final(cs).num_advice == old(cs).num_advice,
            final(cs).num_instance == old(cs).num_instance,
            final(cs).num_tables == old(cs).num_tables,
            final(cs).selectors@ == old(cs).selectors@,
            final(cs).gates@.drop_last() == old(cs).gates@,
            final(cs).gates@.len() == old(cs).gates@.len() + 1,
            final(cs).gates@.last().name@ == "Plonk Gate"@,
            final(cs).gates@.last().polys@ == seq![plonk_poly(PlonkConfig { plonk_chip: r, pi, a, b, c })],
            final(cs).lookups@ == old(cs).lookups@,
            final(cs).equality@ == old(cs).equality@,
    {
        let ql = cs.fixed_column();
        let qr = cs.fixed_column();
        let qm = cs.fixed_column();
        let qo = cs.fixed_column();
        let qc = cs.fixed_column();
        let poly = Expr::sum(
            Expr::sum(
                Expr::sum(
                    Expr::sum(
                        Expr::product(Expr::query(a, 0), Expr::query(ql, 0)),
                        Expr::product(Expr::query(b, 0), Expr::query(qr, 0)),
                    ),
                    Expr::product(Expr::product(Expr::query(a, 0), Expr::query(b, 0)), Expr::query(qm, 0)),
                ),
                Expr::product(Expr::query(qo, 0), Expr::query(c, 0)),
            ),
            Expr::query(qc, 0),
        );
        let polys = vec![poly];
        proof {
            reveal_with_fuel(ConstraintSystem::expr_valid, 8);
            reveal_with_fuel(crate::circuit::mentions_simple, 8);
            assert(cs.expr_valid(polys@[0]));
            assert(cs.polys_valid(polys@));
            assert(forall|i: int| !#[trigger] crate::circuit::seq_mentions_simple(polys@, i));
        }
        let _ = cs.create_gate("Plonk Gate".to_owned(), polys);
        proof {
            assert(cs.gates@.drop_last() =~= old(cs).gates@);
        }
        PlonkChip { ql, qr, qm, qo, qc }
    }
}

/// Declares three advice columns and an instance column, all enabled for
/// equality, and the chip over them.
pub fn configure(cs: &mut ConstraintSystem) -> (r: PlonkConfig)
    requires
        old(cs).num_advice + 3 <= usize::MAX,
        old(cs).num_instance < usize::MAX,
        old(cs).num_fixed + 5 <= usize::MAX,
    ensures
        config_valid(final(cs), r),
        equality_ready(final(cs), r),
        final(cs).gates@.drop_last() == old(cs).gates@,
        final(cs).gates@.last().name@ == "Plonk Gate"@,
        final(cs).gates@.last().polys@ == seq![plonk_poly(r)],
        final(cs).lookups@ == old(cs).lookups@,
        final(cs).selectors@ == old(cs).selectors@,
{
    let a = cs.advice_column();
    let b = cs.advice_column();
    let c = cs.advice_column();
    let pi = cs.instance_column();
    let _ = cs.enable_equality(a);
    let _ = cs.enable_equality(b);
    let _ = cs.enable_equality(c);
    let _ = cs.enable_equality(pi);
    let ghost enabled = *cs;
    let plonk_chip = PlonkChip::new_for_advices(cs, pi, a, b, c);
    proof {
        assert(forall|d: Column| #[trigger] cs.equality_enabled(d) == enabled.equality_enabled(d));
    }
    PlonkConfig { plonk_chip, pi, a, b, c }
}

pub open spec fn config_valid(cs: &ConstraintSystem, c: PlonkConfig) -> bool {
    let k = c.plonk_chip;
    &&& c.a.kind == ColumnKind::Advice && c.b.kind == ColumnKind::Advice && c.c.kind
        == ColumnKind::Advice
    &&& c.a.index != c.b.index && c.b.index != c.c.index && c.a.index != c.c.index
    &&& c.pi.kind == ColumnKind::Instance
    &&& k.ql.kind == ColumnKind::Fixed && k.qr.kind == ColumnKind::Fixed && k.qm.kind
        == ColumnKind::Fixed && k.qo.kind == ColumnKind::Fixed && k.qc.kind == ColumnKind::Fixed
    &&& k.ql.index != k.qr.index && k.ql.index != k.qm.index && k.ql.index != k.qo.index
        && k.ql.index != k.qc.index && k.qr.index != k.qm.index && k.qr.index != k.qo.index
        && k.qr.index != k.qc.index && k.qm.index != k.qo.index && k.qm.index != k.qc.index
        && k.qo.index != k.qc.index
    &&& cs.has_column(c.a) && cs.has_column(c.b) && cs.has_column(c.c) && cs.has_column(c.pi)
    &&& cs.has_column(k.ql) && cs.has_column(k.qr) && cs.has_column(k.qm) && cs.has_column(k.qo)
        && cs.has_column(k.qc)
}

/// The columns of the circuit that copy constraints need are enabled for
/// equality.
pub open spec fn equality_ready(cs: &ConstraintSystem, c: PlonkConfig) -> bool {
    cs.equality_enabled(c.a) && cs.equality_enabled(c.b) && cs.equality_enabled(c.c)
        && cs.equality_enabled(c.pi)
}

/// The coefficient cells of row `r` hold `k`.
pub open spec fn row_coefficients(a: &Assignment, c: PlonkConfig, r: int, k: Coefficients) -> bool {
    &&& a.cell(c.plonk_chip.ql, r) == Some(k.ql)
    &&& a.cell(c.plonk_chip.qr, r) == Some(k.qr)
    &&& a.cell(c.plonk_chip.qm, r) == Some(k.qm)
    &&& a.cell(c.plonk_chip.qo, r) == Some(k.qo)
    &&& a.cell(c.plonk_chip.qc, r) == Some(k.qc)
}

/// What a write of fixed cells on row `start` leaves unchanged.
pub open spec fn keeps_non_fixed(a: &Assignment, b: &Assignment, start: int) -> bool {
    &&& b.cs == a.cs
    &&& b.rows == a.rows
    &&& forall|c: Column, r: int|
        (r != start || c.kind != ColumnKind::Fixed) ==> #[trigger] b.cell(c, r) == a.cell(c, r)
    &&& forall|s: int, r: int| #[trigger] b.selector_on(s, r) == a.selector_on(s, r)
    &&& b.copies@ == a.copies@
    &&& b.tables@ == a.tables@
    &&& b.table_lens@ == a.table_lens@
    &&& b.open == a.open
}

impl PlonkChip {
    /// Writes the coefficients `k` on the first row of the open, still empty,
    /// region.
    fn assign_plonk_regions(a: &mut Assignment, c: PlonkConfig, k: Coefficients) -> (r: Result<(), SynthesisError>)
        requires
            old(a).wf(),
            old(a).open,
            old(a).regions@.last().height == 0,
            config_valid(&old(a).cs, c),
        ensures
            final(a).wf(),
            final(a).cs == old(a).cs,
            final(a).rows == old(a).rows,
            r is Ok <==> old(a).current_start() < old(a).rows,
            r matches Err(e) ==> e == SynthesisError::OutOfRows,
            r is Ok ==> {
                let start = old(a).current_start();
                &&& row_coefficients(final(a), c, start, k)
                &&& final(a).regions@ == old(a).grown(0)
                &&& keeps_non_fixed(old(a), final(a), start)
            },
    {
        let ghost start = a.current_start();
        proof {
            assert(next_row(a.regions@) == start);
        }
        let ghost s0 = *a;
        match a.assign_fixed(c.plonk_chip.ql, 0, k.ql) {
            Ok(_) => {},
            Err(e) => {
                return Err(e);
            },
        }
        let ghost s1 = *a;
        assert(s1.cell(c.plonk_chip.qr, start) == s0.cell(c.plonk_chip.qr, start));
        match a.assign_fixed(c.plonk_chip.qr, 0, k.qr) {
            Ok(_) => {},
            Err(e) => {
                return Err(e);
            },
        }
        let ghost s2 = *a;
        assert(s2.cell(c.plonk_chip.qm, start) == s0.cell(c.plonk_chip.qm, start));
        match a.assign_fixed(c.plonk_chip.qm, 0, k.qm) {
            Ok(_) => {},
            Err(e) => {
                return Err(e);
            },
        }
        let ghost s3 = *a;
        assert(s3.cell(c.plonk_chip.qo, start) == s0.cell(c.plonk_chip.qo, start));
        match a.assign_fixed(c.plonk_chip.qo, 0, k.qo) {
            Ok(_) => {},
            Err(e) => {
                return Err(e);
            },
        }
        let ghost s4 = *a;
        assert(s4.cell(c.plonk_chip.qc, start) == s0.cell(c.plonk_chip.qc, start));
        match a.assign_fixed(c.plonk_chip.qc, 0, k.qc) {
            Ok(_) => {},
            Err(e) => {
                return Err(e);
            },
        }
        proof {
            assert(forall|s: int, r: int| #[trigger] a.selector_on(s, r) == s0.selector_on(s, r));
            assert(row_coefficients(a, c, start, k));
            assert(forall|c2: Column, r: int| (r != start || c2.kind != ColumnKind::Fixed) ==> #[trigger] a.cell(c2, r) == s0.cell(c2, r));
        }
        Ok(())
    }
}

/// What the third advice cell of a two-input row holds: the product (`mode`
/// 0), the sum (1), or zero (2).
pub open spec fn row_output(mode: u8, x: Option<int>, y: Option<int>) -> Option<int> {
    if mode == 0 {
        mul_opt(x, y)
    } else if mode == 1 {
        add_opt(x, y)
    } else {
        Some(0)
    }
}

/// The coefficients of row `r`, as integers.
pub open spec fn row_values(a: &Assignment, c: PlonkConfig, r: int) -> Seq<Option<int>> {
    seq![
        a.cell_value(c.plonk_chip.ql, r),
        a.cell_value(c.plonk_chip.qr, r),
        a.cell_value(c.plonk_chip.qm, r),
        a.cell_value(c.plonk_chip.qo, r),
        a.cell_value(c.plonk_chip.qc, r),
    ]
}

/// Every cell of row `r` that `plonk_poly` reads: `a`, `b`, `c`, then the coefficients.
pub open spec fn row_cells(a: &Assignment, c: PlonkConfig, r: int) -> Seq<Option<int>> {
    seq![a.cell_value(c.a, r), a.cell_value(c.b, r), a.cell_value(c.c, r)] + row_values(a, c, r)
}

pub open spec fn coefficient_values(k: Coefficients) -> Seq<Option<int>> {
    seq![Some(k.ql.val()), Some(k.qr.val()), Some(k.qm.val()), Some(k.qo.val()), Some(k.qc.val())]
}

/// The coefficients of a product row: `qm = 1`, `qo = -1`.
pub open spec fn mul_coefficients() -> Seq<Option<int>> {
    seq![Some(0int), Some(0int), Some(1int), Some(neg_mod(1)), Some(0int)]
}

/// The coefficients of a sum row: `ql = qr = 1`, `qo = -1`.
pub open spec fn add_coefficients() -> Seq<Option<int>> {
    seq![Some(1int), Some(1int), Some(0int), Some(neg_mod(1)), Some(0int)]
}

/// The coefficients of an equality row: `ql = 1`, `qr = -1`.
pub open spec fn eq_coefficients() -> Seq<Option<int>> {
    seq![Some(1int), Some(neg_mod(1)), Some(0int), Some(0int), Some(0int)]
}

/// The columns a two-input row copies through are enabled for equality.
pub open spec fn copy_ready(cs: &ConstraintSystem, c: PlonkConfig, lhs: Cell, rhs: Cell) -> bool {
    cs.equality_enabled(lhs.column) && cs.equality_enabled(rhs.column) && cs.equality_enabled(c.a)
        && cs.equality_enabled(c.b)
}

/// `b` is `a` with one more region of one row, at the first free row, whose
/// cells are `cells`, with no selector on and `lhs`, `rhs` copied into `a`
/// and `b`.
pub open spec fn copied_row(a: &Assignment, b: &Assignment, c: PlonkConfig, lhs: Cell, rhs: Cell, cells: Seq<Option<int>>) -> bool {
    let start = next_row(a.regions@);
    &&& !b.open
    &&& row_cells(b, c, start) == cells
    &&& forall|s: int| !#[trigger] b.selector_on(s, start)
    &&& b.regions@ == a.regions@.push(RegionInfo { start: start as usize, height: 1 })
    &&& keeps_above(a, b, start)
    &&& b.copies@ == a.copies@.push(CopyConstraint { a: lhs, b: Cell { column: c.a, row: start as usize } }).push(
        CopyConstraint { a: rhs, b: Cell { column: c.b, row: start as usize } },
    )
}

impl PlonkChip {
    /// One region of one row: coefficients `k`, `lhs` and `rhs` copied into
    /// `a` and `b`, and `c` as `mode` says. Returns the `c` cell. Fails with
    /// `NotEqualityEnabled`, before laying anything out, when a column it
    /// copies through is not enabled for equality.
    fn two_input_row(a: &mut Assignment, c: PlonkConfig, k: Coefficients, lhs: Cell, rhs: Cell, mode: u8) -> (r: Result<Cell, SynthesisError>)
        requires
            old(a).wf(),
            !old(a).open,
            config_valid(&old(a).cs, c),
            earlier(old(a), lhs),
            earlier(old(a), rhs),
        ensures
            final(a).wf(),
            final(a).cs == old(a).cs,
            final(a).rows == old(a).rows,
            r is Ok <==> copy_ready(&old(a).cs, c, lhs, rhs) && next_row(old(a).regions@) + 1 <= old(a).rows,
            r matches Err(e) ==> e == if copy_ready(&old(a).cs, c, lhs, rhs) {
                SynthesisError::OutOfRows
            } else {
                SynthesisError::NotEqualityEnabled
            },
            !copy_ready(&old(a).cs, c, lhs, rhs) ==> *final(a) == *old(a),
            r is Ok ==> {
                let start = next_row(old(a).regions@);
                let x = old(a).cell_value(lhs.column, lhs.row as int);
                let y = old(a).cell_value(rhs.column, rhs.row as int);
                &&& r->Ok_0 == (Cell { column: c.c, row: start as usize })
                &&& copied_row(old(a), final(a), c, lhs, rhs, seq![x, y, row_output(mode, x, y)] + coefficient_values(k))
            },
    {
        if !a.cs.is_equality_enabled(lhs.column) || !a.cs.is_equality_enabled(rhs.column)
            || !a.cs.is_equality_enabled(c.a) || !a.cs.is_equality_enabled(c.b) {
            return Err(SynthesisError::NotEqualityEnabled);
        }
        let ghost start = next_row(a.regions@);
        let _ = a.begin_region();
        let ghost s0 = *a;
        match Self::assign_plonk_regions(a, c, k) {
            Ok(()) => {},
            Err(e) => {
                return Err(e);
            },
        }
        let ghost s1 = *a;
        assert(s1.cell(c.a, start) is None) by {
            assert(s0.cell(c.a, start) is None);
        }
        assert(s1.cell(c.b, start) is None) by {
            assert(s0.cell(c.b, start) is None);
        }
        assert(s1.cell(c.c, start) is None) by {
            assert(s0.cell(c.c, start) is None);
        }
        let wa = match a.copy_advice(lhs, c.a, 0) {
            Ok(x) => x,
            Err(e) => {
                return Err(e);
            },
        };
        let ghost s2 = *a;
        let wb = match a.copy_advice(rhs, c.b, 0) {
            Ok(x) => x,
            Err(e) => {
                return Err(e);
            },
        };
        let ghost s3 = *a;
        let x = a.get_cell(wa);
        let y = a.get_cell(wb);
        proof {
            assert(fe_opt(x) == old(a).cell_value(lhs.column, lhs.row as int));
            assert(fe_opt(y) == old(a).cell_value(rhs.column, rhs.row as int));
            assert(s3.cell(c.c, start) is None);
        }
        let out = if mode == 0 {
            match (x, y) {
                (Some(u), Some(v)) => Some(u.mul(&v)),
                _ => None,
            }
        } else if mode == 1 {
            match (x, y) {
                (Some(u), Some(v)) => Some(u.add(&v)),
                _ => None,
            }
        } else {
            Some(Fe::zero())
        };
        match out {
            Some(v) => {
                match a.assign_advice(c.c, 0, v) {
                    Ok(_) => {},
                    Err(e) => {
                        return Err(e);
                    },
                }
            },
            None => {},
        }
        let ghost s4 = *a;
        let _ = a.end_region();
        proof {
            assert(forall|c2: Column, r: int| #[trigger] a.cell(c2, r) == s4.cell(c2, r));
            assert(forall|s: int, r: int| #[trigger] a.selector_on(s, r) == s4.selector_on(s, r));
            assert(forall|s: int, r: int| #[trigger] s0.selector_on(s, r) == old(a).selector_on(s, r));
            assert(forall|s: int, r: int| #[trigger] s2.selector_on(s, r) == s1.selector_on(s, r));
            assert(forall|s: int, r: int| #[trigger] s3.selector_on(s, r) == s2.selector_on(s, r));
            assert(forall|s: int, r: int| #[trigger] s4.selector_on(s, r) == s3.selector_on(s, r));
            assert(forall|c2: Column, r: int| #[trigger] s0.cell(c2, r) == old(a).cell(c2, r));
            assert(row_values(a, c, start) == coefficient_values(k));
            assert(a.cell_value(c.a, start) == fe_opt(x));
            assert(a.cell_value(c.c, start) == row_output(mode, fe_opt(x), fe_opt(y)));
            assert(row_cells(a, c, start) =~= seq![fe_opt(x), fe_opt(y), row_output(mode, fe_opt(x), fe_opt(y))] + coefficient_values(k));
            assert forall|s: int| !#[trigger] a.selector_on(s, start) by {
                assert(!old(a).selector_on(s, start));
            }
            assert(keeps_above(old(a), a, start));
            assert(a.regions@ == old(a).regions@.push(RegionInfo { start: start as usize, height: 1 }));
            assert(a.copies@ == old(a).copies@.push(CopyConstraint { a: lhs, b: Cell { column: c.a, row: start as usize } }).push(
                CopyConstraint { a: rhs, b: Cell { column: c.b, row: start as usize } }));
            assert(!a.open);
        }
        Ok(Cell { column: c.c, row: wa.row })
    }
}

pub open spec fn opt_val(v: Fe) -> Option<int> {
    Some(v.val())
}

fn make_coefficients(ql: &Fe, qr: &Fe, qm: &Fe, qo: &Fe, qc: &Fe) -> (k: Coefficients)
    ensures
        coefficient_values(k) == seq![opt_val(*ql), opt_val(*qr), opt_val(*qm), opt_val(*qo), opt_val(*qc)],
{
    Coefficients { ql: *ql, qr: *qr, qm: *qm, qo: *qo, qc: *qc }
}

impl PlonkChip {
    /// A row whose `c` is the product of `lhs` and `rhs`: coefficients
    /// `qm = 1`, `qo = -1`, the others zero. Returns the `c` cell.
    pub fn multiply_cells(a: &mut Assignment, c: PlonkConfig, lhs: Cell, rhs: Cell) -> (r: Result<Cell, SynthesisError>)
        requires
            old(a).wf(),
            !old(a).open,
            config_valid(&old(a).cs, c),
            earlier(old(a), lhs),
            earlier(old(a), rhs),
        ensures
            final(a).wf(),
            final(a).cs == old(a).cs,
            final(a).rows == old(a).rows,
            r is Ok <==> copy_ready(&old(a).cs, c, lhs, rhs) && next_row(old(a).regions@) + 1 <= old(a).rows,
            r matches Err(e) ==> e == if copy_ready(&old(a).cs, c, lhs, rhs) {
                SynthesisError::OutOfRows
            } else {
                SynthesisError::NotEqualityEnabled
            },
            !copy_ready(&old(a).cs, c, lhs, rhs) ==> *final(a) == *old(a),
            r is Ok ==> {
                let start = next_row(old(a).regions@);
                let x = old(a).cell_value(lhs.column, lhs.row as int);
                let y = old(a).cell_value(rhs.column, rhs.row as int);
                &&& r->Ok_0 == (Cell { column: c.c, row: start as usize })
                &&& copied_row(old(a), final(a), c, lhs, rhs, seq![x, y, mul_opt(x, y)] + mul_coefficients())
            },
    {
        let zero = Fe::zero();
        let one = Fe::one();
        let minus_one = one.neg();
        let k = make_coefficients(&zero, &zero, &one, &minus_one, &zero);
        Self::two_input_row(a, c, k, lhs, rhs, 0)
    }

    /// A row whose `c` is the sum of `lhs` and `rhs`: coefficients `ql = 1`,
    /// `qr = 1`, `qo = -1`, the others zero. Returns the `c` cell.
    pub fn add_cells(a: &mut Assignment, c: PlonkConfig, lhs: Cell, rhs: Cell) -> (r: Result<Cell, SynthesisError>)
        requires
            old(a).wf(),
            !old(a).open,
            config_valid(&old(a).cs, c),
            earlier(old(a), lhs),
            earlier(old(a), rhs),
        ensures
            final(a).wf(),
            final(a).cs == old(a).cs,
            final(a).rows == old(a).rows,
            r is Ok <==> copy_ready(&old(a).cs, c, lhs, rhs) && next_row(old(a).regions@) + 1 <= old(a).rows,
            r matches Err(e) ==> e == if copy_ready(&old(a).cs, c, lhs, rhs) {
                SynthesisError::OutOfRows
            } else {
                SynthesisError::NotEqualityEnabled
            },
            !copy_ready(&old(a).cs, c, lhs, rhs) ==> *final(a) == *old(a),
            r is Ok ==> {
                let start = next_row(old(a).regions@);
                let x = old(a).cell_value(lhs.column, lhs.row as int);
                let y = old(a).cell_value(rhs.column, rhs.row as int);
                &&& r->Ok_0 == (Cell { column: c.c, row: start as usize })
                &&& copied_row(old(a), final(a), c, lhs, rhs, seq![x, y, add_opt(x, y)] + add_coefficients())
            },
    {
        let zero = Fe::zero();
        let one = Fe::one();
        let minus_one = one.neg();
        let k = make_coefficients(&one, &one, &zero, &minus_one, &zero);
        Self::two_input_row(a, c, k, lhs, rhs, 1)
    }

    /// A row that holds `lhs` and `rhs` equal: coefficients `ql = 1`,
    /// `qr = -1`, the others zero. Its `c` is written as zero, so that the
    /// polynomial reads `a - b` there.
    pub fn enforce_cells_to_be_equal(a: &mut Assignment, c: PlonkConfig, lhs: Cell, rhs: Cell) -> (r: Result<(), SynthesisError>)
        requires
            old(a).wf(),
            !old(a).open,
            config_valid(&old(a).cs, c),
            earlier(old(a), lhs),
            earlier(old(a), rhs),
        ensures
            final(a).wf(),
            final(a).cs == old(a).cs,
            final(a).rows == old(a).rows,
            r is Ok <==> copy_ready(&old(a).cs, c, lhs, rhs) && next_row(old(a).regions@) + 1 <= old(a).rows,
            r matches Err(e) ==> e == if copy_ready(&old(a).cs, c, lhs, rhs) {
                SynthesisError::OutOfRows
            } else {
                SynthesisError::NotEqualityEnabled
            },
            !copy_ready(&old(a).cs, c, lhs, rhs) ==> *final(a) == *old(a),
            r is Ok ==> {
                let x = old(a).cell_value(lhs.column, lhs.row as int);
                let y = old(a).cell_value(rhs.column, rhs.row as int);
                copied_row(old(a), final(a), c, lhs, rhs, seq![x, y, Some(0int)] + eq_coefficients())
            },
    {
        let zero = Fe::zero();
        let one = Fe::one();
        let minus_one = one.neg();
        let k = make_coefficients(&one, &minus_one, &zero, &zero, &zero);
        match Self::two_input_row(a, c, k, lhs, rhs, 2) {
            Ok(_) => Ok(()),
            Err(e) => Err(e),
        }
    }

    /// A row whose `c` holds the constant `v`: coefficients `qo = -1`,
    /// `qc = v`, the others zero, and `a`, `b` written as zero, so that the
    /// polynomial reads `v - c` there. Returns the `c` cell.
    pub fn new_constant_cell(a: &mut Assignment, c: PlonkConfig, v: Fe) -> (r: Result<Cell, SynthesisError>)
        requires
            old(a).wf(),
            !old(a).open,
            config_valid(&old(a).cs, c),
        ensures
            final(a).wf(),
            final(a).cs == old(a).cs,
            final(a).rows == old(a).rows,
            r is Ok <==> next_row(old(a).regions@) + 1 <= old(a).rows,
            r matches Err(e) ==> e == SynthesisError::OutOfRows,
            r is Ok ==> {
                let start = next_row(old(a).regions@);
                &&& r->Ok_0 == (Cell { column: c.c, row: start as usize })
                &&& !final(a).open
                &&& row_cells(final(a), c, start) == seq![Some(0int), Some(0int), Some(v.val()), Some(0int), Some(0int), Some(0int), Some(neg_mod(1)), Some(v.val())]
                &&& forall|s: int| !#[trigger] final(a).selector_on(s, start)
                &&& final(a).regions@ == old(a).regions@.push(RegionInfo { start: start as usize, height: 1 })
                &&& keeps_above(old(a), final(a), start)
                &&& final(a).copies@ == old(a).copies@
            },
    {
        let ghost start = next_row(a.regions@);
        let zero = Fe::zero();
        let one = Fe::one();
        let minus_one = one.neg();
        let k = make_coefficients(&zero, &zero, &zero, &minus_one, &v);
        let _ = a.begin_region();
        let ghost s0 = *a;
        match Self::assign_plonk_regions(a, c, k) {
            Ok(()) => {},
            Err(e) => {
                return Err(e);
            },
        }
        let ghost s1 = *a;
        assert(s1.cell(c.a, start) is None) by {
            assert(s0.cell(c.a, start) is None);
        }
        assert(s1.cell(c.b, start) is None) by {
            assert(s0.cell(c.b, start) is None);
        }
        assert(s1.cell(c.c, start) is None) by {
            assert(s0.cell(c.c, start) is None);
        }
        match a.assign_advice(c.a, 0, Fe::zero()) {
            Ok(_) => {},
            Err(e) => {
                return Err(e);
            },
        }
        let ghost s2 = *a;
        match a.assign_advice(c.b, 0, Fe::zero()) {
            Ok(_) => {},
            Err(e) => {
                return Err(e);
            },
        }
        let ghost s3 = *a;
        let out = match a.assign_advice(c.c, 0, v) {
            Ok(x) => x,
            Err(e) => {
                return Err(e);
            },
        };
        let ghost s4 = *a;
        let _ = a.end_region();
        proof {
            assert(forall|c2: Column, r: int| #[trigger] a.cell(c2, r) == s4.cell(c2, r));
            assert(forall|s: int, r: int| #[trigger] a.selector_on(s, r) == s4.selector_on(s, r));
            assert(forall|s: int, r: int| #[trigger] s0.selector_on(s, r) == old(a).selector_on(s, r));
            assert(forall|s: int, r: int| #[trigger] s2.selector_on(s, r) == s1.selector_on(s, r));
            assert(forall|s: int, r: int| #[trigger] s3.selector_on(s, r) == s2.selector_on(s, r));
            assert(forall|s: int, r: int| #[trigger] s4.selector_on(s, r) == s3.selector_on(s, r));
            assert(forall|c2: Column, r: int| #[trigger] s0.cell(c2, r) == old(a).cell(c2, r));
            assert(row_values(a, c, start) == coefficient_values(k));
            assert(a.cell_value(c.a, start) == Some(0int));
            assert(a.cell_value(c.b, start) == Some(0int));
            assert(row_cells(a, c, start) =~= seq![Some(0int), Some(0int), Some(v.val()), Some(0int), Some(0int), Some(0int), Some(neg_mod(1)), Some(v.val())]);
            assert forall|s: int| !#[trigger] a.selector_on(s, start) by {
                assert(!old(a).selector_on(s, start));
            }
            assert(keeps_above(old(a), a, start));
        }
        Ok(out)
    }

    /// Requires `cell` to equal row `public_input_index` of the instance
    /// column.
    pub fn constrain_advice_to_equal_public_input(a: &mut Assignment, c: PlonkConfig, public_input_index: usize, cell: Cell) -> (r: Result<(), SynthesisError>)
        requires
            old(a).wf(),
            config_valid(&old(a).cs, c),
            old(a).in_grid(cell),
        ensures
            final(a).wf(),
            r is Ok <==> public_input_index < old(a).rows && old(a).cs.equality_enabled(cell.column)
                && old(a).cs.equality_enabled(c.pi),
            r matches Err(e) ==> e == if public_input_index >= old(a).rows {
                SynthesisError::UnknownColumn
            } else {
                SynthesisError::NotEqualityEnabled
            },
            r is Err ==> *final(a) == *old(a),
            r is Ok ==> *final(a) == (Assignment { copies: final(a).copies, ..*old(a) })
                && final(a).copies@ == old(a).copies@.push(
                CopyConstraint { a: cell, b: Cell { column: c.pi, row: public_input_index } },
            ),
    {
        a.constrain_instance(cell, c.pi, public_input_index)
    }
}

/// The cells of a row that holds only `v` in `a`.
pub open spec fn input_row(v: int) -> Seq<Option<int>> {
    seq![Some(v), None, None, None, None, None, None, None]
}

/// Writes `value` into `a` of a region of its own, constrained by nothing.
pub fn unconstrained(a: &mut Assignment, c: PlonkConfig, value: Fe) -> (r: Result<Cell, SynthesisError>)
    requires
        old(a).wf(),
        !old(a).open,
        config_valid(&old(a).cs, c),
    ensures
        final(a).wf(),
        final(a).cs == old(a).cs,
        final(a).rows == old(a).rows,
        r is Ok <==> next_row(old(a).regions@) + 1 <= old(a).rows,
        r matches Err(e) ==> e == SynthesisError::OutOfRows,
        r is Ok ==> {
            let start = next_row(old(a).regions@);
            &&& r->Ok_0 == (Cell { column: c.a, row: start as usize })
            &&& !final(a).open
            &&& final(a).cell(c.a, start) == Some(value)
            &&& row_cells(final(a), c, start) == input_row(value.val())
            &&& forall|s: int| !#[trigger] final(a).selector_on(s, start)
            &&& final(a).regions@ == old(a).regions@.push(RegionInfo { start: start as usize, height: 1 })
            &&& keeps_above(old(a), final(a), start)
            &&& final(a).copies@ == old(a).copies@
        },
{
    let ghost start = next_row(a.regions@);
    let _ = a.begin_region();
    let ghost opened = *a;
    let cell = match a.assign_advice(c.a, 0, value) {
        Ok(x) => x,
        Err(e) => {
            return Err(e);
        },
    };
    let ghost assigned = *a;
    let _ = a.end_region();
    proof {
        assert(forall|s: int, r: int| #[trigger] a.selector_on(s, r) == old(a).selector_on(s, r));
        assert(forall|c2: Column, r: int| #[trigger] a.cell(c2, r) == assigned.cell(c2, r));
        assert(forall|c2: Column, r: int| #[trigger] opened.cell(c2, r) == old(a).cell(c2, r));
        assert forall|s: int| !#[trigger] a.selector_on(s, start) by {
            assert(!old(a).selector_on(s, start));
        }
        let k = c.plonk_chip;
        assert(old(a).cell(c.b, start) is None);
        assert(old(a).cell(c.c, start) is None);
        assert(old(a).cell(k.ql, start) is None);
        assert(old(a).cell(k.qr, start) is None);
        assert(old(a).cell(k.qm, start) is None);
        assert(old(a).cell(k.qo, start) is None);
        assert(old(a).cell(k.qc, start) is None);
        assert(row_cells(a, c, start) =~= input_row(value.val()));
    }
    Ok(cell)
}

/// Writes each value into a region of its own, constrained by nothing.
fn place_all(a: &mut Assignment, c: PlonkConfig, values: &Vec<Fe>) -> (r: Result<Vec<Cell>, SynthesisError>)
    requires
        old(a).wf(),
        !old(a).open,
        config_valid(&old(a).cs, c),
    ensures
        final(a).wf(),
        final(a).cs == old(a).cs,
        final(a).rows == old(a).rows,
        r is Ok <==> next_row(old(a).regions@) + values@.len() <= old(a).rows,
        r matches Err(e) ==> e == SynthesisError::OutOfRows,
        r matches Ok(cells) ==> {
            let start = next_row(old(a).regions@);
            &&& !final(a).open
            &&& cells@.len() == values@.len()
            &&& next_row(final(a).regions@) == start + values@.len()
            &&& keeps_above(old(a), final(a), start)
            &&& final(a).copies@ == old(a).copies@
            &&& forall|i: int| 0 <= i < values@.len() ==> #[trigger] cells@[i] == (Cell { column: c.a, row: (start + i) as usize })
                && final(a).cell(c.a, start + i) == Some(values@[i])
                && row_cells(final(a), c, start + i) == input_row(values@[i].val())
                && forall|s: int| !#[trigger] final(a).selector_on(s, start + i)
        },
{
    let ghost start = next_row(a.regions@);
    let mut cells: Vec<Cell> = Vec::new();
    let mut i: usize = 0;
    proof {
        assert(keeps_above(old(a), a, start));
    }
    while i < values.len()
        invariant
            a.wf(),
            !a.open,
            a.cs == old(a).cs,
            a.rows == old(a).rows,
            a.copies@ == old(a).copies@,
            config_valid(&a.cs, c),
            i <= values@.len(),
            start == next_row(old(a).regions@),
            start + i <= a.rows,
            next_row(a.regions@) == start + i,
            keeps_above(old(a), a, start),
            cells@.len() == i,
            forall|j: int| 0 <= j < i ==> #[trigger] cells@[j] == (Cell { column: c.a, row: (start + j) as usize })
                && a.cell(c.a, start + j) == Some(values@[j])
                && row_cells(a, c, start + j) == input_row(values@[j].val())
                && forall|s: int| !#[trigger] a.selector_on(s, start + j),
        decreases values@.len() - i,
    {
        let ghost before = *a;
        let cell = match unconstrained(a, c, values[i]) {
            Ok(x) => x,
            Err(e) => {
                return Err(e);
            },
        };
        proof {
            lemma_keeps_above_trans(old(a), &before, a, start, start + i);
            assert(forall|c2: Column, r: int| r < start + i ==> #[trigger] a.cell(c2, r) == before.cell(c2, r));
            assert(forall|s: int, r: int| r < start + i ==> #[trigger] a.selector_on(s, r) == before.selector_on(s, r));
        }
        cells.push(cell);
        proof {
            assert forall|j: int| 0 <= j < i + 1 implies #[trigger] cells@[j] == (Cell { column: c.a, row: (start + j) as usize })
                && a.cell(c.a, start + j) == Some(values@[j])
                && row_cells(a, c, start + j) == input_row(values@[j].val())
                && forall|s: int| !#[trigger] a.selector_on(s, start + j) by {
                if j < i {
                    assert(before.cell(c.a, start + j) == Some(values@[j]));
                    assert(row_cells(&before, c, start + j) == input_row(values@[j].val()));
                    assert(row_cells(a, c, start + j) =~= row_cells(&before, c, start + j));
                    assert forall|s: int| !#[trigger] a.selector_on(s, start + j) by {
                        assert(!before.selector_on(s, start + j));
                    }
                }
            }
        }
        i = i + 1;
    }
    Ok(cells)
}

/// Writes the public inputs, then the private ones, each into a region of
/// its own.
pub fn register_inputs(a: &mut Assignment, c: PlonkConfig, public: &Vec<Fe>, private: &Vec<Fe>) -> (r: Result<(Vec<Cell>, Vec<Cell>), SynthesisError>)
    requires
        old(a).wf(),
        !old(a).open,
        config_valid(&old(a).cs, c),
    ensures
        final(a).wf(),
        final(a).cs == old(a).cs,
        final(a).rows == old(a).rows,
        r is Ok <==> next_row(old(a).regions@) + public@.len() + private@.len() <= old(a).rows,
        r matches Err(e) ==> e == SynthesisError::OutOfRows,
        r matches Ok((pc, qc)) ==> {
            let start = next_row(old(a).regions@);
            let n = public@.len();
            &&& !final(a).open
            &&& pc@.len() == n
            &&& qc@.len() == private@.len()
            &&& next_row(final(a).regions@) == start + n + private@.len()
            &&& keeps_above(old(a), final(a), start)
            &&& final(a).copies@ == old(a).copies@
            &&& forall|i: int| 0 <= i < n ==> #[trigger] pc@[i] == (Cell { column: c.a, row: (start + i) as usize })
                && row_cells(final(a), c, start + i) == input_row(public@[i].val())
                && forall|s: int| !#[trigger] final(a).selector_on(s, start + i)
            &&& forall|i: int| 0 <= i < private@.len() ==> #[trigger] qc@[i] == (Cell { column: c.a, row: (start + n + i) as usize })
                && row_cells(final(a), c, start + n + i) == input_row(private@[i].val())
                && forall|s: int| !#[trigger] final(a).selector_on(s, start + n + i)
        },
{
    let ghost start = next_row(a.regions@);
    let pc = match place_all(a, c, public) {
        Ok(x) => x,
        Err(e) => {
            return Err(e);
        },
    };
    let ghost mid = *a;
    let qc = match place_all(a, c, private) {
        Ok(x) => x,
        Err(e) => {
            return Err(e);
        },
    };
    proof {
        lemma_keeps_above_trans(old(a), &mid, a, start, start + public@.len());
        assert forall|i: int| 0 <= i < public@.len() implies #[trigger] pc@[i] == (Cell { column: c.a, row: (start + i) as usize })
            && row_cells(a, c, start + i) == input_row(public@[i].val())
            && forall|s: int| !#[trigger] a.selector_on(s, start + i) by {
            assert(row_cells(&mid, c, start + i) == input_row(public@[i].val()));
            assert(row_cells(a, c, start + i) =~= row_cells(&mid, c, start + i));
            assert forall|s: int| !#[trigger] a.selector_on(s, start + i) by {
                assert(!mid.selector_on(s, start + i));
            }
        }
    }
    Ok((pc, qc))
}

/// `x * y * (x * y + z)`, as the circuit computes it.
pub open spec fn circuit_output(x: int, y: int, z: int) -> int {
    let aux1 = mul_mod(x, y);
    mul_mod(aux1, add_mod(aux1, z))
}

/// The nine rows of the circuit for public inputs `[x, y, e]` and private
/// input `z`: the four inputs, then `aux1 = x * y`, `aux2 = aux1 + z`,
/// `aux3 = aux1 * aux2`, `y = z` and `aux3 = e`.
pub open spec fn circuit_rows(x: int, y: int, e: int, z: int) -> Seq<Seq<Option<int>>> {
    let aux1 = mul_mod(x, y);
    let aux2 = add_mod(aux1, z);
    let aux3 = mul_mod(aux1, aux2);
    seq![
        input_row(x),
        input_row(y),
        input_row(e),
        input_row(z),
        seq![Some(x), Some(y), Some(aux1)] + mul_coefficients(),
        seq![Some(aux1), Some(z), Some(aux2)] + add_coefficients(),
        seq![Some(aux1), Some(aux2), Some(aux3)] + mul_coefficients(),
        seq![Some(y), Some(z), Some(0int)] + eq_coefficients(),
        seq![Some(aux3), Some(e), Some(0int)] + eq_coefficients(),
    ]
}

/// The copy constraint from cell `x` to cell `y`.
pub open spec fn cp(x: Cell, y: Cell) -> CopyConstraint {
    CopyConstraint { a: x, b: y }
}

/// The copy constraints the circuit adds from row `s`: the inputs of each
/// chip row, then `x`, `y` and `e` to rows 0, 1 and 2 of the instance column.
pub open spec fn circuit_copies(c: PlonkConfig, s: int) -> Seq<CopyConstraint> {
    let ca = |k: int| Cell { column: c.a, row: (s + k) as usize };
    let cb = |k: int| Cell { column: c.b, row: (s + k) as usize };
    let cc = |k: int| Cell { column: c.c, row: (s + k) as usize };
    let p = |i: usize| Cell { column: c.pi, row: i };
    seq![
        cp(ca(0), ca(4)), cp(ca(1), cb(4)),
        cp(cc(4), ca(5)), cp(ca(3), cb(5)),
        cp(cc(4), ca(6)), cp(cc(5), cb(6)),
        cp(ca(1), ca(7)), cp(ca(3), cb(7)),
        cp(cc(6), ca(8)), cp(ca(2), cb(8)),
        cp(ca(0), p(0)), cp(ca(1), p(1)), cp(ca(2), p(2)),
    ]
}

proof fn lemma_row_parts(b: &Assignment, c: PlonkConfig, r: int, cells: Seq<Option<int>>)
    requires
        row_cells(b, c, r) == cells,
    ensures
        b.cell_value(c.a, r) == cells[0],
        b.cell_value(c.b, r) == cells[1],
        b.cell_value(c.c, r) == cells[2],
{
    assert(row_cells(b, c, r)[0] == b.cell_value(c.a, r));
    assert(row_cells(b, c, r)[1] == b.cell_value(c.b, r));
    assert(row_cells(b, c, r)[2] == b.cell_value(c.c, r));
}

/// The circuit of public inputs `[x, y, expected]` and private input `[z]`:
/// nine rows from the first free one, as `circuit_rows` gives them, with no
/// selector on, and the copy constraints of `circuit_copies`.
#[verifier::rlimit(100)]
pub fn synthesize(a: &mut Assignment, c: PlonkConfig, public: &Vec<Fe>, private: &Vec<Fe>) -> (r: Result<(), SynthesisError>)
    requires
        old(a).wf(),
        !old(a).open,
        config_valid(&old(a).cs, c),
        public@.len() == 3,
        private@.len() == 1,
    ensures
        final(a).wf(),
        final(a).cs == old(a).cs,
        r is Ok <==> equality_ready(&old(a).cs, c) && next_row(old(a).regions@) + 9 <= old(a).rows,
        r matches Err(e) ==> e == if equality_ready(&old(a).cs, c) {
            SynthesisError::OutOfRows
        } else {
            SynthesisError::NotEqualityEnabled
        },
        r is Ok ==> {
            let start = next_row(old(a).regions@);
            let rows = circuit_rows(public@[0].val(), public@[1].val(), public@[2].val(), private@[0].val());
            &&& !final(a).open
            &&& next_row(final(a).regions@) == start + 9
            &&& forall|k: int| 0 <= k < 9 ==> #[trigger] row_cells(final(a), c, start + k) == rows[k]
            &&& forall|s: int, k: int| 0 <= k < 9 ==> !#[trigger] final(a).selector_on(s, start + k)
            &&& final(a).copies@ == old(a).copies@ + circuit_copies(c, start)
            &&& keeps_above(old(a), final(a), start)
        },
{
    if !a.cs.is_equality_enabled(c.a) || !a.cs.is_equality_enabled(c.b) || !a.cs.is_equality_enabled(c.c)
        || !a.cs.is_equality_enabled(c.pi) {
        return Err(SynthesisError::NotEqualityEnabled);
    }
    let ghost start = next_row(a.regions@);
    let (pc, qc) = match register_inputs(a, c, public, private) {
        Ok(x) => x,
        Err(e) => {
            return Err(e);
        },
    };
    let x = pc[0];
    let y = pc[1];
    let expected = pc[2];
    let z = qc[0];
    let ghost s1 = *a;
    let aux1 = match PlonkChip::multiply_cells(a, c, x, y) {
        Ok(v) => v,
        Err(e) => {
            return Err(e);
        },
    };
    let ghost s2 = *a;
    let aux2 = match PlonkChip::add_cells(a, c, aux1, z) {
        Ok(v) => v,
        Err(e) => {
            return Err(e);
        },
    };
    let ghost s3 = *a;
    let aux3 = match PlonkChip::multiply_cells(a, c, aux1, aux2) {
        Ok(v) => v,
        Err(e) => {
            return Err(e);
        },
    };
    let ghost s4 = *a;
    match PlonkChip::enforce_cells_to_be_equal(a, c, y, z) {
        Ok(()) => {},
        Err(e) => {
            return Err(e);
        },
    }
    let ghost s5 = *a;
    match PlonkChip::enforce_cells_to_be_equal(a, c, aux3, expected) {
        Ok(()) => {},
        Err(e) => {
            return Err(e);
        },
    }
    let ghost s6 = *a;
    proof {
        lemma_keeps_above_trans(&s1, &s2, &s3, start + 4, start + 5);
        lemma_keeps_above_trans(&s1, &s3, &s4, start + 4, start + 6);
        lemma_keeps_above_trans(&s1, &s4, &s5, start + 4, start + 7);
        lemma_keeps_above_trans(&s1, &s5, &s6, start + 4, start + 8);
        lemma_keeps_above_trans(&s2, &s3, &s4, start + 5, start + 6);
        lemma_keeps_above_trans(&s2, &s4, &s5, start + 5, start + 7);
        lemma_keeps_above_trans(&s2, &s5, &s6, start + 5, start + 8);
        lemma_keeps_above_trans(&s3, &s4, &s5, start + 6, start + 7);
        lemma_keeps_above_trans(&s3, &s5, &s6, start + 6, start + 8);
        lemma_keeps_above_trans(&s4, &s5, &s6, start + 7, start + 8);
        lemma_keeps_above_trans(old(a), &s1, &s6, start, start + 4);
    }
    match PlonkChip::constrain_advice_to_equal_public_input(a, c, 0, x) {
        Ok(()) => {},
        Err(e) => {
            return Err(e);
        },
    }
    match PlonkChip::constrain_advice_to_equal_public_input(a, c, 1, y) {
        Ok(()) => {},
        Err(e) => {
            return Err(e);
        },
    }
    match PlonkChip::constrain_advice_to_equal_public_input(a, c, 2, expected) {
        Ok(()) => {},
        Err(e) => {
            return Err(e);
        },
    }
    proof {
        let rows = circuit_rows(public@[0].val(), public@[1].val(), public@[2].val(), private@[0].val());
        assert(forall|c2: Column, r: int| #[trigger] a.cell(c2, r) == s6.cell(c2, r));
        assert(forall|s: int, r: int| #[trigger] a.selector_on(s, r) == s6.selector_on(s, r));
        let (xv, yv, ev, zv) = (public@[0].val(), public@[1].val(), public@[2].val(), private@[0].val());
        lemma_row_parts(&s1, c, start + 0, rows[0]);
        lemma_row_parts(&s1, c, start + 1, rows[1]);
        lemma_row_parts(&s1, c, start + 2, rows[2]);
        lemma_row_parts(&s1, c, start + 3, rows[3]);
        assert(x == Cell { column: c.a, row: (start + 0) as usize });
        assert(y == Cell { column: c.a, row: (start + 1) as usize });
        assert(expected == Cell { column: c.a, row: (start + 2) as usize });
        assert(z == Cell { column: c.a, row: (start + 3) as usize });
        assert(row_cells(&s2, c, start + 4) =~= rows[4]);
        lemma_row_parts(&s2, c, start + 4, rows[4]);
        assert(s2.cell_value(c.a, start + 3) == s1.cell_value(c.a, start + 3));
        assert(row_cells(&s3, c, start + 5) =~= rows[5]);
        lemma_row_parts(&s3, c, start + 5, rows[5]);
        assert(s3.cell_value(c.c, start + 4) == s2.cell_value(c.c, start + 4));
        assert(row_cells(&s4, c, start + 6) =~= rows[6]);
        lemma_row_parts(&s4, c, start + 6, rows[6]);
        assert(s4.cell_value(c.a, start + 1) == s1.cell_value(c.a, start + 1));
        assert(s4.cell_value(c.a, start + 3) == s1.cell_value(c.a, start + 3));
        assert(row_cells(&s5, c, start + 7) =~= rows[7]);
        assert(s5.cell_value(c.c, start + 6) == s4.cell_value(c.c, start + 6));
        assert(s5.cell_value(c.a, start + 2) == s1.cell_value(c.a, start + 2));
        assert(row_cells(&s6, c, start + 8) =~= rows[8]);
        assert forall|k: int| 0 <= k < 9 implies #[trigger] row_cells(a, c, start + k) == rows[k] by {
            if k < 4 {
                assert(row_cells(&s1, c, start + k) == rows[k]);
                assert(row_cells(a, c, start + k) =~= row_cells(&s1, c, start + k));
            } else if k == 4 {
                assert(row_cells(&s2, c, start + k) =~= rows[k]);
                assert(row_cells(a, c, start + k) =~= row_cells(&s2, c, start + k));
            } else if k == 5 {
                assert(row_cells(&s3, c, start + k) =~= rows[k]);
                assert(row_cells(a, c, start + k) =~= row_cells(&s3, c, start + k));
            } else if k == 6 {
                assert(row_cells(&s4, c, start + k) =~= rows[k]);
                assert(row_cells(a, c, start + k) =~= row_cells(&s4, c, start + k));
            } else if k == 7 {
                assert(row_cells(&s5, c, start + k) =~= rows[k]);
                assert(row_cells(a, c, start + k) =~= row_cells(&s5, c, start + k));
            } else {
                assert(row_cells(&s6, c, start + k) =~= rows[k]);
                assert(row_cells(a, c, start + k) =~= row_cells(&s6, c, start + k));
            }
        }
        assert forall|s: int, k: int| 0 <= k < 9 implies !#[trigger] a.selector_on(s, start + k) by {
            if k < 4 {
                assert(!s1.selector_on(s, start + k));
            } else if k == 4 {
                assert(!s2.selector_on(s, start + 4));
            } else if k == 5 {
                assert(!s3.selector_on(s, start + 5));
            } else if k == 6 {
                assert(!s4.selector_on(s, start + 6));
            } else if k == 7 {
                assert(!s5.selector_on(s, start + 7));
            } else {
                assert(!s6.selector_on(s, start + 8));
            }
        }
        assert(a.copies@ =~= old(a).copies@ + circuit_copies(c, start));
        lemma_keeps_above_trans(old(a), &s6, a, start, start + 9);
    }
    Ok(())
}

} // verus!
