//! A multiplication chip on one advice column: each product takes a region of
//! three rows, `lhs`, `rhs` and `lhs * rhs`, the factors copied in from
//! earlier cells. The chain `a^2 = a * a`, `a^3 = a^2 * a`, `a^5 = a^3 * a^2` is
//! then held equal to an expected result.
use crate::circuit::{Column, ColumnKind, ConstraintSystem, Expr, Selector};
use crate::field::{mul_mod, mul_opt, Fe};
use crate::layout::{
    lemma_keeps_above_trans, earlier, fe_opt, keeps_above, next_row, Assignment, Cell, CopyConstraint, RegionInfo,
    SynthesisError,
};
use vstd::prelude::*;

verus! {

#[derive(Clone, Copy, Debug)]
pub struct MulConfig {
    pub q_mul: Selector,
    pub advice: Column,
}

/// `q_mul * (w0 * w1 - w2)`, with `w0`, `w1`, `w2` three rows of the column.
pub open spec fn mul_poly(c: MulConfig) -> Expr {
    Expr::Product(
        Box::new(Expr::Selector(c.q_mul)),
        Box::new(
            Expr::Sum(
                Box::new(
                    Expr::Product(
                        Box::new(Expr::Query(c.advice, 0)),
                        Box::new(Expr::Query(c.advice, 1)),
                    ),
                ),
                Box::new(Expr::Negated(Box::new(Expr::Query(c.advice, 2)))),
            ),
        ),
    )
}

/// Declares a complex selector, an advice column enabled for equality and a
/// gate holding `mul_poly`.
pub fn configure(cs: &mut ConstraintSystem) -> (r: MulConfig)
    requires
        old(cs).num_advice < usize::MAX,
    ensures
        r.q_mul.index == old(cs).selectors@.len(),
        r.q_mul.complex,
        r.advice == (Column { kind: ColumnKind::Advice, index: old(cs).num_advice }),
        final(cs).selectors@ == old(cs).selectors@.push(true),
        final(cs).num_advice == old(cs).num_advice + 1,
        final(cs).num_fixed == old(cs).num_fixed,
        final(cs).num_instance == old(cs).num_instance,
        final(cs).num_tables == old(cs).num_tables,
        final(cs).gates@.drop_last() == old(cs).gates@,
        final(cs).gates@.len() == old(cs).gates@.len() + 1,
        final(cs).gates@.last().name@ == "vertical-mul"@,
        final(cs).gates@.last().polys@ == seq![mul_poly(r)],
        final(cs).lookups@ == old(cs).lookups@,
        forall|d: Column| final(cs).equality_enabled(d) <==> old(cs).equality_enabled(d) || d == r.advice,
{
    let q_mul = cs.complex_selector();
    let advice = cs.advice_column();
    let e = cs.enable_equality(advice);
    assert(e is Ok);
    let ghost enabled = *cs;
    let c = MulConfig { q_mul, advice };
    let poly = Expr::product(
        Expr::selector(q_mul),
        Expr::difference(
            Expr::product(Expr::query(advice, 0), Expr::query(advice, 1)),
            Expr::query(advice, 2),
        ),
    );
    let polys = vec![poly];
    proof {
        reveal_with_fuel(ConstraintSystem::expr_valid, 8);
        reveal_with_fuel(crate::circuit::mentions_simple, 8);
        assert(cs.expr_valid(polys@[0]));
        assert(cs.polys_valid(polys@));
        assert(forall|i: int| !#[trigger] crate::circuit::seq_mentions_simple(polys@, i));
    }
    let _ = cs.create_gate("vertical-mul".to_owned(), polys);
    proof {
        assert(cs.gates@.drop_last() =~= old(cs).gates@);
        assert forall|d: Column| cs.equality_enabled(d) <==> old(cs).equality_enabled(d) || d == c.advice by {
            assert(cs.equality_enabled(d) == enabled.equality_enabled(d));
        }
    }
    c
}

pub open spec fn config_valid(cs: &ConstraintSystem, c: MulConfig) -> bool {
    &&& c.advice.kind == ColumnKind::Advice
    &&& cs.has_column(c.advice)
    &&& cs.has_selector(c.q_mul)
}

/// Writes `value` into a region of its own, constrained by nothing.
pub fn unconstrained(a: &mut Assignment, c: MulConfig, value: Fe) -> (r: Result<Cell, SynthesisError>)
    requires
        old(a).wf(),
        !old(a).open,
        config_valid(&old(a).cs, c),
    ensures
        final(a).wf(),
        final(a).cs == old(a).cs,
        final(a).rows == old(a).rows,
        r is Ok <==> next_row(old(a).regions@) + 1 <= old(a).rows,
        r matches Err(e) ==> e == SynthesisError::OutOfRows,
        r is Ok ==> {
            let start = next_row(old(a).regions@);
            &&& r->Ok_0 == (Cell { column: c.advice, row: start as usize })
            &&& !final(a).open
            &&& final(a).cell(c.advice, start) == Some(value)
            &&& forall|s: int| !#[trigger] final(a).selector_on(s, start)
            &&& final(a).regions@ == old(a).regions@.push(RegionInfo { start: start as usize, height: 1 })
            &&& keeps_above(old(a), final(a), start)
            &&& final(a).copies@ == old(a).copies@
        },
{
    let ghost start = next_row(a.regions@);
    let _ = a.begin_region();
    let ghost opened = *a;
    let cell = match a.assign_advice(c.advice, 0, value) {
        Ok(x) => x,
        Err(e) => {
            return Err(e);
        },
    };
    let ghost assigned = *a;
    let _ = a.end_region();
    proof {
        assert(forall|s: int, r: int| #[trigger] a.selector_on(s, r) == old(a).selector_on(s, r));
        assert(forall|c2: Column, r: int| #[trigger] a.cell(c2, r) == assigned.cell(c2, r));
        assert(forall|c2: Column, r: int| #[trigger] opened.cell(c2, r) == old(a).cell(c2, r));
        assert forall|s: int| !#[trigger] a.selector_on(s, start) by {
            assert(!old(a).selector_on(s, start));
        }
    }
    Ok(cell)
}

/// Multiplies two cells of earlier regions: copies them to the first two rows
/// of a new region, writes their product (when both are known) to the third,
/// and turns `q_mul` on at its first row. Returns the product's cell. Fails
/// with `NotEqualityEnabled`, before laying anything out, when a factor's
/// column or the advice column is not enabled for equality.
pub fn mul(a: &mut Assignment, c: MulConfig, lhs: Cell, rhs: Cell) -> (r: Result<Cell, SynthesisError>)
    requires
        old(a).wf(),
        !old(a).open,
        config_valid(&old(a).cs, c),
        earlier(old(a), lhs),
        earlier(old(a), rhs),
    ensures
        final(a).wf(),
        final(a).cs == old(a).cs,
        final(a).rows == old(a).rows,
        ({
            let eq = old(a).cs.equality_enabled(lhs.column) && old(a).cs.equality_enabled(rhs.column)
                && old(a).cs.equality_enabled(c.advice);
            &&& r is Ok <==> eq && next_row(old(a).regions@) + 3 <= old(a).rows
            &&& r matches Err(e) ==> e == if eq {
                SynthesisError::OutOfRows
            } else {
                SynthesisError::NotEqualityEnabled
            }
            &&& !eq ==> *final(a) == *old(a)
        }),
        r is Ok ==> {
            let start = next_row(old(a).regions@);
            &&& r->Ok_0 == (Cell { column: c.advice, row: (start + 2) as usize })
            &&& !final(a).open
            &&& final(a).cell_value(c.advice, start) == old(a).cell_value(lhs.column, lhs.row as int)
            &&& final(a).cell_value(c.advice, start + 1) == old(a).cell_value(rhs.column, rhs.row as int)
            &&& final(a).cell_value(c.advice, start + 2) == mul_opt(
                old(a).cell_value(lhs.column, lhs.row as int),
                old(a).cell_value(rhs.column, rhs.row as int),
            )
            &&& forall|s: int, k: int| 0 <= k < 3 ==> (#[trigger] final(a).selector_on(s, start + k) <==> s
                == c.q_mul.index && k == 0)
            &&& final(a).regions@ == old(a).regions@.push(RegionInfo { start: start as usize, height: 3 })
            &&& keeps_above(old(a), final(a), start)
            &&& final(a).copies@ == old(a).copies@.push(
                CopyConstraint { a: lhs, b: Cell { column: c.advice, row: start as usize } },
            ).push(CopyConstraint { a: rhs, b: Cell { column: c.advice, row: (start + 1) as usize } })
        },
{
    if !a.cs.is_equality_enabled(lhs.column) || !a.cs.is_equality_enabled(rhs.column)
        || !a.cs.is_equality_enabled(c.advice) {
        return Err(SynthesisError::NotEqualityEnabled);
    }
    let ghost start = next_row(a.regions@);
    let _ = a.begin_region();
    let ghost s0 = *a;
    let w0 = match a.copy_advice(lhs, c.advice, 0) {
        Ok(x) => x,
        Err(e) => {
            return Err(e);
        },
    };
    let ghost s1 = *a;
    let w1 = match a.copy_advice(rhs, c.advice, 1) {
        Ok(x) => x,
        Err(e) => {
            return Err(e);
        },
    };
    let ghost s2 = *a;
    let x = a.get_cell(w0);
    let y = a.get_cell(w1);
    let w2 = Cell { column: c.advice, row: w1.row + 1 };
    proof {
        assert(next_row(s2.regions@) == start + 2);
        assert(s2.cell(c.advice, start + 2) is None);
        assert(fe_opt(x) == old(a).cell_value(lhs.column, lhs.row as int));
        assert(fe_opt(y) == old(a).cell_value(rhs.column, rhs.row as int));
    }
    match (x, y) {
        (Some(u), Some(v)) => {
            let p = u.mul(&v);
            match a.assign_advice(c.advice, 2, p) {
                Ok(_) => {},
                Err(e) => {
                    return Err(e);
                },
            }
            assert(a.cell(c.advice, start + 2) == Some(p));
        },
        _ => {
            match a.reserve(2) {
                Ok(()) => {},
                Err(e) => {
                    return Err(e);
                },
            }
        },
    }
    let ghost s3 = *a;
    let _ = a.enable_selector(c.q_mul, 0);
    let ghost s4 = *a;
    let _ = a.end_region();
    proof {
        assert(forall|c2: Column, r: int| #[trigger] a.cell(c2, r) == s4.cell(c2, r));
        assert(forall|s: int, r: int| #[trigger] a.selector_on(s, r) == s4.selector_on(s, r));
        assert(forall|c2: Column, r: int| #[trigger] s0.cell(c2, r) == old(a).cell(c2, r));
        assert(forall|s: int, r: int| #[trigger] s0.selector_on(s, r) == old(a).selector_on(s, r));
        assert(forall|s: int, r: int| #[trigger] s1.selector_on(s, r) == s0.selector_on(s, r));
        assert(forall|s: int, r: int| #[trigger] s2.selector_on(s, r) == s1.selector_on(s, r));
        assert(forall|s: int, r: int| #[trigger] s3.selector_on(s, r) == s2.selector_on(s, r));
        assert(forall|c2: Column, r: int| #[trigger] s3.cell(c2, r) == s2.cell(c2, r) || (c2 == c.advice && r == start + 2));
        assert(s1.cell(c.advice, start) == old(a).cell(lhs.column, lhs.row as int));
        assert(s2.cell(c.advice, start) == s1.cell(c.advice, start));
        assert(s2.cell(c.advice, start + 1) == old(a).cell(rhs.column, rhs.row as int));
        assert(a.cell_value(c.advice, start) == old(a).cell_value(lhs.column, lhs.row as int));
        assert(a.cell_value(c.advice, start + 1) == old(a).cell_value(rhs.column, rhs.row as int));
        assert forall|s: int, k: int| 0 <= k < 3 implies (#[trigger] a.selector_on(s, start + k) <==> s
            == c.q_mul.index && k == 0) by {
            assert(!old(a).selector_on(s, start + k));
            if !(s == c.q_mul.index && k == 0) {
                assert(s4.selector_on(s, start + k) == s3.selector_on(s, start + k));
            }
        }
        assert(a.regions@ == old(a).regions@.push(RegionInfo { start: start as usize, height: 3 }));
        assert(keeps_above(old(a), a, start));
    }
    Ok(w2)
}

/// `v^5`, computed as the chain does it: `v^2 = v * v`, `v^3 = v^2 * v`,
/// `v^5 = v^3 * v^2`.
pub open spec fn fifth_power(v: int) -> int {
    let v2 = mul_mod(v, v);
    let v3 = mul_mod(v2, v);
    mul_mod(v3, v2)
}

/// The value of row `k` of the chain laid out from `v` with expected result
/// `e`: `v`; the region `v * v = v^2`; the region `v^2 * v = v^3`; the region
/// `v^3 * v^2 = v^5`; `e`.
pub open spec fn chain_row(v: int, e: int, k: int) -> int {
    let v2 = mul_mod(v, v);
    let v3 = mul_mod(v2, v);
    seq![v, v, v, v2, v2, v, v3, v3, v2, fifth_power(v), e][k]
}

/// The copy constraint from row `i` to row `j` of the chain.
pub open spec fn chain_copy(c: MulConfig, start: int, i: int, j: int) -> CopyConstraint {
    CopyConstraint {
        a: Cell { column: c.advice, row: (start + i) as usize },
        b: Cell { column: c.advice, row: (start + j) as usize },
    }
}

/// The copy constraints the chain adds: the factors of each product, then the
/// result held equal to the expected one.
pub open spec fn chain_copies(c: MulConfig, start: int) -> Seq<CopyConstraint> {
    seq![
        chain_copy(c, start, 0, 1),
        chain_copy(c, start, 0, 2),
        chain_copy(c, start, 3, 4),
        chain_copy(c, start, 0, 5),
        chain_copy(c, start, 6, 7),
        chain_copy(c, start, 3, 8),
        chain_copy(c, start, 9, 10),
    ]
}

/// Lays out the chain from `secret` to its fifth power, then `expected` in a
/// region of its own, and requires the two to be equal: eleven rows from the
/// first free one, holding `chain_row`, with `q_mul` on at rows 1, 4 and 7
/// of them and no other selector on.
pub fn synthesize(a: &mut Assignment, c: MulConfig, secret: Fe, expected: Fe) -> (r: Result<(), SynthesisError>)
    requires
        old(a).wf(),
        !old(a).open,
        config_valid(&old(a).cs, c),
    ensures
        final(a).wf(),
        final(a).cs == old(a).cs,
        r is Ok <==> old(a).cs.equality_enabled(c.advice) && next_row(old(a).regions@) + 11 <= old(a).rows,
        r matches Err(e) ==> e == if old(a).cs.equality_enabled(c.advice) {
            SynthesisError::OutOfRows
        } else {
            SynthesisError::NotEqualityEnabled
        },
        r is Ok ==> {
            let start = next_row(old(a).regions@);
            &&& !final(a).open
            &&& next_row(final(a).regions@) == start + 11
            &&& forall|k: int| 0 <= k < 11 ==> #[trigger] final(a).cell_value(c.advice, start + k) == Some(
                chain_row(secret.val(), expected.val(), k),
            )
            &&& forall|s: int, k: int| 0 <= k < 11 ==> (#[trigger] final(a).selector_on(s, start + k) <==> s
                == c.q_mul.index && (k == 1 || k == 4 || k == 7))
            &&& final(a).copies@ == old(a).copies@ + chain_copies(c, start)
            &&& keeps_above(old(a), final(a), start)
        },
{
    if !a.cs.is_equality_enabled(c.advice) {
        return Err(SynthesisError::NotEqualityEnabled);
    }
    let ghost start = next_row(a.regions@);
    let x = match unconstrained(a, c, secret) {
        Ok(x) => x,
        Err(e) => {
            return Err(e);
        },
    };
    let ghost s1 = *a;
    let x2 = match crate::mul_chain::mul(a, c, x, x) {
        Ok(y) => y,
        Err(e) => {
            return Err(e);
        },
    };
    let ghost s2 = *a;
    let x3 = match crate::mul_chain::mul(a, c, x2, x) {
        Ok(y) => y,
        Err(e) => {
            return Err(e);
        },
    };
    let ghost s3 = *a;
    let x5 = match crate::mul_chain::mul(a, c, x3, x2) {
        Ok(y) => y,
        Err(e) => {
            return Err(e);
        },
    };
    let ghost s4 = *a;
    let e = match unconstrained(a, c, expected) {
        Ok(y) => y,
        Err(e) => {
            return Err(e);
        },
    };
    let ghost s5 = *a;
    match a.constrain_equal(x5, e) {
        Ok(()) => {},
        Err(e) => {
            return Err(e);
        },
    }
    proof {
        let v = secret.val();
        lemma_keeps_above_trans(old(a), &s1, &s2, start, start + 1);
        lemma_keeps_above_trans(old(a), &s2, &s3, start, start + 4);
        lemma_keeps_above_trans(old(a), &s3, &s4, start, start + 7);
        lemma_keeps_above_trans(old(a), &s4, &s5, start, start + 10);
        lemma_keeps_above_trans(&s1, &s2, &s3, start + 1, start + 4);
        lemma_keeps_above_trans(&s1, &s3, &s4, start + 1, start + 7);
        lemma_keeps_above_trans(&s1, &s4, &s5, start + 1, start + 10);
        lemma_keeps_above_trans(&s2, &s3, &s4, start + 4, start + 7);
        lemma_keeps_above_trans(&s2, &s4, &s5, start + 4, start + 10);
        lemma_keeps_above_trans(&s3, &s4, &s5, start + 7, start + 10);
        assert(forall|c2: Column, r: int| #[trigger] a.cell(c2, r) == s5.cell(c2, r));
        assert(forall|s: int, r: int| #[trigger] a.selector_on(s, r) == s5.selector_on(s, r));
        assert(s1.cell_value(c.advice, start) == Some(v));
        assert(s2.cell_value(c.advice, start) == Some(v));
        assert(s2.cell_value(c.advice, start + 3) == Some(mul_mod(v, v)));
        assert(s3.cell_value(c.advice, start + 3) == Some(mul_mod(v, v)));
        assert(s3.cell_value(c.advice, start + 6) == Some(mul_mod(mul_mod(v, v), v)));
        assert forall|k: int| 0 <= k < 11 implies #[trigger] a.cell_value(c.advice, start + k) == Some(
            chain_row(v, expected.val(), k)) by {
            if k == 0 {
                assert(s1.cell_value(c.advice, start) == Some(v));
            } else if k < 4 {
                assert(s2.cell_value(c.advice, start + k) == Some(chain_row(v, expected.val(), k)));
            } else if k < 7 {
                assert(s3.cell_value(c.advice, start + k) == Some(chain_row(v, expected.val(), k)));
            } else if k < 10 {
                assert(s4.cell_value(c.advice, start + k) == Some(chain_row(v, expected.val(), k)));
            }
        }
        assert forall|s: int, k: int| 0 <= k < 11 implies (#[trigger] a.selector_on(s, start + k) <==> s
            == c.q_mul.index && (k == 1 || k == 4 || k == 7)) by {
            if k == 0 {
                assert(!s1.selector_on(s, start));
            } else if k < 4 {
                assert(s2.selector_on(s, start + 1 + (k - 1)) == (s == c.q_mul.index && k == 1));
            } else if k < 7 {
                assert(s3.selector_on(s, start + 4 + (k - 4)) == (s == c.q_mul.index && k == 4));
            } else if k < 10 {
                assert(s4.selector_on(s, start + 7 + (k - 7)) == (s == c.q_mul.index && k == 7));
            } else {
                assert(!s5.selector_on(s, start + 10));
            }
        }
        assert(a.copies@ =~= old(a).copies@ + chain_copies(c, start));
        lemma_keeps_above_trans(old(a), &s5, a, start, start + 11);
    }
    Ok(())
}

} // verus!
