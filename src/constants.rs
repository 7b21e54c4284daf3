//! A witness cell held equal to a constant: the constant sits in a fixed
//! column enabled for equality, and a copy constraint joins the two cells.
use crate::circuit::{neg, prod, q, sum, Column, ColumnKind, ConstraintSystem, Expr, Selector};
use crate::field::Fe;
use crate::layout::{
    lemma_keeps_above_trans, earlier, keeps_above, next_row, Assignment, Cell, CopyConstraint, RegionInfo, SynthesisError,
};
use vstd::prelude::*;

verus! {

#[derive(Clone, Copy, Debug)]
pub struct ConstantConfig {
    pub q_fixed: Selector,
    pub fixed: Column,
    pub advice: Column,
}

/// `q_fixed * (w - c)`, with `w` the advice cell and `c` the fixed one.
pub open spec fn equal_constant_poly(c: ConstantConfig) -> Expr {
    prod(Expr::Selector(c.q_fixed), sum(q(c.advice, 0), neg(q(c.fixed, 0))))
}

pub open spec fn config_valid(cs: &ConstraintSystem, c: ConstantConfig) -> bool {
    &&& c.fixed.kind == ColumnKind::Fixed && cs.has_column(c.fixed)
    &&& c.advice.kind == ColumnKind::Advice && cs.has_column(c.advice)
    &&& cs.has_selector(c.q_fixed)
}

/// Declares a complex selector, a fixed and an advice column, both enabled
/// for equality, and a gate holding `equal_constant_poly`.
pub fn configure(cs: &mut ConstraintSystem) -> (r: ConstantConfig)
    requires
        old(cs).num_advice < usize::MAX,
        old(cs).num_fixed < usize::MAX,
    ensures
        config_valid(final(cs), r),
        final(cs).equality_enabled(r.fixed),
        final(cs).equality_enabled(r.advice),
        final(cs).gates@ == old(cs).gates@.push(final(cs).gates@.last()),
        final(cs).gates@.last().name@ == "equal-constant"@,
        final(cs).gates@.last().polys@ == seq![equal_constant_poly(r)],
        final(cs).lookups@ == old(cs).lookups@,
{
    let q_fixed = cs.complex_selector();
    let fixed = cs.fixed_column();
    let advice = cs.advice_column();
    let _ = cs.enable_equality(advice);
    let _ = cs.enable_equality(fixed);
    let c = ConstantConfig { q_fixed, fixed, advice };
    let poly = Expr::product(Expr::selector(q_fixed), Expr::difference(Expr::query(advice, 0), Expr::query(fixed, 0)));
    let polys = vec![poly];
    proof {
        reveal_with_fuel(ConstraintSystem::expr_valid, 5);
        reveal_with_fuel(crate::circuit::mentions_simple, 5);
        assert(cs.polys_valid(polys@)) by {
            assert(cs.expr_valid(polys@[0]));
        }
        assert(forall|i: int| !#[trigger] crate::circuit::seq_mentions_simple(polys@, i));
    }
    let ghost enabled = *cs;
    let _ = cs.create_gate("equal-constant".to_owned(), polys);
    proof {
        assert(cs.gates@ =~= old(cs).gates@.push(cs.gates@.last()));
        assert(forall|d: Column| #[trigger] cs.equality_enabled(d) == enabled.equality_enabled(d));
    }
    c
}

/// Writes `value` into a region of its own, constrained by nothing.
pub fn unconstrained(a: &mut Assignment, c: ConstantConfig, value: Fe) -> (r: Result<Cell, SynthesisError>)
    requires
        old(a).wf(),
        !old(a).open,
        config_valid(&old(a).cs, c),
    ensures
        final(a).wf(),
        final(a).cs == old(a).cs,
        final(a).rows == old(a).rows,
        r is Ok <==> next_row(old(a).regions@) + 1 <= old(a).rows,
        r matches Err(e) ==> e == SynthesisError::OutOfRows,
        r is Ok ==> {
            let start = next_row(old(a).regions@);
            &&& r->Ok_0 == (Cell { column: c.advice, row: start as usize })
            &&& !final(a).open
            &&& final(a).cell(c.advice, start) == Some(value)
            &&& final(a).cell(c.fixed, start) is None
            &&& forall|s: int| !#[trigger] final(a).selector_on(s, start)
            &&& final(a).regions@ == old(a).regions@.push(RegionInfo { start: start as usize, height: 1 })
            &&& keeps_above(old(a), final(a), start)
            &&& final(a).copies@ == old(a).copies@
        },
{
    let ghost start = next_row(a.regions@);
    let _ = a.begin_region();
    let ghost opened = *a;
    let cell = match a.assign_advice(c.advice, 0, value) {
        Ok(x) => x,
        Err(e) => {
            return Err(e);
        },
    };
    let ghost assigned = *a;
    let _ = a.end_region();
    proof {
        assert(forall|s: int, r: int| #[trigger] a.selector_on(s, r) == old(a).selector_on(s, r));
        assert(forall|c2: Column, r: int| #[trigger] a.cell(c2, r) == assigned.cell(c2, r));
        assert(forall|c2: Column, r: int| #[trigger] opened.cell(c2, r) == old(a).cell(c2, r));
        assert forall|s: int| !#[trigger] a.selector_on(s, start) by {
            assert(!old(a).selector_on(s, start));
        }
        assert(old(a).cell(c.fixed, start) is None);
    }
    Ok(cell)
}

/// Writes `value` into the fixed column in a region of its own and requires
/// `variable` to equal it. Fails with `NotEqualityEnabled`, before laying
/// anything out, when `variable`'s column or the fixed column is not enabled
/// for equality.
pub fn constrain_cell_to_be_equal_to_fixed(a: &mut Assignment, c: ConstantConfig, value: Fe, variable: Cell) -> (r: Result<(), SynthesisError>)
    requires
        old(a).wf(),
        !old(a).open,
        config_valid(&old(a).cs, c),
        earlier(old(a), variable),
    ensures
        final(a).wf(),
        final(a).cs == old(a).cs,
        final(a).rows == old(a).rows,
        ({
            let eq = old(a).cs.equality_enabled(variable.column) && old(a).cs.equality_enabled(c.fixed);
            &&& r is Ok <==> eq && next_row(old(a).regions@) + 1 <= old(a).rows
            &&& r matches Err(e) ==> e == if eq {
                SynthesisError::OutOfRows
            } else {
                SynthesisError::NotEqualityEnabled
            }
            &&& !eq ==> *final(a) == *old(a)
        }),
        r is Ok ==> {
            let start = next_row(old(a).regions@);
            &&& !final(a).open
            &&& final(a).cell(c.fixed, start) == Some(value)
            &&& final(a).cell(c.advice, start) is None
            &&& forall|s: int| !#[trigger] final(a).selector_on(s, start)
            &&& final(a).regions@ == old(a).regions@.push(RegionInfo { start: start as usize, height: 1 })
            &&& keeps_above(old(a), final(a), start)
            &&& final(a).copies@ == old(a).copies@.push(
                CopyConstraint { a: variable, b: Cell { column: c.fixed, row: start as usize } },
            )
        },
{
    if !a.cs.is_equality_enabled(variable.column) || !a.cs.is_equality_enabled(c.fixed) {
        return Err(SynthesisError::NotEqualityEnabled);
    }
    let ghost start = next_row(a.regions@);
    let _ = a.begin_region();
    let ghost opened = *a;
    let fixed_cell = match a.assign_fixed(c.fixed, 0, value) {
        Ok(x) => x,
        Err(e) => {
            return Err(e);
        },
    };
    let ghost assigned = *a;
    match a.constrain_equal(variable, fixed_cell) {
        Ok(()) => {},
        Err(e) => {
            return Err(e);
        },
    }
    let ghost joined = *a;
    let _ = a.end_region();
    proof {
        assert(forall|s: int, r: int| #[trigger] a.selector_on(s, r) == old(a).selector_on(s, r));
        assert(forall|c2: Column, r: int| #[trigger] a.cell(c2, r) == assigned.cell(c2, r));
        assert(forall|c2: Column, r: int| #[trigger] opened.cell(c2, r) == old(a).cell(c2, r));
        assert forall|s: int| !#[trigger] a.selector_on(s, start) by {
            assert(!old(a).selector_on(s, start));
        }
        assert(old(a).cell(c.advice, start) is None);
    }
    Ok(())
}

/// Writes `secret` and requires it to equal the constant one: two rows from
/// the first free one, `secret` in the advice column of the first and one in
/// the fixed column of the second, joined by a copy constraint, with no
/// selector on.
pub fn synthesize(a: &mut Assignment, c: ConstantConfig, secret: Fe) -> (r: Result<(), SynthesisError>)
    requires
        old(a).wf(),
        !old(a).open,
        config_valid(&old(a).cs, c),
    ensures
        final(a).wf(),
        final(a).cs == old(a).cs,
        ({
            let eq = old(a).cs.equality_enabled(c.advice) && old(a).cs.equality_enabled(c.fixed);
            &&& r is Ok <==> eq && next_row(old(a).regions@) + 2 <= old(a).rows
            &&& r matches Err(e) ==> e == if eq {
                SynthesisError::OutOfRows
            } else {
                SynthesisError::NotEqualityEnabled
            }
        }),
        r is Ok ==> {
            let start = next_row(old(a).regions@);
            &&& !final(a).open
            &&& next_row(final(a).regions@) == start + 2
            &&& final(a).cell_value(c.advice, start) == Some(secret.val())
            &&& final(a).cell(c.fixed, start) is None
            &&& final(a).cell_value(c.fixed, start + 1) == Some(1int)
            &&& final(a).cell(c.advice, start + 1) is None
            &&& forall|s: int, k: int| 0 <= k < 2 ==> !#[trigger] final(a).selector_on(s, start + k)
            &&& final(a).copies@ == old(a).copies@.push(CopyConstraint {
                a: Cell { column: c.advice, row: start as usize },
                b: Cell { column: c.fixed, row: (start + 1) as usize },
            })
            &&& keeps_above(old(a), final(a), start)
        },
{
    if !a.cs.is_equality_enabled(c.advice) || !a.cs.is_equality_enabled(c.fixed) {
        return Err(SynthesisError::NotEqualityEnabled);
    }
    let ghost start = next_row(a.regions@);
    let cell = match unconstrained(a, c, secret) {
        Ok(x) => x,
        Err(e) => {
            return Err(e);
        },
    };
    let ghost mid = *a;
    let one = Fe::one();
    match constrain_cell_to_be_equal_to_fixed(a, c, one, cell) {
        Ok(()) => {},
        Err(e) => {
            return Err(e);
        },
    }
    proof {
        assert(a.cell(c.advice, start) == mid.cell(c.advice, start));
        assert(a.cell(c.fixed, start) == mid.cell(c.fixed, start));
        assert forall|s: int, k: int| 0 <= k < 2 implies !#[trigger] a.selector_on(s, start + k) by {
            if k == 0 {
                assert(!mid.selector_on(s, start));
                assert(a.selector_on(s, start) == mid.selector_on(s, start));
            }
        }
        lemma_keeps_above_trans(old(a), &mid, a, start, start + 1);
    }
    Ok(())
}

} // verus!
