//! A column that counts up by one from row to row, checked by
//! `q_enable * (v[i] - v[i + 1] + 1)` on every row but the last.
use crate::circuit::{Column, ColumnKind, ConstraintSystem, Expr, Selector};
use crate::field::Fe;
use crate::layout::{next_row, Assignment, RegionInfo, SynthesisError};
use vstd::prelude::*;

verus! {

#[derive(Clone, Copy, Debug)]
pub struct StepConfig {
    pub q_enable: Selector,
    pub advice: Column,
}

/// `q_enable * (v[i] - v[i + 1] + one)`, for some `one` of value 1.
pub open spec fn step_poly(c: StepConfig, one: Fe) -> Expr {
    Expr::Product(
        Box::new(Expr::Selector(c.q_enable)),
        Box::new(
            Expr::Sum(
                Box::new(
                    Expr::Sum(
                        Box::new(Expr::Query(c.advice, 0)),
                        Box::new(Expr::Negated(Box::new(Expr::Query(c.advice, 1)))),
                    ),
                ),
                Box::new(Expr::Constant(one)),
            ),
        ),
    )
}

/// Declares a complex selector, one advice column and a gate holding `step_poly`.
pub fn configure(cs: &mut ConstraintSystem) -> (r: StepConfig)
    requires
        old(cs).num_advice < usize::MAX,
    ensures
        r.q_enable.index == old(cs).selectors@.len(),
        r.q_enable.complex,
        r.advice == (Column { kind: ColumnKind::Advice, index: old(cs).num_advice }),
        final(cs).selectors@ == old(cs).selectors@.push(true),
        final(cs).num_advice == old(cs).num_advice + 1,
        final(cs).num_fixed == old(cs).num_fixed,
        final(cs).num_instance == old(cs).num_instance,
        final(cs).num_tables == old(cs).num_tables,
        final(cs).gates@.len() == old(cs).gates@.len() + 1,
        final(cs).gates@.drop_last() == old(cs).gates@,
        final(cs).gates@.last().name@ == "step"@,
        exists|one: Fe| one.val() == 1 && final(cs).gates@.last().polys@ == seq![step_poly(r, one)],
        final(cs).lookups@ == old(cs).lookups@,
        final(cs).equality@ == old(cs).equality@,
{
    let q_enable = cs.complex_selector();
    let advice = cs.advice_column();
    let c = StepConfig { q_enable, advice };
    let one = Fe::one();
    let poly = Expr::product(
        Expr::selector(q_enable),
        Expr::sum(Expr::difference(Expr::query(advice, 0), Expr::query(advice, 1)), Expr::constant(one)),
    );
    let polys = vec![poly];
    proof {
        reveal_with_fuel(ConstraintSystem::expr_valid, 8);
        reveal_with_fuel(crate::circuit::mentions_simple, 8);
        assert(cs.expr_valid(polys@[0]));
        assert(cs.polys_valid(polys@));
        assert(forall|i: int| !#[trigger] crate::circuit::seq_mentions_simple(polys@, i));
    }
    let r = cs.create_gate("step".to_owned(), polys);
    proof {
        assert(cs.gates@.drop_last() =~= old(cs).gates@);
        assert(cs.gates@.last().polys@ == seq![step_poly(c, one)]);
    }
    c
}

/// The configuration's columns and selector belong to `cs`.
pub open spec fn config_valid(cs: &ConstraintSystem, c: StepConfig) -> bool {
    &&& c.advice.kind == ColumnKind::Advice
    &&& cs.has_column(c.advice)
    &&& cs.has_selector(c.q_enable)
}

/// Lays `values` down the advice column in one region, one per row, and turns
/// its selector on at every row that has a value below it.
pub fn synthesize(a: &mut Assignment, c: StepConfig, values: &Vec<Fe>) -> (r: Result<(), SynthesisError>)
    requires
        old(a).wf(),
        !old(a).open,
        config_valid(&old(a).cs, c),
    ensures
        final(a).wf(),
        final(a).cs == old(a).cs,
        final(a).rows == old(a).rows,
        final(a).copies@ == old(a).copies@,
        final(a).tables@ == old(a).tables@,
        final(a).table_lens@ == old(a).table_lens@,
        forall|c2: Column, r2: int| c2 != c.advice ==> #[trigger] final(a).cell(c2, r2) == old(a).cell(c2, r2),
        r is Ok <==> next_row(old(a).regions@) + values@.len() <= old(a).rows,
        r matches Err(e) ==> e == SynthesisError::OutOfRows,
        r is Ok ==> {
            let start = next_row(old(a).regions@);
            &&& final(a).regions@ == old(a).regions@.push(
                RegionInfo { start: start as usize, height: values@.len() as usize },
            )
            &&& !final(a).open
            &&& forall|i: int|
                0 <= i < values@.len() ==> #[trigger] final(a).cell(c.advice, start + i) == Some(
                    values@[i],
                )
            &&& forall|s: int, i: int|
                0 <= i < values@.len() ==> (#[trigger] final(a).selector_on(s, start + i) <==> s
                    == c.q_enable.index && i + 1 < values@.len())
            &&& forall|c2: Column, r2: int|
                (r2 < start || c2.kind == ColumnKind::Instance) ==> #[trigger] final(a).cell(c2, r2) == old(a).cell(c2, r2)
            &&& forall|s: int, r2: int| r2 < start ==> #[trigger] final(a).selector_on(s, r2) == old(a).selector_on(s, r2)
        },
{
    let ghost start = next_row(a.regions@);
    match a.begin_region() {
        Ok(()) => {},
        Err(e) => {
            return Err(e);
        },
    }
    let ghost opened = *a;
    proof {
        assert(forall|c2: Column, r2: int| #[trigger] a.cell(c2, r2) == old(a).cell(c2, r2));
        assert(forall|s: int, r2: int| #[trigger] a.selector_on(s, r2) == old(a).selector_on(s, r2));
    }
    let n = values.len();
    let mut i: usize = 0;
    while i < n
        invariant
            a.wf(),
            a.open,
            a.cs == old(a).cs,
            a.rows == old(a).rows,
            a.copies@ == old(a).copies@,
            a.tables@ == old(a).tables@,
            a.table_lens@ == old(a).table_lens@,
            config_valid(&a.cs, c),
            n == values@.len(),
            i <= n,
            start == next_row(old(a).regions@),
            a.regions@ == old(a).regions@.push(RegionInfo { start: start as usize, height: i }),
            start + i <= a.rows,
            forall|j: int| 0 <= j < i ==> #[trigger] a.cell(c.advice, start + j) == Some(values@[j]),
            forall|s: int, j: int|
                0 <= j < n ==> (#[trigger] a.selector_on(s, start + j) <==> s == c.q_enable.index && j < i && j + 1 < n),
            forall|c2: Column, r2: int|
                (r2 < start || c2.kind == ColumnKind::Instance) ==> #[trigger] a.cell(c2, r2) == old(a).cell(c2, r2),
            forall|s: int, r2: int| r2 < start ==> #[trigger] a.selector_on(s, r2) == old(a).selector_on(s, r2),
            forall|c2: Column, r2: int| c2 != c.advice ==> #[trigger] a.cell(c2, r2) == old(a).cell(c2, r2),
        decreases n - i,
    {
        let ghost before = *a;
        assert(a.cell(c.advice, start + i) is None);
        match a.assign_advice(c.advice, i, values[i]) {
            Ok(_) => {},
            Err(e) => {
                return Err(e);
            },
        }
        proof {
            assert forall|j: int| 0 <= j <= i implies #[trigger] a.cell(c.advice, start + j) == Some(values@[j]) by {
                if j < i {
                    assert(before.cell(c.advice, start + j) == Some(values@[j]));
                }
            }
            assert(forall|s: int, r: int| #[trigger] a.selector_on(s, r) == before.selector_on(s, r));
        }
        proof {
            assert(forall|c2: Column, r2: int| c2 != c.advice ==> #[trigger] a.cell(c2, r2) == before.cell(c2, r2));
        }
        let ghost mid = *a;
        if n - i > 1 {
            match a.enable_selector(c.q_enable, i) {
                Ok(()) => {},
                Err(e) => {
                    return Err(e);
                },
            }
            proof {
                assert(mid.current_start() == start);
            }
        }
        proof {
            assert forall|s: int, j: int| 0 <= j < n implies (#[trigger] a.selector_on(s, start + j) <==> s == c.q_enable.index && j < i + 1 && j + 1 < n) by {
                assert(mid.selector_on(s, start + j) == before.selector_on(s, start + j));
                if !(s == c.q_enable.index && j == i) {
                    assert(a.selector_on(s, start + j) == mid.selector_on(s, start + j));
                }
            }
            assert(forall|s: int, r2: int| r2 < start ==> #[trigger] a.selector_on(s, r2) == mid.selector_on(s, r2));
        }
        i = i + 1;
    }
    let ghost before_end = *a;
    match a.end_region() {
        Ok(()) => {},
        Err(e) => {
            return Err(e);
        },
    }
    proof {
        assert(forall|c2: Column, r: int| #[trigger] a.cell(c2, r) == before_end.cell(c2, r));
        assert(forall|s: int, r: int| #[trigger] a.selector_on(s, r) == before_end.selector_on(s, r));
    }
    Ok(())
}

} // verus!
