use plonkish::layout::{Cell, SynthesisError};
use plonkish::plonk::{unconstrained, PlonkChip, PlonkConfig};
use plonkish::circuit::ConstraintSystem;
use plonkish::field::Fe;
use plonkish::layout::Assignment;
use plonkish::plonk::{configure, synthesize};
use plonkish::prover::{verify, Violation};

fn fes(v: &[u64]) -> Vec<Fe> {
    v.iter().map(|x| Fe::from_u64(*x)).collect()
}

fn run(public: &[u64], private: &[u64]) -> Vec<Violation> {
    let mut cs = ConstraintSystem::new();
    let config = configure(&mut cs);
    let mut a = Assignment::new(cs, 16, vec![fes(public)]).unwrap();
    synthesize(&mut a, config, &fes(public), &fes(private)).unwrap();
    verify(&a)
}

#[test]
fn public_inputs_one_two_eight_pass() {
    assert!(run(&[1, 2, 8], &[2]).is_empty());
}

#[test]
fn private_input_three_breaks_y_equals_z() {
    let report = run(&[1, 2, 8], &[3]);
    assert!(report
        .iter()
        .any(|v| matches!(v, Violation::Gate { gate: 0, poly: 0, row: 7, .. })));
    assert!(report.iter().all(|v| matches!(v, Violation::Gate { .. })));
}

#[test]
fn instance_value_differs_from_circuit_input() {
    let mut cs = ConstraintSystem::new();
    let config = configure(&mut cs);
    let mut a = Assignment::new(cs, 16, vec![fes(&[1, 2, 9])]).unwrap();
    synthesize(&mut a, config, &fes(&[1, 2, 8]), &fes(&[2])).unwrap();
    let report = verify(&a);
    assert_eq!(report.len(), 1);
    assert!(matches!(report[0], Violation::Equality { .. }));
}

#[test]
fn constant_row_is_pinned_by_the_gate() {
    let mut cs = ConstraintSystem::new();
    let config = configure(&mut cs);
    let mut a = Assignment::new(cs, 16, vec![vec![]]).unwrap();
    let cell = PlonkChip::new_constant_cell(&mut a, config, Fe::from_u64(5)).unwrap();
    assert!(a.get_cell(cell).unwrap().equals(&Fe::from_u64(5)));
    assert!(a.get_cell(Cell { column: config.a, row: 0 }).unwrap().is_zero());
    assert!(a.get_cell(Cell { column: config.b, row: 0 }).unwrap().is_zero());
    assert!(verify(&a).is_empty());
}

#[test]
fn chip_row_without_equality_is_refused() {
    let mut cs = ConstraintSystem::new();
    let a_col = cs.advice_column();
    let b_col = cs.advice_column();
    let c_col = cs.advice_column();
    let pi = cs.instance_column();
    let chip = PlonkChip::new_for_advices(&mut cs, pi, a_col, b_col, c_col);
    let config = PlonkConfig { plonk_chip: chip, pi, a: a_col, b: b_col, c: c_col };
    let mut a = Assignment::new(cs, 16, vec![vec![]]).unwrap();
    let x = unconstrained(&mut a, config, Fe::from_u64(2)).unwrap();
    assert_eq!(PlonkChip::multiply_cells(&mut a, config, x, x), Err(SynthesisError::NotEqualityEnabled));
    assert_eq!(a.regions.len(), 1);
    assert!(a.get_cell(Cell { column: a_col, row: 1 }).is_none());
}
