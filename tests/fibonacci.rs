use plonkish::circuit::ConstraintSystem;
use plonkish::fibonacci::{configure, synthesize};
use plonkish::field::Fe;
use plonkish::layout::Assignment;
use plonkish::prover::{verify, Violation};

fn run(values: &[u64]) -> Vec<Violation> {
    let mut cs = ConstraintSystem::new();
    let config = configure(&mut cs);
    let mut a = Assignment::new(cs, 16, vec![]).unwrap();
    let values: Vec<Fe> = values.iter().map(|v| Fe::from_u64(*v)).collect();
    synthesize(&mut a, config, &values).unwrap();
    verify(&a)
}

#[test]
fn fibonacci_ten_steps_pass() {
    let report = run(&[0, 1, 1, 2, 3, 5, 8, 13, 21, 34]);
    assert!(report.is_empty());
}

#[test]
fn fibonacci_wrong_last_value_fails_last_gate_instance() {
    let report = run(&[0, 1, 1, 2, 3, 5, 8, 13, 21, 35]);
    assert_eq!(report.len(), 1);
    match report[0] {
        Violation::Gate { gate, poly, row, value } => {
            assert_eq!((gate, poly, row), (0, 0, 7));
            assert!(value.equals(&Fe::one()));
        }
        _ => panic!("expected a gate violation"),
    }
}

#[test]
fn fibonacci_too_many_values_for_grid() {
    let mut cs = ConstraintSystem::new();
    let config = configure(&mut cs);
    let mut a = Assignment::new(cs, 8, vec![]).unwrap();
    let values: Vec<Fe> = (0..10u64).map(Fe::from_u64).collect();
    assert!(synthesize(&mut a, config, &values).is_err());
}
