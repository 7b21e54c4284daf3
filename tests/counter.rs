use plonkish::circuit::ConstraintSystem;
use plonkish::counter::{configure, synthesize};
use plonkish::field::Fe;
use plonkish::layout::Assignment;
use plonkish::prover::{verify, Violation};

fn run(values: &[u64]) -> Vec<Violation> {
    let mut cs = ConstraintSystem::new();
    let config = configure(&mut cs);
    let mut a = Assignment::new(cs, 1 << 8, vec![]).unwrap();
    let values: Vec<Fe> = values.iter().map(|v| Fe::from_u64(*v)).collect();
    synthesize(&mut a, config, &values).unwrap();
    verify(&a)
}

#[test]
fn counting_from_one_to_six_passes() {
    assert!(run(&[1, 2, 3, 4, 5, 6]).is_empty());
}

#[test]
fn skipped_number_fails_its_step() {
    let report = run(&[1, 2, 3, 5, 6, 7]);
    assert_eq!(report.len(), 1);
    match report[0] {
        Violation::Gate { gate, poly, row, value } => {
            assert_eq!((gate, poly, row), (0, 0, 2));
            assert!(value.equals(&Fe::one().neg()));
        }
        _ => panic!("expected a gate violation"),
    }
}
