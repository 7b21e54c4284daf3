use plonkish::circuit::ConstraintSystem;
use plonkish::constants::{configure, synthesize};
use plonkish::field::Fe;
use plonkish::layout::Assignment;
use plonkish::prover::{verify, Violation};

fn run(secret: u64) -> Vec<Violation> {
    let mut cs = ConstraintSystem::new();
    let config = configure(&mut cs);
    let mut a = Assignment::new(cs, 1 << 8, vec![]).unwrap();
    synthesize(&mut a, config, Fe::from_u64(secret)).unwrap();
    verify(&a)
}

#[test]
fn secret_equal_to_constant_one_passes() {
    assert!(run(1).is_empty());
}

#[test]
fn secret_other_than_one_fails_copy() {
    let report = run(2);
    assert_eq!(report.len(), 1);
    assert!(matches!(report[0], Violation::Equality { copy: 0 }));
}
