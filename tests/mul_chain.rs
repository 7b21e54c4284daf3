use plonkish::layout::SynthesisError;
use plonkish::mul_chain::{mul, unconstrained, MulConfig};
use plonkish::circuit::ConstraintSystem;
use plonkish::field::Fe;
use plonkish::layout::{Assignment, Cell};
use plonkish::mul_chain::{configure, synthesize};
use plonkish::prover::{verify, Violation};

fn run(secret: u64, expected: u64) -> (Assignment, Vec<Violation>) {
    let mut cs = ConstraintSystem::new();
    let config = configure(&mut cs);
    let mut a = Assignment::new(cs, 16, vec![]).unwrap();
    synthesize(&mut a, config, Fe::from_u64(secret), Fe::from_u64(expected)).unwrap();
    let report = verify(&a);
    (a, report)
}

#[test]
fn chain_of_two_reaches_thirty_two() {
    let (a, report) = run(2, 32);
    assert!(report.is_empty());
    let mut cs = ConstraintSystem::new();
    let config = configure(&mut cs);
    let fifth = a.get_cell(Cell { column: config.advice, row: 9 }).unwrap();
    assert!(fifth.equals(&Fe::from_u64(32)));
}

#[test]
fn chain_with_wrong_expected_result_fails_equality() {
    for expected in [0u64, 31, 33, 64] {
        let (_, report) = run(2, expected);
        assert_eq!(report.len(), 1);
        assert!(matches!(report[0], Violation::Equality { copy: 6 }));
    }
}

#[test]
fn chain_of_three_reaches_two_hundred_forty_three() {
    let (_, report) = run(3, 243);
    assert!(report.is_empty());
}

#[test]
fn chain_needs_eleven_rows() {
    let mut cs = ConstraintSystem::new();
    let config = configure(&mut cs);
    let mut a = Assignment::new(cs, 10, vec![]).unwrap();
    assert!(synthesize(&mut a, config, Fe::from_u64(2), Fe::from_u64(32)).is_err());
}

#[test]
fn chain_without_equality_is_refused() {
    let mut cs = ConstraintSystem::new();
    let q_mul = cs.complex_selector();
    let advice = cs.advice_column();
    let config = MulConfig { q_mul, advice };
    let mut a = Assignment::new(cs, 16, vec![]).unwrap();
    assert_eq!(
        synthesize(&mut a, config, Fe::from_u64(2), Fe::from_u64(32)),
        Err(SynthesisError::NotEqualityEnabled)
    );
    assert!(a.regions.is_empty());
}

#[test]
fn multiplication_turns_on_its_first_row_only() {
    let mut cs = ConstraintSystem::new();
    let config = configure(&mut cs);
    let mut a = Assignment::new(cs, 16, vec![]).unwrap();
    let x = unconstrained(&mut a, config, Fe::from_u64(3)).unwrap();
    let p = mul(&mut a, config, x, x).unwrap();
    assert_eq!(p, Cell { column: config.advice, row: 3 });
    assert!(a.get_cell(p).unwrap().equals(&Fe::from_u64(9)));
    let on: Vec<usize> = (0..16).filter(|r| a.selectors[config.q_mul.index * 16 + r]).collect();
    assert_eq!(on, vec![1]);
    assert_eq!(a.copies.len(), 2);
}
