use plonkish::circuit::ConstraintSystem;
use plonkish::layout::Assignment;
use plonkish::prover::{verify, Violation};
use plonkish::regex::{configure, synthesize, ST_A, ST_B, ST_C, ST_DONE, ST_I};

fn run(text: &str, states: Vec<u64>) -> Vec<Violation> {
    let mut cs = ConstraintSystem::new();
    let config = configure(&mut cs);
    let mut a = Assignment::new(cs, 1 << 8, vec![]).unwrap();
    let text: Vec<char> = text.chars().collect();
    synthesize(&mut a, config, &text, &states).unwrap();
    verify(&a)
}

#[test]
fn main_test_initial_state_1() {
    let report = run("aaabbbc", vec![ST_I, ST_A, ST_A, ST_A, ST_B, ST_B, ST_B, ST_C]);
    assert!(report.is_empty());
}

#[test]
fn main_test_initial_state_2() {
    let report = run("bbbc", vec![ST_I, ST_B, ST_B, ST_B, ST_C]);
    assert!(report.is_empty());
}

#[test]
fn skipping_state_c_fails_transition_lookup() {
    let report = run("aaabbbc", vec![ST_I, ST_A, ST_A, ST_A, ST_B, ST_B, ST_B, ST_DONE]);
    assert_eq!(report.len(), 1);
    assert!(matches!(report[0], Violation::Lookup { lookup: 0, row: 6 }));
}

#[test]
fn text_outside_language_fails() {
    let report = run("abca", vec![ST_I, ST_A, ST_B, ST_C, ST_A]);
    assert!(!report.is_empty());
}
