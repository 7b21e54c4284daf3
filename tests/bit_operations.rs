use plonkish::bit_operations::{configure, synthesize, ExampleRow};
use plonkish::circuit::ConstraintSystem;
use plonkish::field::Fe;
use plonkish::layout::Assignment;
use plonkish::prover::{verify, Violation};

fn row(advice: u64, bits: [u64; 8]) -> ExampleRow {
    ExampleRow { advice: Fe::from_u64(advice), bits: bits.map(Fe::from_u64) }
}

fn run(rows: [ExampleRow; 3]) -> Vec<Violation> {
    let mut cs = ConstraintSystem::new();
    let config = configure(&mut cs);
    let mut a = Assignment::new(cs, 256, vec![]).unwrap();
    synthesize(&mut a, config, &rows).unwrap();
    verify(&a)
}

#[test]
fn test_should_xor_and_decompose_correctly() {
    let report = run([
        row(7, [1, 1, 1, 0, 0, 0, 0, 0]),
        row(8, [0, 0, 0, 1, 0, 0, 0, 0]),
        row(15, [1, 1, 1, 1, 0, 0, 0, 0]),
    ]);
    assert!(report.is_empty());
}

#[test]
fn non_boolean_bit_fails_booleanity_gate_only() {
    let report = run([
        row(11, [1, 1, 2, 0, 0, 0, 0, 0]),
        row(8, [0, 0, 0, 1, 0, 0, 0, 0]),
        row(15, [1, 1, 1, 1, 0, 0, 0, 0]),
    ]);
    assert!(report
        .iter()
        .any(|v| matches!(v, Violation::Gate { gate: 1, poly: 2, row: 0, .. })));
    assert!(!report.iter().any(|v| matches!(v, Violation::Gate { gate: 1, poly: 8, .. })));
    assert!(!report.iter().any(|v| matches!(v, Violation::Lookup { .. })));
}

#[test]
fn value_out_of_byte_range_fails_lookup() {
    let report = run([
        row(256, [0, 0, 0, 0, 0, 0, 0, 0]),
        row(8, [0, 0, 0, 1, 0, 0, 0, 0]),
        row(8, [0, 0, 0, 1, 0, 0, 0, 0]),
    ]);
    assert!(report.iter().any(|v| matches!(v, Violation::Lookup { lookup: 0, row: 0 })));
    assert!(report.iter().any(|v| matches!(v, Violation::Gate { gate: 1, poly: 8, row: 0, .. })));
}

#[test]
fn wrong_xor_result_fails_xor_gate() {
    let report = run([
        row(7, [1, 1, 1, 0, 0, 0, 0, 0]),
        row(8, [0, 0, 0, 1, 0, 0, 0, 0]),
        row(7, [1, 1, 1, 0, 0, 0, 0, 0]),
    ]);
    assert_eq!(report.len(), 1);
    assert!(matches!(report[0], Violation::Gate { gate: 0, poly: 3, row: 0, .. }));
}

#[test]
fn byte_table_needs_two_hundred_fifty_six_rows() {
    let mut cs = ConstraintSystem::new();
    let config = configure(&mut cs);
    let mut a = Assignment::new(cs, 128, vec![]).unwrap();
    let rows = [row(1, [1, 0, 0, 0, 0, 0, 0, 0]); 3];
    assert!(synthesize(&mut a, config, &rows).is_err());
}
