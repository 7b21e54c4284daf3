use plonkish::circuit::{
    Column, ColumnKind, ConfigError, ConstraintSystem, Expr, LookupInput, Selector, TableColumn,
};
use plonkish::field::Fe;
use plonkish::layout::{Assignment, Cell, SynthesisError};
use plonkish::prover::{evaluate, verify, Violation};

fn fe(v: u64) -> Fe {
    Fe::from_u64(v)
}

#[test]
fn field_sum_product_and_negation() {
    assert!(fe(2).add(&fe(3)).equals(&fe(5)));
    assert!(fe(6).mul(&fe(7)).equals(&fe(42)));
    assert!(fe(9).sub(&fe(4)).equals(&fe(5)));
    let minus_one = Fe::one().neg();
    assert!(!minus_one.equals(&Fe::one()));
    assert!(minus_one.add(&Fe::one()).is_zero());
    assert!(minus_one.mul(&minus_one).equals(&Fe::one()));
    assert!(!fe(3).is_zero());
}

#[test]
fn field_encoding_is_little_endian() {
    let bytes = fe(0x0102).to_bytes();
    assert_eq!(bytes[0], 0x02);
    assert_eq!(bytes[1], 0x01);
    assert!(bytes[2..].iter().all(|b| *b == 0));
    let minus_one = Fe::one().neg().to_bytes();
    assert_eq!(minus_one[31], 0x30);
    assert_eq!(minus_one[0], 0x00);
}

#[test]
fn field_wraps_at_the_modulus() {
    let big = fe(u64::MAX);
    let square = big.mul(&big);
    assert!(!square.equals(&fe(1)));
    assert!(square.sub(&square).is_zero());
    let minus_big = big.neg();
    assert!(minus_big.add(&big).is_zero());
}

fn one_advice() -> (ConstraintSystem, Column, Selector) {
    let mut cs = ConstraintSystem::new();
    let s = cs.complex_selector();
    let c = cs.advice_column();
    (cs, c, s)
}

#[test]
fn gate_on_unknown_column_is_refused() {
    let (mut cs, _, s) = one_advice();
    let stray = Column { kind: ColumnKind::Fixed, index: 0 };
    let poly = Expr::product(Expr::selector(s), Expr::query(stray, 0));
    assert_eq!(cs.create_gate("g".to_string(), vec![poly]), Err(ConfigError::UnknownColumn));
    assert_eq!(cs.gates.len(), 0);
}

#[test]
fn gate_on_unknown_selector_is_refused() {
    let (mut cs, c, _) = one_advice();
    let stray = Selector { index: 5, complex: true };
    let poly = Expr::product(Expr::selector(stray), Expr::query(c, 0));
    assert_eq!(cs.create_gate("g".to_string(), vec![poly]), Err(ConfigError::UnknownSelector));
}

#[test]
fn empty_gate_and_lookup_are_refused() {
    let (mut cs, _, _) = one_advice();
    assert_eq!(cs.create_gate("g".to_string(), vec![]), Err(ConfigError::EmptyGate));
    assert_eq!(cs.lookup("l".to_string(), vec![]), Err(ConfigError::EmptyLookup));
}

#[test]
fn simple_selector_serves_one_gate() {
    let mut cs = ConstraintSystem::new();
    let s = cs.selector();
    let c = cs.advice_column();
    let g0 = cs.create_gate("a".to_string(), vec![Expr::product(Expr::selector(s), Expr::query(c, 0))]);
    assert_eq!(g0, Ok(0));
    let g1 = cs.create_gate("b".to_string(), vec![Expr::product(Expr::selector(s), Expr::query(c, 1))]);
    assert_eq!(g1, Err(ConfigError::SimpleSelectorReused));
    let t = cs.lookup_table_column();
    let input = LookupInput { input: Expr::product(Expr::selector(s), Expr::query(c, 0)), table: t };
    assert_eq!(cs.lookup("l".to_string(), vec![input]), Err(ConfigError::SimpleSelectorInLookup));
}

#[test]
fn lookup_on_unknown_table_is_refused() {
    let (mut cs, c, s) = one_advice();
    let input = LookupInput {
        input: Expr::product(Expr::selector(s), Expr::query(c, 0)),
        table: TableColumn { index: 0 },
    };
    assert_eq!(cs.lookup("l".to_string(), vec![input]), Err(ConfigError::UnknownTable));
}

#[test]
fn equality_on_unknown_column_is_refused() {
    let (mut cs, c, _) = one_advice();
    assert_eq!(cs.enable_equality(Column { kind: ColumnKind::Instance, index: 0 }), Err(ConfigError::UnknownColumn));
    assert_eq!(cs.enable_equality(c), Ok(()));
    assert!(cs.is_equality_enabled(c));
}

#[test]
fn region_operations_need_an_open_region() {
    let (cs, c, s) = one_advice();
    let mut a = Assignment::new(cs, 4, vec![]).unwrap();
    assert_eq!(a.assign_advice(c, 0, fe(1)), Err(SynthesisError::NoOpenRegion));
    assert_eq!(a.enable_selector(s, 0), Err(SynthesisError::NoOpenRegion));
    assert_eq!(a.end_region(), Err(SynthesisError::NoOpenRegion));
    a.begin_region().unwrap();
    assert_eq!(a.begin_region(), Err(SynthesisError::RegionAlreadyOpen));
}

#[test]
fn cells_below_the_grid_and_written_twice_are_refused() {
    let (cs, c, s) = one_advice();
    let mut a = Assignment::new(cs, 4, vec![]).unwrap();
    a.begin_region().unwrap();
    assert_eq!(a.assign_advice(c, 4, fe(1)), Err(SynthesisError::OutOfRows));
    assert_eq!(a.enable_selector(s, 7), Err(SynthesisError::OutOfRows));
    assert_eq!(a.assign_advice(c, 3, fe(1)), Ok(Cell { column: c, row: 3 }));
    assert_eq!(a.assign_advice(c, 3, fe(2)), Err(SynthesisError::AlreadyAssigned));
    let fixed = Column { kind: ColumnKind::Fixed, index: 0 };
    assert_eq!(a.assign_fixed(fixed, 0, fe(1)), Err(SynthesisError::UnknownColumn));
    assert_eq!(a.enable_selector(Selector { index: 0, complex: false }, 0), Err(SynthesisError::UnknownSelector));
}

#[test]
fn regions_follow_each_other() {
    let (cs, c, _) = one_advice();
    let mut a = Assignment::new(cs, 16, vec![]).unwrap();
    a.begin_region().unwrap();
    a.assign_advice(c, 2, fe(1)).unwrap();
    a.end_region().unwrap();
    a.begin_region().unwrap();
    let cell = a.assign_advice(c, 0, fe(1)).unwrap();
    a.end_region().unwrap();
    assert_eq!(cell.row, 3);
    assert_eq!(a.regions[0].start, 0);
    assert_eq!(a.regions[0].height, 3);
    assert_eq!(a.regions[1].start, 3);
}

#[test]
fn placement_is_reproducible() {
    let layout = || {
        let (cs, c, _) = one_advice();
        let mut a = Assignment::new(cs, 32, vec![]).unwrap();
        for h in [3usize, 1, 5, 2] {
            a.begin_region().unwrap();
            a.assign_advice(c, h - 1, fe(h as u64)).unwrap();
            a.end_region().unwrap();
        }
        a.regions.iter().map(|r| (r.start, r.height)).collect::<Vec<_>>()
    };
    assert_eq!(layout(), layout());
    assert_eq!(layout(), vec![(0, 3), (3, 1), (4, 5), (9, 2)]);
}

#[test]
fn copy_advice_copies_the_value_and_passes() {
    let (mut cs, c, _) = one_advice();
    cs.enable_equality(c).unwrap();
    let mut a = Assignment::new(cs, 8, vec![]).unwrap();
    a.begin_region().unwrap();
    let src = a.assign_advice(c, 0, fe(42)).unwrap();
    a.end_region().unwrap();
    a.begin_region().unwrap();
    let dst = a.copy_advice(src, c, 1).unwrap();
    a.end_region().unwrap();
    assert_eq!(dst.row, 2);
    assert!(a.get_cell(dst).unwrap().equals(&fe(42)));
    assert_eq!(a.copies.len(), 1);
    assert!(verify(&a).is_empty());
}

#[test]
fn copy_advice_into_column_without_equality_is_refused() {
    let mut cs = ConstraintSystem::new();
    let c = cs.advice_column();
    let d = cs.advice_column();
    cs.enable_equality(c).unwrap();
    let mut a = Assignment::new(cs, 8, vec![]).unwrap();
    a.begin_region().unwrap();
    let src = a.assign_advice(c, 0, fe(42)).unwrap();
    assert_eq!(a.copy_advice(src, d, 1), Err(SynthesisError::NotEqualityEnabled));
    assert_eq!(a.constrain_equal(src, Cell { column: d, row: 1 }), Err(SynthesisError::NotEqualityEnabled));
    assert!(a.get_cell(Cell { column: d, row: 1 }).is_none());
    assert_eq!(a.copies.len(), 0);
}

#[test]
fn public_inputs_must_fit_instance_columns() {
    let mut cs = ConstraintSystem::new();
    let i = cs.instance_column();
    assert!(matches!(Assignment::new(ConstraintSystem::new(), 4, vec![vec![fe(1)]]), Err(SynthesisError::InstanceShape)));
    let a = Assignment::new(cs, 2, vec![vec![fe(1), fe(2)]]).unwrap();
    assert!(a.get_cell(Cell { column: i, row: 1 }).unwrap().equals(&fe(2)));
    let mut cs = ConstraintSystem::new();
    cs.instance_column();
    assert!(matches!(Assignment::new(cs, 2, vec![vec![fe(1), fe(2), fe(3)]]), Err(SynthesisError::InstanceShape)));
}

#[test]
fn evaluation_rotates_and_leaves_unknown_cells_unknown() {
    let (cs, c, s) = one_advice();
    let mut a = Assignment::new(cs, 4, vec![]).unwrap();
    a.begin_region().unwrap();
    a.assign_advice(c, 0, fe(3)).unwrap();
    a.assign_advice(c, 1, fe(5)).unwrap();
    a.enable_selector(s, 0).unwrap();
    let e = Expr::product(Expr::query(c, 0), Expr::query(c, 1));
    assert!(evaluate(&a, &e, 0).unwrap().equals(&fe(15)));
    assert!(evaluate(&a, &e, 1).is_none());
    assert!(evaluate(&a, &Expr::query(c, -1), 1).unwrap().equals(&fe(3)));
    assert!(evaluate(&a, &Expr::query(c, -1), 0).is_none());
    assert!(evaluate(&a, &Expr::selector(s), 0).unwrap().equals(&fe(1)));
    assert!(evaluate(&a, &Expr::selector(s), 1).unwrap().is_zero());
    let d = Expr::difference(Expr::query(c, 0), Expr::constant(fe(3)));
    assert!(evaluate(&a, &d, 0).unwrap().is_zero());
}

#[test]
fn gate_violation_names_gate_and_row_and_value() {
    let (mut cs, c, s) = one_advice();
    let poly = Expr::product(Expr::selector(s), Expr::difference(Expr::query(c, 0), Expr::constant(fe(4))));
    cs.create_gate("four".to_string(), vec![poly]).unwrap();
    let mut a = Assignment::new(cs, 4, vec![]).unwrap();
    a.begin_region().unwrap();
    a.assign_advice(c, 0, fe(4)).unwrap();
    a.assign_advice(c, 1, fe(6)).unwrap();
    a.enable_selector(s, 0).unwrap();
    a.enable_selector(s, 1).unwrap();
    a.end_region().unwrap();
    let report = verify(&a);
    assert_eq!(report.len(), 1);
    match report[0] {
        Violation::Gate { gate, poly, row, value } => {
            assert_eq!((gate, poly, row), (0, 0, 1));
            assert!(value.equals(&fe(2)));
        }
        _ => panic!("expected a gate violation"),
    }
}

#[test]
fn lookup_membership_and_incomplete_tables() {
    let (mut cs, c, s) = one_advice();
    let t = cs.lookup_table_column();
    let u = cs.lookup_table_column();
    let inputs = vec![
        LookupInput { input: Expr::product(Expr::selector(s), Expr::query(c, 0)), table: t },
        LookupInput { input: Expr::product(Expr::selector(s), Expr::query(c, 1)), table: u },
    ];
    cs.lookup("pairs".to_string(), inputs).unwrap();
    let mut a = Assignment::new(cs, 8, vec![]).unwrap();
    for (r, (x, y)) in [(0u64, 0u64), (1, 2), (3, 4)].iter().enumerate() {
        a.assign_table_cell(t, r, fe(*x)).unwrap();
        a.assign_table_cell(u, r, fe(*y)).unwrap();
    }
    assert_eq!(a.assign_table_cell(t, 0, fe(9)), Err(SynthesisError::AlreadyAssigned));
    assert_eq!(a.assign_table_cell(TableColumn { index: 7 }, 0, fe(9)), Err(SynthesisError::UnknownTable));
    a.begin_region().unwrap();
    a.assign_advice(c, 0, fe(1)).unwrap();
    a.assign_advice(c, 1, fe(2)).unwrap();
    a.assign_advice(c, 2, fe(4)).unwrap();
    a.enable_selector(s, 0).unwrap();
    a.enable_selector(s, 1).unwrap();
    a.end_region().unwrap();
    let report = verify(&a);
    assert_eq!(report.len(), 1);
    assert!(matches!(report[0], Violation::Lookup { lookup: 0, row: 1 }));

    a.assign_table_cell(t, 4, fe(2)).unwrap();
    let report = verify(&a);
    assert_eq!(report.len(), 1);
    assert!(matches!(report[0], Violation::IncompleteTable { lookup: 0 }));
}
