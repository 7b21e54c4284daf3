//! Bytes held as a value and its eight bits: a gate forces every bit to be 0
//! or 1 and the bits to add up to the value, a lookup holds the value to the
//! range `0..256`, and a second gate relates the bits of three rows by XOR.
use crate::circuit::{neg, prod, q, sum, Column, ColumnKind, ConstraintSystem, Expr, LookupInput, Selector, TableColumn};
use crate::field::Fe;
use crate::layout::{
    next_row, same_but_tables, set_table_value, table_empty, table_value, Assignment, RegionInfo,
    SynthesisError,
};
use vstd::prelude::*;

verus! {

#[derive(Clone, Copy, Debug)]
pub struct U8Chip {
    pub bits: [Column; 8],
    pub t_selector: TableColumn,
    pub t_left: TableColumn,
    pub t_right: TableColumn,
    pub t_result: TableColumn,
    pub t_range: TableColumn,
    pub q_decomposed: Selector,
    pub q_xor: Selector,
}

#[derive(Clone, Copy, Debug)]
pub struct BitsConfig {
    pub advice: Column,
    pub u8_chip: U8Chip,
}

/// A value and its bits, least significant first.
#[derive(Clone, Copy, Debug)]
pub struct ExampleRow {
    pub advice: Fe,
    pub bits: [Fe; 8],
}

/// `q_xor * (l * l + r * r - two * l * r - x)` for bit `i`, with `l`, `r`, `x`
/// the bit on three consecutive rows: zero exactly when `x = l XOR r` for
/// bits.
pub open spec fn xor_poly(c: U8Chip, i: int, two: Fe) -> Expr {
    let l = q(c.bits[i], 0);
    let r = q(c.bits[i], 1);
    let x = q(c.bits[i], 2);
    prod(
        Expr::Selector(c.q_xor),
        sum(
            sum(sum(prod(l, l), prod(r, r)), neg(prod(prod(Expr::Constant(two), l), r))),
            neg(x),
        ),
    )
}

/// `q_decomposed * b * (b - one)` for bit `i`: zero exactly when `b` is 0 or 1.
pub open spec fn bool_poly(c: U8Chip, i: int, one: Fe) -> Expr {
    let b = q(c.bits[i], 0);
    prod(prod(Expr::Selector(c.q_decomposed), b), sum(b, neg(Expr::Constant(one))))
}

/// `advice - b0 * pows[0] - ... - b(n-1) * pows[n-1]`.
pub open spec fn partial_sum(c: BitsConfig, n: int, pows: Seq<Fe>) -> Expr
    decreases n,
{
    if n <= 0 {
        q(c.advice, 0)
    } else {
        sum(
            partial_sum(c, n - 1, pows),
            neg(prod(q(c.u8_chip.bits[n - 1], 0), Expr::Constant(pows[n - 1]))),
        )
    }
}

pub open spec fn decompose_poly(c: BitsConfig, pows: Seq<Fe>) -> Expr {
    prod(Expr::Selector(c.u8_chip.q_decomposed), partial_sum(c, 8, pows))
}

/// The bits of the chip are advice columns of `cs`, its selectors complex
/// selectors of `cs`, its tables table columns of `cs`.
pub open spec fn chip_valid(cs: &ConstraintSystem, c: BitsConfig) -> bool {
    let k = c.u8_chip;
    &&& c.advice.kind == ColumnKind::Advice && cs.has_column(c.advice)
    &&& forall|i: int| 0 <= i < 8 ==> (#[trigger] k.bits[i]).kind == ColumnKind::Advice && cs.has_column(k.bits[i])
    &&& forall|i: int, j: int| 0 <= i < j < 8 ==> (#[trigger] k.bits[i]).index != (#[trigger] k.bits[j]).index
    &&& forall|i: int| 0 <= i < 8 ==> (#[trigger] k.bits[i]).index != c.advice.index
    &&& cs.has_selector(k.q_decomposed) && k.q_decomposed.complex
    &&& cs.has_selector(k.q_xor) && k.q_xor.complex
    &&& k.q_decomposed.index != k.q_xor.index
    &&& k.t_range.index < cs.num_tables && k.t_selector.index < cs.num_tables
    &&& k.t_left.index < cs.num_tables && k.t_right.index < cs.num_tables
    &&& k.t_result.index < cs.num_tables
    &&& k.t_range.index != k.t_selector.index && k.t_range.index != k.t_left.index
        && k.t_range.index != k.t_right.index && k.t_range.index != k.t_result.index
        && k.t_selector.index != k.t_left.index && k.t_selector.index != k.t_right.index
        && k.t_selector.index != k.t_result.index && k.t_left.index != k.t_right.index
        && k.t_left.index != k.t_result.index && k.t_right.index != k.t_result.index
}

proof fn lemma_partial_sum_valid(cs: &ConstraintSystem, c: BitsConfig, n: int, pows: Seq<Fe>)
    requires
        chip_valid(cs, c),
        0 <= n <= 8,
    ensures
        cs.expr_valid(partial_sum(c, n, pows)),
        forall|s: int| !#[trigger] crate::circuit::mentions_simple(partial_sum(c, n, pows), s),
    decreases n,
{
    reveal_with_fuel(ConstraintSystem::expr_valid, 4);
    reveal_with_fuel(crate::circuit::mentions_simple, 4);
    if n > 0 {
        lemma_partial_sum_valid(cs, c, n - 1, pows);
        assert(cs.has_column(c.u8_chip.bits[n - 1]));
        assert forall|s: int| !#[trigger] crate::circuit::mentions_simple(partial_sum(c, n, pows), s) by {
            assert(!crate::circuit::mentions_simple(partial_sum(c, n - 1, pows), s));
        }
    }
}

/// The weights of the bits.
pub open spec fn weight(i: int) -> int {
    seq![1int, 2, 4, 8, 16, 32, 64, 128][i]
}

/// The constants the gates are built with.
pub open spec fn constants_ok(two: Fe, one: Fe, pows: Seq<Fe>) -> bool {
    &&& two.val() == 2
    &&& one.val() == 1
    &&& pows.len() == 8
    &&& forall|i: int| 0 <= i < 8 ==> #[trigger] pows[i].val() == weight(i)
}

/// The range check: `q_decomposed * advice` must be a row of `t_range`.
pub open spec fn range_input(c: BitsConfig) -> LookupInput {
    LookupInput { input: prod(Expr::Selector(c.u8_chip.q_decomposed), q(c.advice, 0)), table: c.u8_chip.t_range }
}

/// The gates and the lookup the chip adds, built with constants that
/// `constants_ok` describes.
pub open spec fn chip_declared(before: &ConstraintSystem, after: &ConstraintSystem, c: BitsConfig, two: Fe, one: Fe, pows: Seq<Fe>) -> bool {
    let n = before.gates@.len() as int;
    &&& constants_ok(two, one, pows)
    &&& after.gates@.len() == n + 2
    &&& after.gates@.take(n) == before.gates@
    &&& after.gates@[n].name@ == "Bit xor"@
    &&& after.gates@[n + 1].name@ == "u8 decomposed"@
    &&& after.lookups@.last().name@ == "Range check u8"@
    &&& after.gates@[n].polys@ == Seq::new(8, |i: int| xor_poly(c.u8_chip, i, two))
    &&& after.gates@[n + 1].polys@ == Seq::new(8, |i: int| bool_poly(c.u8_chip, i, one)).push(decompose_poly(c, pows))
    &&& after.lookups@.len() == before.lookups@.len() + 1
    &&& after.lookups@.drop_last() == before.lookups@
    &&& after.lookups@.last().inputs@ == seq![range_input(c)]
}

impl U8Chip {
    /// Declares the bit columns, the tables and the selectors of the chip for
    /// `advice`, with the XOR gate, the range lookup and the decomposition gate.
    pub fn new_for(cs: &mut ConstraintSystem, advice: Column) -> (r: U8Chip)
        requires
            old(cs).num_advice + 8 <= usize::MAX,
            old(cs).num_tables + 5 <= usize::MAX,
            advice.kind == ColumnKind::Advice,
            old(cs).has_column(advice),
        ensures
            chip_valid(final(cs), BitsConfig { advice, u8_chip: r }),
            forall|i: int| 0 <= i < 8 ==> (#[trigger] r.bits[i]).index == old(cs).num_advice + i,
            final(cs).num_advice == old(cs).num_advice + 8,
            final(cs).num_fixed == old(cs).num_fixed,
            final(cs).num_instance == old(cs).num_instance,
            final(cs).num_tables == old(cs).num_tables + 5,
            final(cs).selectors@ == old(cs).selectors@.push(true).push(true),
            final(cs).equality@ == old(cs).equality@,
            exists|two: Fe, one: Fe, pows: Seq<Fe>| chip_declared(old(cs), final(cs), BitsConfig { advice, u8_chip: r }, two, one, pows),
    {
        let b0 = cs.advice_column();
        let b1 = cs.advice_column();
        let b2 = cs.advice_column();
        let b3 = cs.advice_column();
        let b4 = cs.advice_column();
        let b5 = cs.advice_column();
        let b6 = cs.advice_column();
        let b7 = cs.advice_column();
        let bits = [b0, b1, b2, b3, b4, b5, b6, b7];
        let t_range = cs.lookup_table_column();
        let q_decomposed = cs.complex_selector();
        let t_selector = cs.lookup_table_column();
        let t_left = cs.lookup_table_column();
        let t_right = cs.lookup_table_column();
        let t_result = cs.lookup_table_column();
        let q_xor = cs.complex_selector();
        let chip = U8Chip { bits, t_selector, t_left, t_right, t_result, t_range, q_decomposed, q_xor };
        let c = BitsConfig { advice, u8_chip: chip };
        let ghost declared = *cs;
        proof {
            assert(forall|i: int| 0 <= i < 8 ==> (#[trigger] bits@[i]).index == old(cs).num_advice + i);
            assert(chip_valid(cs, c));
        }
        let two = Fe::from_u64(2);
        let one = Fe::one();
        let weights: [u64; 8] = [1, 2, 4, 8, 16, 32, 64, 128];
        let mut pows: Vec<Fe> = Vec::new();
        let mut i: usize = 0;
        while i < 8
            invariant
                i <= 8,
                weights@ == seq![1u64, 2, 4, 8, 16, 32, 64, 128],
                pows@.len() == i,
                forall|j: int| 0 <= j < i ==> #[trigger] pows@[j].val() == weight(j),
            decreases 8 - i,
        {
            pows.push(Fe::from_u64(weights[i]));
            i = i + 1;
        }
        let mut xors: Vec<Expr> = Vec::new();
        let mut bools: Vec<Expr> = Vec::new();
        let mut total = Expr::query(advice, 0);
        let mut i: usize = 0;
        while i < 8
            invariant
                i <= 8,
                pows@.len() == 8,
                c.u8_chip == chip,
                c.advice == advice,
                chip.q_xor == q_xor,
                chip.q_decomposed == q_decomposed,
                two.val() == 2,
                one.val() == 1,
                xors@.len() == i,
                bools@.len() == i,
                forall|j: int| 0 <= j < i ==> #[trigger] xors@[j] == xor_poly(chip, j, two),
                forall|j: int| 0 <= j < i ==> #[trigger] bools@[j] == bool_poly(chip, j, one),
                total == partial_sum(c, i as int, pows@),
            decreases 8 - i,
        {
            let b = chip.bits[i];
            let x = Expr::product(
                Expr::selector(q_xor),
                Expr::difference(
                    Expr::difference(
                        Expr::sum(
                            Expr::product(Expr::query(b, 0), Expr::query(b, 0)),
                            Expr::product(Expr::query(b, 1), Expr::query(b, 1)),
                        ),
                        Expr::product(Expr::product(Expr::constant(two), Expr::query(b, 0)), Expr::query(b, 1)),
                    ),
                    Expr::query(b, 2),
                ),
            );
            xors.push(x);
            let y = Expr::product(
                Expr::product(Expr::selector(q_decomposed), Expr::query(b, 0)),
                Expr::difference(Expr::query(b, 0), Expr::constant(one)),
            );
            bools.push(y);
            total = Expr::difference(total, Expr::product(Expr::query(b, 0), Expr::constant(pows[i])));
            i = i + 1;
        }
        let decomposition = Expr::product(Expr::selector(q_decomposed), total);
        bools.push(decomposition);
        proof {
            reveal_with_fuel(ConstraintSystem::expr_valid, 8);
            reveal_with_fuel(crate::circuit::mentions_simple, 8);
            assert forall|p: int| 0 <= p < xors@.len() implies cs.expr_valid(#[trigger] xors@[p]) by {
                assert(cs.has_column(chip.bits[p]));
            }
            assert forall|i2: int| !#[trigger] crate::circuit::seq_mentions_simple(xors@, i2) by {
                assert forall|p: int| 0 <= p < xors@.len() implies !crate::circuit::mentions_simple(#[trigger] xors@[p], i2) by {}
            }
            lemma_partial_sum_valid(cs, c, 8, pows@);
            assert forall|p: int| 0 <= p < bools@.len() implies cs.expr_valid(#[trigger] bools@[p]) by {
                if p < 8 {
                    assert(cs.has_column(chip.bits[p]));
                }
            }
            assert forall|i2: int| !#[trigger] crate::circuit::seq_mentions_simple(bools@, i2) by {
                assert forall|p: int| 0 <= p < bools@.len() implies !crate::circuit::mentions_simple(#[trigger] bools@[p], i2) by {
                    if p == 8 {
                        assert(!crate::circuit::mentions_simple(partial_sum(c, 8, pows@), i2));
                    }
                }
            }
            assert(xors@ =~= Seq::new(8, |i: int| xor_poly(chip, i, two)));
            assert(bools@ =~= Seq::new(8, |i: int| bool_poly(chip, i, one)).push(decompose_poly(c, pows@)));
        }
        let ghost xs = xors@;
        let ghost bs = bools@;
        let _ = cs.create_gate("Bit xor".to_owned(), xors);
        let range = LookupInput {
            input: Expr::product(Expr::selector(q_decomposed), Expr::query(advice, 0)),
            table: t_range,
        };
        let inputs = vec![range];
        proof {
            reveal_with_fuel(ConstraintSystem::expr_valid, 4);
            reveal_with_fuel(crate::circuit::has_simple, 4);
            assert(cs.inputs_columns_valid(inputs@));
            assert(cs.inputs_tables_valid(inputs@));
            assert(!ConstraintSystem::lookup_has_simple(inputs@));
        }
        let _ = cs.lookup("Range check u8".to_owned(), inputs);
        proof {
            assert forall|p: int| 0 <= p < bs.len() implies cs.expr_valid(#[trigger] bs[p]) by {
                assert(declared.expr_valid(bs[p]));
                lemma_valid_mono(&declared, cs, bs[p]);
            }
        }
        let _ = cs.create_gate("u8 decomposed".to_owned(), bools);
        proof {
            let n = old(cs).gates@.len() as int;
            assert(cs.gates@.take(n) =~= old(cs).gates@);
            assert(cs.lookups@.drop_last() =~= old(cs).lookups@);
            assert(constants_ok(two, one, pows@));
            assert(cs.gates@.len() == n + 2);
            assert(cs.gates@[n].polys@ == Seq::new(8, |i: int| xor_poly(c.u8_chip, i, two)));
            assert(cs.gates@[n + 1].polys@ == Seq::new(8, |i: int| bool_poly(c.u8_chip, i, one)).push(decompose_poly(c, pows@)));
            assert(cs.lookups@.last().inputs@ == seq![range_input(c)]);
            assert(chip_declared(old(cs), cs, c, two, one, pows@));
        }
        chip
    }
}

/// Validity is kept when only gates and lookups are added.
proof fn lemma_valid_mono(a: &ConstraintSystem, b: &ConstraintSystem, e: Expr)
    requires
        a.same_columns(b),
        a.expr_valid(e),
    ensures
        b.expr_valid(e),
    decreases e,
{
    match e {
        Expr::Negated(x) => lemma_valid_mono(a, b, *x),
        Expr::Sum(x, y) => {
            lemma_valid_mono(a, b, *x);
            lemma_valid_mono(a, b, *y);
        },
        Expr::Product(x, y) => {
            lemma_valid_mono(a, b, *x);
            lemma_valid_mono(a, b, *y);
        },
        _ => {},
    }
}

/// Declares the advice column for the values, then the chip over it.
pub fn configure(cs: &mut ConstraintSystem) -> (r: BitsConfig)
    requires
        old(cs).num_advice + 9 <= usize::MAX,
        old(cs).num_tables + 5 <= usize::MAX,
    ensures
        chip_valid(final(cs), r),
        r.advice == (Column { kind: ColumnKind::Advice, index: old(cs).num_advice }),
        final(cs).selectors@ == old(cs).selectors@.push(true).push(true),
        exists|two: Fe, one: Fe, pows: Seq<Fe>| chip_declared(old(cs), final(cs), r, two, one, pows),
{
    let advice = cs.advice_column();
    let ghost mid = *cs;
    let u8_chip = U8Chip::new_for(cs, advice);
    proof {
        let (two, one, pows) = choose|two: Fe, one: Fe, pows: Seq<Fe>| chip_declared(&mid, cs, BitsConfig { advice, u8_chip }, two, one, pows);
        assert(chip_declared(old(cs), cs, BitsConfig { advice, u8_chip }, two, one, pows));
    }
    BitsConfig { advice, u8_chip }
}

/// The XOR table as the circuit fills it: rows of (selector, left, right,
/// result).
pub open spec fn xor_table(r: int, j: int) -> int {
    seq![seq![0int, 0, 0, 0], seq![0int, 0, 1, 1], seq![0int, 1, 0, 1], seq![0int, 1, 1, 0]][r][j]
}

/// Fills `t_range` with `0..256`.
pub fn set_lookup_table_u8(a: &mut Assignment, c: BitsConfig) -> (r: Result<(), SynthesisError>)
    requires
        old(a).wf(),
        chip_valid(&old(a).cs, c),
        table_empty(old(a), c.u8_chip.t_range),
    ensures
        final(a).wf(),
        final(a).cs == old(a).cs,
        final(a).rows == old(a).rows,
        final(a).copies@ == old(a).copies@,
        r is Ok <==> old(a).rows >= 256,
        r matches Err(e) ==> e == SynthesisError::OutOfRows,
        r is Ok ==> {
            &&& same_but_tables(old(a), final(a))
            &&& final(a).table_len(c.u8_chip.t_range.index as int) == 256
            &&& forall|i: int| 0 <= i < 256 ==> #[trigger] table_value(final(a), c.u8_chip.t_range, i) == Some(i)
            &&& forall|t: int, i: int| t != c.u8_chip.t_range.index ==> #[trigger] final(a).table_cell(t, i) == old(a).table_cell(t, i)
            &&& forall|t: int| t != c.u8_chip.t_range.index ==> #[trigger] final(a).table_len(t) == old(a).table_len(t)
        },
{
    let t = c.u8_chip.t_range;
    let mut i: u64 = 0;
    while i < 256
        invariant
            a.wf(),
            chip_valid(&a.cs, c),
            t == c.u8_chip.t_range,
            i <= 256,
            i > 0 ==> i <= a.rows,
            a.table_len(t.index as int) == i,
            same_but_tables(old(a), a),
            forall|j: int| 0 <= j < i ==> #[trigger] table_value(a, t, j) == Some(j),
            forall|j: int| i <= j ==> #[trigger] a.table_cell(t.index as int, j) is None,
            forall|t2: int, j: int| t2 != t.index ==> #[trigger] a.table_cell(t2, j) == old(a).table_cell(t2, j),
            forall|t2: int| t2 != t.index ==> #[trigger] a.table_len(t2) == old(a).table_len(t2),
        decreases 256 - i,
    {
        let ghost before = *a;
        match set_table_value(a, t, i as usize, i) {
            Ok(()) => {},
            Err(e) => {
                return Err(e);
            },
        }
        proof {
            assert forall|j: int| 0 <= j < i + 1 implies #[trigger] table_value(a, t, j) == Some(j) by {
                if j < i {
                    assert(table_value(&before, t, j) == Some(j));
                    assert(a.table_cell(t.index as int, j) == before.table_cell(t.index as int, j));
                } else {
                    assert((i as usize) as int == i as int);
                    assert(table_value(a, t, (i as usize) as int) == Some(i as int));
                }
            }
            assert forall|j: int| i + 1 <= j implies #[trigger] a.table_cell(t.index as int, j) is None by {
                assert(a.table_cell(t.index as int, j) == before.table_cell(t.index as int, j));
            }
        }
        i = i + 1;
    }
    Ok(())
}

/// Fills the four XOR table columns with `xor_table`.
pub fn set_lookup_table_xor(a: &mut Assignment, c: BitsConfig) -> (r: Result<(), SynthesisError>)
    requires
        old(a).wf(),
        chip_valid(&old(a).cs, c),
        table_empty(old(a), c.u8_chip.t_selector),
        table_empty(old(a), c.u8_chip.t_left),
        table_empty(old(a), c.u8_chip.t_right),
        table_empty(old(a), c.u8_chip.t_result),
    ensures
        final(a).wf(),
        final(a).cs == old(a).cs,
        final(a).rows == old(a).rows,
        final(a).copies@ == old(a).copies@,
        r is Ok <==> old(a).rows >= 4,
        r matches Err(e) ==> e == SynthesisError::OutOfRows,
        r is Ok ==> {
            let k = c.u8_chip;
            &&& same_but_tables(old(a), final(a))
            &&& forall|t: int, i: int| t != k.t_selector.index && t != k.t_left.index && t != k.t_right.index && t != k.t_result.index
                ==> #[trigger] final(a).table_cell(t, i) == old(a).table_cell(t, i)
            &&& forall|t: int| t != k.t_selector.index && t != k.t_left.index && t != k.t_right.index && t != k.t_result.index
                ==> #[trigger] final(a).table_len(t) == old(a).table_len(t)
            &&& final(a).table_len(k.t_selector.index as int) == 4
            &&& final(a).table_len(k.t_left.index as int) == 4
            &&& final(a).table_len(k.t_right.index as int) == 4
            &&& final(a).table_len(k.t_result.index as int) == 4
            &&& forall|i: int| 0 <= i < 4 ==> #[trigger] table_value(final(a), k.t_selector, i) == Some(xor_table(i, 0))
                && table_value(final(a), k.t_left, i) == Some(xor_table(i, 1))
                && table_value(final(a), k.t_right, i) == Some(xor_table(i, 2))
                && table_value(final(a), k.t_result, i) == Some(xor_table(i, 3))
        },
{
    let k = c.u8_chip;
    let rows: [[u64; 4]; 4] = [[0, 0, 0, 0], [0, 0, 1, 1], [0, 1, 0, 1], [0, 1, 1, 0]];
    let mut i: usize = 0;
    while i < 4
        invariant
            a.wf(),
            chip_valid(&a.cs, c),
            k == c.u8_chip,
            rows@ == seq![[0u64, 0, 0, 0], [0u64, 0, 1, 1], [0u64, 1, 0, 1], [0u64, 1, 1, 0]],
            i <= 4,
            i > 0 ==> i <= a.rows,
            same_but_tables(old(a), a),
            a.table_len(k.t_selector.index as int) == i,
            a.table_len(k.t_left.index as int) == i,
            a.table_len(k.t_right.index as int) == i,
            a.table_len(k.t_result.index as int) == i,
            forall|t: int, j: int| t != k.t_selector.index && t != k.t_left.index && t != k.t_right.index && t != k.t_result.index
                ==> #[trigger] a.table_cell(t, j) == old(a).table_cell(t, j),
            forall|t: int| t != k.t_selector.index && t != k.t_left.index && t != k.t_right.index && t != k.t_result.index
                ==> #[trigger] a.table_len(t) == old(a).table_len(t),
            forall|j: int| 0 <= j < i ==> #[trigger] table_value(a, k.t_selector, j) == Some(xor_table(j, 0))
                && table_value(a, k.t_left, j) == Some(xor_table(j, 1))
                && table_value(a, k.t_right, j) == Some(xor_table(j, 2))
                && table_value(a, k.t_result, j) == Some(xor_table(j, 3)),
            forall|j: int| i <= j ==> #[trigger] a.table_cell(k.t_selector.index as int, j) is None
                && a.table_cell(k.t_left.index as int, j) is None
                && a.table_cell(k.t_right.index as int, j) is None
                && a.table_cell(k.t_result.index as int, j) is None,
        decreases 4 - i,
    {
        let row = rows[i];
        let ghost s0 = *a;
        match set_table_value(a, k.t_selector, i, row[0]) {
            Ok(()) => {},
            Err(e) => {
                return Err(e);
            },
        }
        let ghost s1 = *a;
        match set_table_value(a, k.t_left, i, row[1]) {
            Ok(()) => {},
            Err(e) => {
                return Err(e);
            },
        }
        let ghost s2 = *a;
        match set_table_value(a, k.t_right, i, row[2]) {
            Ok(()) => {},
            Err(e) => {
                return Err(e);
            },
        }
        let ghost s3 = *a;
        match set_table_value(a, k.t_result, i, row[3]) {
            Ok(()) => {},
            Err(e) => {
                return Err(e);
            },
        }
        proof {
            assert forall|j: int| 0 <= j < i + 1 implies #[trigger] table_value(a, k.t_selector, j) == Some(xor_table(j, 0))
                && table_value(a, k.t_left, j) == Some(xor_table(j, 1))
                && table_value(a, k.t_right, j) == Some(xor_table(j, 2))
                && table_value(a, k.t_result, j) == Some(xor_table(j, 3)) by {
                if j < i {
                    assert(table_value(&s0, k.t_selector, j) == Some(xor_table(j, 0)));
                    assert(table_value(&s0, k.t_left, j) == Some(xor_table(j, 1)));
                    assert(table_value(&s0, k.t_right, j) == Some(xor_table(j, 2)));
                    assert(table_value(&s0, k.t_result, j) == Some(xor_table(j, 3)));
                } else {
                    assert(table_value(&s1, k.t_selector, j) == Some(xor_table(j, 0)));
                    assert(table_value(&s2, k.t_left, j) == Some(xor_table(j, 1)));
                    assert(table_value(&s3, k.t_right, j) == Some(xor_table(j, 2)));
                }
            }
        }
        i = i + 1;
    }
    Ok(())
}

/// Row `r` holds `row`: the value in `advice`, its bits in the bit columns.
pub open spec fn holds_row(a: &Assignment, c: BitsConfig, r: int, row: ExampleRow) -> bool {
    &&& a.cell(c.advice, r) == Some(row.advice)
    &&& forall|i: int| 0 <= i < 8 ==> #[trigger] a.cell(c.u8_chip.bits[i], r) == Some(row.bits[i])
}

/// Writes `rows[index]` on row `index` of the open region, whose rows before
/// it are written, and turns `q_decomposed` on there.
pub fn add_decomposed_row_to_region(a: &mut Assignment, c: BitsConfig, rows: &[ExampleRow; 3], index: usize) -> (r: Result<(), SynthesisError>)
    requires
        old(a).wf(),
        old(a).open,
        chip_valid(&old(a).cs, c),
        index < 3,
        old(a).regions@.last().height == index,
    ensures
        final(a).wf(),
        final(a).cs == old(a).cs,
        final(a).rows == old(a).rows,
        final(a).tables@ == old(a).tables@,
        final(a).table_lens@ == old(a).table_lens@,
        final(a).copies@ == old(a).copies@,
        r is Ok <==> old(a).current_start() + index < old(a).rows,
        r matches Err(e) ==> e == SynthesisError::OutOfRows,
        r is Ok ==> {
            let row = old(a).current_start() + index;
            &&& final(a).open
            &&& final(a).regions@ == old(a).grown(index as int)
            &&& holds_row(final(a), c, row, rows[index as int])
            &&& final(a).selector_on(c.u8_chip.q_decomposed.index as int, row)
            &&& forall|c2: Column, r2: int| r2 < row ==> #[trigger] final(a).cell(c2, r2) == old(a).cell(c2, r2)
            &&& forall|s: int, r2: int| !(s == c.u8_chip.q_decomposed.index && r2 == row) ==> #[trigger] final(a).selector_on(s, r2) == old(a).selector_on(s, r2)
        },
{
    let ghost row = a.current_start() + index;
    proof {
        assert(next_row(a.regions@) == row);
    }
    let ghost s0 = *a;
    match a.enable_selector(c.u8_chip.q_decomposed, index) {
        Ok(()) => {},
        Err(e) => {
            return Err(e);
        },
    }
    let ghost s1 = *a;
    let x = rows[index];
    match a.assign_advice(c.advice, index, x.advice) {
        Ok(_) => {},
        Err(e) => {
            return Err(e);
        },
    }
    proof {
        assert(forall|s: int, r2: int| #[trigger] a.selector_on(s, r2) == s1.selector_on(s, r2));
    }
    let mut i: usize = 0;
    while i < 8
        invariant
            a.wf(),
            a.open,
            a.cs == old(a).cs,
            a.rows == old(a).rows,
            a.tables@ == old(a).tables@,
            a.table_lens@ == old(a).table_lens@,
            a.copies@ == old(a).copies@,
            chip_valid(&a.cs, c),
            x == rows[index as int],
            row == old(a).current_start() + index,
            row < a.rows,
            a.current_start() == old(a).current_start(),
            a.regions@ == old(a).grown(index as int),
            i <= 8,
            a.cell(c.advice, row) == Some(x.advice),
            forall|j: int| 0 <= j < i ==> #[trigger] a.cell(c.u8_chip.bits[j], row) == Some(x.bits[j]),
            forall|j: int| i <= j < 8 ==> #[trigger] a.cell(c.u8_chip.bits[j], row) is None,
            forall|c2: Column, r2: int| r2 < row ==> #[trigger] a.cell(c2, r2) == old(a).cell(c2, r2),
            forall|s: int, r2: int| #[trigger] a.selector_on(s, r2) == s1.selector_on(s, r2),
        decreases 8 - i,
    {
        let ghost before = *a;
        match a.assign_advice(c.u8_chip.bits[i], index, x.bits[i]) {
            Ok(_) => {},
            Err(e) => {
                return Err(e);
            },
        }
        proof {
            assert forall|j: int| 0 <= j < i + 1 implies #[trigger] a.cell(c.u8_chip.bits[j], row) == Some(x.bits[j]) by {
                if j < i {
                    assert(before.cell(c.u8_chip.bits[j], row) == Some(x.bits[j]));
                }
            }
            assert forall|j: int| i + 1 <= j < 8 implies #[trigger] a.cell(c.u8_chip.bits[j], row) is None by {
                assert(before.cell(c.u8_chip.bits[j], row) is None);
            }
            assert(a.cell(c.advice, row) == before.cell(c.advice, row));
            assert(forall|s: int, r2: int| #[trigger] a.selector_on(s, r2) == before.selector_on(s, r2));
        }
        i = i + 1;
    }
    proof {
        assert(forall|c2: Column, r2: int| #[trigger] s1.cell(c2, r2) == s0.cell(c2, r2));
    }
    Ok(())
}

/// Fills the tables, then lays `rows` out in one region with `q_xor` on at
/// its first row: the third row's bits must be the XOR of the first two's.
pub fn synthesize(a: &mut Assignment, c: BitsConfig, rows: &[ExampleRow; 3]) -> (r: Result<(), SynthesisError>)
    requires
        old(a).wf(),
        !old(a).open,
        chip_valid(&old(a).cs, c),
        table_empty(old(a), c.u8_chip.t_range),
        table_empty(old(a), c.u8_chip.t_selector),
        table_empty(old(a), c.u8_chip.t_left),
        table_empty(old(a), c.u8_chip.t_right),
        table_empty(old(a), c.u8_chip.t_result),
    ensures
        final(a).wf(),
        final(a).cs == old(a).cs,
        final(a).copies@ == old(a).copies@,
        r is Ok <==> old(a).rows >= 256 && next_row(old(a).regions@) + 3 <= old(a).rows,
        r matches Err(e) ==> e == SynthesisError::OutOfRows,
        r is Ok ==> {
            let start = next_row(old(a).regions@);
            let k = c.u8_chip;
            &&& !final(a).open
            &&& final(a).table_len(k.t_selector.index as int) == 4
            &&& final(a).table_len(k.t_left.index as int) == 4
            &&& final(a).table_len(k.t_right.index as int) == 4
            &&& final(a).table_len(k.t_result.index as int) == 4
            &&& forall|i: int| 0 <= i < 4 ==> #[trigger] table_value(final(a), k.t_selector, i) == Some(xor_table(i, 0))
                && table_value(final(a), k.t_left, i) == Some(xor_table(i, 1))
                && table_value(final(a), k.t_right, i) == Some(xor_table(i, 2))
                && table_value(final(a), k.t_result, i) == Some(xor_table(i, 3))
            &&& final(a).regions@ == old(a).regions@.push(RegionInfo { start: start as usize, height: 3 })
            &&& final(a).selector_on(c.u8_chip.q_xor.index as int, start)
            &&& forall|k: int| 0 <= k < 3 ==> #[trigger] holds_row(final(a), c, start + k, rows[k])
                && final(a).selector_on(c.u8_chip.q_decomposed.index as int, start + k)
            &&& forall|s: int, k: int| 0 <= k < 3 ==> (#[trigger] final(a).selector_on(s, start + k) <==> s
                == c.u8_chip.q_decomposed.index || (s == c.u8_chip.q_xor.index && k == 0))
            &&& final(a).table_len(c.u8_chip.t_range.index as int) == 256
            &&& forall|i: int| 0 <= i < 256 ==> #[trigger] table_value(final(a), c.u8_chip.t_range, i) == Some(i)
        },
{
    let ghost start = next_row(a.regions@);
    match set_lookup_table_u8(a, c) {
        Ok(()) => {},
        Err(e) => {
            return Err(e);
        },
    }
    let ghost t1 = *a;
    proof {
        assert(table_empty(a, c.u8_chip.t_selector));
        assert(table_empty(a, c.u8_chip.t_left));
        assert(table_empty(a, c.u8_chip.t_right));
        assert(table_empty(a, c.u8_chip.t_result));
        assert(forall|c2: crate::circuit::Column, r2: int| #[trigger] a.cell(c2, r2) == old(a).cell(c2, r2));
        assert(forall|s: int, r2: int| #[trigger] a.selector_on(s, r2) == old(a).selector_on(s, r2));
    }
    match set_lookup_table_xor(a, c) {
        Ok(()) => {},
        Err(e) => {
            return Err(e);
        },
    }
    let ghost t2 = *a;
    proof {
        assert(forall|c2: crate::circuit::Column, r2: int| #[trigger] a.cell(c2, r2) == t1.cell(c2, r2));
        assert(forall|s: int, r2: int| #[trigger] a.selector_on(s, r2) == t1.selector_on(s, r2));
        assert(forall|i: int| #[trigger] a.table_cell(c.u8_chip.t_range.index as int, i) == t1.table_cell(c.u8_chip.t_range.index as int, i));
    }
    let _ = a.begin_region();
    let ghost s0 = *a;
    match add_decomposed_row_to_region(a, c, rows, 0) {
        Ok(()) => {},
        Err(e) => {
            return Err(e);
        },
    }
    let ghost s1 = *a;
    match add_decomposed_row_to_region(a, c, rows, 1) {
        Ok(()) => {},
        Err(e) => {
            return Err(e);
        },
    }
    let ghost s2 = *a;
    match add_decomposed_row_to_region(a, c, rows, 2) {
        Ok(()) => {},
        Err(e) => {
            return Err(e);
        },
    }
    let ghost s3 = *a;
    let _ = a.enable_selector(c.u8_chip.q_xor, 0);
    let ghost s4 = *a;
    let _ = a.end_region();
    proof {
        assert(forall|c2: crate::circuit::Column, r2: int| #[trigger] a.cell(c2, r2) == s3.cell(c2, r2));
        assert(forall|s: int, r2: int| #[trigger] a.selector_on(s, r2) == s4.selector_on(s, r2));
        assert(forall|s: int, r2: int| !(s == c.u8_chip.q_xor.index && r2 == start) ==> #[trigger] a.selector_on(s, r2) == s3.selector_on(s, r2));
        assert(forall|i: int| #[trigger] a.table_cell(c.u8_chip.t_range.index as int, i) == t2.table_cell(c.u8_chip.t_range.index as int, i));
        assert(holds_row(&s1, c, start, rows[0]));
        assert(holds_row(&s2, c, start + 1, rows[1]));
        assert forall|k: int| 0 <= k < 3 implies #[trigger] holds_row(a, c, start + k, rows[k])
            && a.selector_on(c.u8_chip.q_decomposed.index as int, start + k) by {
            if k == 0 {
                assert(forall|i: int| 0 <= i < 8 ==> #[trigger] s3.cell(c.u8_chip.bits[i], start) == s1.cell(c.u8_chip.bits[i], start));
                assert(holds_row(&s2, c, start, rows[0]));
            } else if k == 1 {
                assert(forall|i: int| 0 <= i < 8 ==> #[trigger] s3.cell(c.u8_chip.bits[i], start + 1) == s2.cell(c.u8_chip.bits[i], start + 1));
            }
        }
        assert(a.selector_on(c.u8_chip.q_xor.index as int, start));
        assert forall|s: int, k: int| 0 <= k < 3 implies (#[trigger] a.selector_on(s, start + k) <==> s
            == c.u8_chip.q_decomposed.index || (s == c.u8_chip.q_xor.index && k == 0)) by {
            assert(!s0.selector_on(s, start + k));
            if !(s == c.u8_chip.q_xor.index && k == 0) {
                assert(a.selector_on(s, start + k) == s3.selector_on(s, start + k));
            }
            if k == 0 {
                if s != c.u8_chip.q_decomposed.index {
                    assert(s1.selector_on(s, start) == s0.selector_on(s, start));
                    assert(s2.selector_on(s, start) == s1.selector_on(s, start));
                    assert(s3.selector_on(s, start) == s2.selector_on(s, start));
                } else {
                    assert(s2.selector_on(s, start) == s1.selector_on(s, start));
                    assert(s3.selector_on(s, start) == s2.selector_on(s, start));
                }
            } else if k == 1 {
                if s != c.u8_chip.q_decomposed.index {
                    assert(s1.selector_on(s, start + 1) == s0.selector_on(s, start + 1));
                    assert(s2.selector_on(s, start + 1) == s1.selector_on(s, start + 1));
                    assert(s3.selector_on(s, start + 1) == s2.selector_on(s, start + 1));
                } else {
                    assert(s3.selector_on(s, start + 1) == s2.selector_on(s, start + 1));
                }
            } else {
                assert(s1.selector_on(s, start + 2) == s0.selector_on(s, start + 2));
                assert(s2.selector_on(s, start + 2) == s1.selector_on(s, start + 2));
            }
        }
        assert(!a.open);
        assert(a.regions@ == old(a).regions@.push(RegionInfo { start: start as usize, height: 3 }));
        assert(t2.table_len(c.u8_chip.t_range.index as int) == 256);
        assert(forall|t: int, i: int| #[trigger] a.table_cell(t, i) == t2.table_cell(t, i));
        assert(forall|t: int| #[trigger] a.table_len(t) == t2.table_len(t));
        let k = c.u8_chip;
        assert forall|i: int| 0 <= i < 4 implies #[trigger] table_value(a, k.t_selector, i) == Some(xor_table(i, 0))
            && table_value(a, k.t_left, i) == Some(xor_table(i, 1))
            && table_value(a, k.t_right, i) == Some(xor_table(i, 2))
            && table_value(a, k.t_result, i) == Some(xor_table(i, 3)) by {
            assert(table_value(&t2, k.t_selector, i) == Some(xor_table(i, 0)));
            assert(table_value(&t2, k.t_left, i) == Some(xor_table(i, 1)));
            assert(table_value(&t2, k.t_right, i) == Some(xor_table(i, 2)));
            assert(table_value(&t2, k.t_result, i) == Some(xor_table(i, 3)));
        }
        assert(a.table_lens@ == t2.table_lens@);
        assert(a.table_len(c.u8_chip.t_range.index as int) == 256);
        assert forall|i: int| 0 <= i < 256 implies #[trigger] table_value(a, c.u8_chip.t_range, i) == Some(i) by {
            assert(table_value(&t1, c.u8_chip.t_range, i) == Some(i));
        }
    }
    Ok(())
}

} // verus!
