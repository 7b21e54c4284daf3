//! An automaton for `a+b+c` checked by a transition-table lookup: on every
//! step row, (state, next state, character) must be a transition of the
//! table, and the first and last states are pinned by a fixed column.
use crate::circuit::{neg, prod, q, sum, Column, ColumnKind, ConstraintSystem, Expr, LookupInput, Selector, TableColumn};
use crate::field::Fe;
use crate::layout::{
    next_row, same_but_tables, set_table_value, table_empty, table_value, Assignment, RegionInfo,
    SynthesisError,
};
use vstd::prelude::*;

verus! {

pub const ST_I: u64 = 10;
pub const ST_A: u64 = 1;
pub const ST_B: u64 = 2;
pub const ST_C: u64 = 3;
pub const ST_START: u64 = 10;
pub const ST_DONE: u64 = 4;
/// The character read past the end of the input.
pub const EOF: u64 = 0xFFFF;
/// How many characters the circuit reads.
pub const MAX_STR_LEN: usize = 20;

#[derive(Clone, Copy, Debug)]
pub struct RegexConfig {
    pub q_match: Selector,
    pub q_regex: Selector,
    pub automata_state: Column,
    pub current_character: Column,
    pub table_state_current: TableColumn,
    pub table_state_next: TableColumn,
    pub table_transition_char: TableColumn,
    pub fixed_state: Column,
}

/// The transition table: the all-zero row, met where `q_regex` is off, then
/// the transitions of `a+b+c` as (state, next state, character).
pub open spec fn transition(r: int, j: int) -> int {
    seq![
        seq![0int, 0, 0],
        seq![10int, 1, 97],
        seq![10int, 2, 98],
        seq![1int, 1, 97],
        seq![1int, 2, 98],
        seq![2int, 2, 98],
        seq![2int, 3, 99],
        seq![3int, 4, 0xFFFF],
        seq![4int, 4, 0xFFFF],
    ][r][j]
}

/// `q_match * (state - fixed_state)`.
pub open spec fn fix_poly(c: RegexConfig) -> Expr {
    prod(Expr::Selector(c.q_match), sum(q(c.automata_state, 0), neg(q(c.fixed_state, 0))))
}

/// The lookup: `q_regex` times the state, the next state and the character.
pub open spec fn transition_inputs(c: RegexConfig) -> Seq<LookupInput> {
    let en = Expr::Selector(c.q_regex);
    seq![
        LookupInput { input: prod(en, q(c.automata_state, 0)), table: c.table_state_current },
        LookupInput { input: prod(en, q(c.automata_state, 1)), table: c.table_state_next },
        LookupInput { input: prod(en, q(c.current_character, 0)), table: c.table_transition_char },
    ]
}

pub open spec fn config_valid(cs: &ConstraintSystem, c: RegexConfig) -> bool {
    &&& cs.has_selector(c.q_match) && c.q_match.complex
    &&& cs.has_selector(c.q_regex) && c.q_regex.complex
    &&& c.q_match.index != c.q_regex.index
    &&& c.automata_state.kind == ColumnKind::Advice && cs.has_column(c.automata_state)
    &&& c.current_character.kind == ColumnKind::Advice && cs.has_column(c.current_character)
    &&& c.automata_state.index != c.current_character.index
    &&& c.fixed_state.kind == ColumnKind::Fixed && cs.has_column(c.fixed_state)
    &&& c.table_state_current.index < cs.num_tables
    &&& c.table_state_next.index < cs.num_tables
    &&& c.table_transition_char.index < cs.num_tables
    &&& c.table_state_current.index != c.table_state_next.index
    &&& c.table_state_current.index != c.table_transition_char.index
    &&& c.table_state_next.index != c.table_transition_char.index
}

/// Declares the columns, a gate holding `fix_poly` and the transition lookup.
pub fn configure(cs: &mut ConstraintSystem) -> (r: RegexConfig)
    requires
        old(cs).num_advice + 2 <= usize::MAX,
        old(cs).num_fixed < usize::MAX,
        old(cs).num_tables + 3 <= usize::MAX,
    ensures
        config_valid(final(cs), r),
        final(cs).gates@ == old(cs).gates@.push(final(cs).gates@.last()),
        final(cs).gates@.last().name@ == "fix-st"@,
        final(cs).gates@.last().polys@ == seq![fix_poly(r)],
        final(cs).lookups@.last().name@ == "transition-st"@,
        final(cs).lookups@ == old(cs).lookups@.push(final(cs).lookups@.last()),
        final(cs).lookups@.last().inputs@ == transition_inputs(r),
{
    let q_regex = cs.complex_selector();
    let q_match = cs.complex_selector();
    let st = cs.advice_column();
    let ch = cs.advice_column();
    let fix_st = cs.fixed_column();
    let tbl_st_cur = cs.lookup_table_column();
    let tbl_st_nxt = cs.lookup_table_column();
    let tbl_ch = cs.lookup_table_column();
    let c = RegexConfig {
        q_match,
        q_regex,
        automata_state: st,
        current_character: ch,
        table_state_current: tbl_st_cur,
        table_state_next: tbl_st_nxt,
        table_transition_char: tbl_ch,
        fixed_state: fix_st,
    };
    let poly = Expr::product(Expr::selector(q_match), Expr::difference(Expr::query(st, 0), Expr::query(fix_st, 0)));
    let polys = vec![poly];
    proof {
        reveal_with_fuel(ConstraintSystem::expr_valid, 5);
        reveal_with_fuel(crate::circuit::mentions_simple, 5);
        assert(cs.polys_valid(polys@)) by {
            assert(cs.expr_valid(polys@[0]));
        }
        assert(forall|i: int| !#[trigger] crate::circuit::seq_mentions_simple(polys@, i));
    }
    let _ = cs.create_gate("fix-st".to_owned(), polys);
    let inputs = vec![
        LookupInput { input: Expr::product(Expr::selector(q_regex), Expr::query(st, 0)), table: tbl_st_cur },
        LookupInput { input: Expr::product(Expr::selector(q_regex), Expr::query(st, 1)), table: tbl_st_nxt },
        LookupInput { input: Expr::product(Expr::selector(q_regex), Expr::query(ch, 0)), table: tbl_ch },
    ];
    proof {
        reveal_with_fuel(ConstraintSystem::expr_valid, 4);
        reveal_with_fuel(crate::circuit::has_simple, 4);
        assert(inputs@ == transition_inputs(c));
        assert(cs.inputs_columns_valid(inputs@)) by {
            assert(cs.expr_valid(inputs@[0].input));
            assert(cs.expr_valid(inputs@[1].input));
            assert(cs.expr_valid(inputs@[2].input));
        }
        assert(cs.inputs_tables_valid(inputs@));
        assert(!ConstraintSystem::lookup_has_simple(inputs@)) by {
            assert(!crate::circuit::has_simple(inputs@[0].input));
            assert(!crate::circuit::has_simple(inputs@[1].input));
            assert(!crate::circuit::has_simple(inputs@[2].input));
        }
    }
    let _ = cs.lookup("transition-st".to_owned(), inputs);
    proof {
        assert(cs.gates@ =~= old(cs).gates@.push(cs.gates@.last()));
        assert(cs.lookups@ =~= old(cs).lookups@.push(cs.lookups@.last()));
    }
    c
}

/// Fills the three table columns with `transition`.
pub fn set_transition_table(a: &mut Assignment, c: RegexConfig) -> (r: Result<(), SynthesisError>)
    requires
        old(a).wf(),
        config_valid(&old(a).cs, c),
        table_empty(old(a), c.table_state_current),
        table_empty(old(a), c.table_state_next),
        table_empty(old(a), c.table_transition_char),
    ensures
        final(a).wf(),
        final(a).cs == old(a).cs,
        final(a).rows == old(a).rows,
        final(a).copies@ == old(a).copies@,
        r is Ok <==> old(a).rows >= 9,
        r matches Err(e) ==> e == SynthesisError::OutOfRows,
        r is Ok ==> {
            &&& same_but_tables(old(a), final(a))
            &&& final(a).table_len(c.table_state_current.index as int) == 9
            &&& final(a).table_len(c.table_state_next.index as int) == 9
            &&& final(a).table_len(c.table_transition_char.index as int) == 9
            &&& forall|i: int| 0 <= i < 9 ==> #[trigger] table_value(final(a), c.table_state_current, i) == Some(transition(i, 0))
                && table_value(final(a), c.table_state_next, i) == Some(transition(i, 1))
                && table_value(final(a), c.table_transition_char, i) == Some(transition(i, 2))
        },
{
    let rows: [[u64; 3]; 9] = [
        [0, 0, 0],
        [ST_I, ST_A, 97],
        [ST_I, ST_B, 98],
        [ST_A, ST_A, 97],
        [ST_A, ST_B, 98],
        [ST_B, ST_B, 98],
        [ST_B, ST_C, 99],
        [ST_C, ST_DONE, EOF],
        [ST_DONE, ST_DONE, EOF],
    ];
    let mut i: usize = 0;
    while i < 9
        invariant
            a.wf(),
            config_valid(&a.cs, c),
            rows@ == seq![[0u64, 0, 0], [10u64, 1, 97], [10u64, 2, 98], [1u64, 1, 97], [1u64, 2, 98], [2u64, 2, 98], [2u64, 3, 99], [3u64, 4, 0xFFFF], [4u64, 4, 0xFFFF]],
            i <= 9,
            i > 0 ==> i <= a.rows,
            same_but_tables(old(a), a),
            a.table_len(c.table_state_current.index as int) == i,
            a.table_len(c.table_state_next.index as int) == i,
            a.table_len(c.table_transition_char.index as int) == i,
            forall|j: int| 0 <= j < i ==> #[trigger] table_value(a, c.table_state_current, j) == Some(transition(j, 0))
                && table_value(a, c.table_state_next, j) == Some(transition(j, 1))
                && table_value(a, c.table_transition_char, j) == Some(transition(j, 2)),
            forall|j: int| i <= j ==> #[trigger] a.table_cell(c.table_state_current.index as int, j) is None
                && a.table_cell(c.table_state_next.index as int, j) is None
                && a.table_cell(c.table_transition_char.index as int, j) is None,
        decreases 9 - i,
    {
        let row = rows[i];
        let ghost s0 = *a;
        match set_table_value(a, c.table_state_current, i, row[0]) {
            Ok(()) => {},
            Err(e) => {
                return Err(e);
            },
        }
        let ghost s1 = *a;
        match set_table_value(a, c.table_state_next, i, row[1]) {
            Ok(()) => {},
            Err(e) => {
                return Err(e);
            },
        }
        let ghost s2 = *a;
        match set_table_value(a, c.table_transition_char, i, row[2]) {
            Ok(()) => {},
            Err(e) => {
                return Err(e);
            },
        }
        proof {
            assert forall|j: int| 0 <= j < i + 1 implies #[trigger] table_value(a, c.table_state_current, j) == Some(transition(j, 0))
                && table_value(a, c.table_state_next, j) == Some(transition(j, 1))
                && table_value(a, c.table_transition_char, j) == Some(transition(j, 2)) by {
                if j < i {
                    assert(table_value(&s0, c.table_state_current, j) == Some(transition(j, 0)));
                    assert(table_value(&s0, c.table_state_next, j) == Some(transition(j, 1)));
                    assert(table_value(&s0, c.table_transition_char, j) == Some(transition(j, 2)));
                } else {
                    assert(table_value(&s1, c.table_state_current, j) == Some(transition(j, 0)));
                    assert(table_value(&s2, c.table_state_next, j) == Some(transition(j, 1)));
                }
            }
        }
        i = i + 1;
    }
    Ok(())
}

/// The state the trace gives for step `i`: done once the trace has ended.
pub open spec fn state_at(states: Seq<u64>, i: int) -> int {
    if i < states.len() {
        states[i] as int
    } else {
        4
    }
}

/// The code of character `i` of the text, or `EOF` past its end.
pub open spec fn char_at(text: Seq<char>, i: int) -> int {
    if i < text.len() {
        text[i] as u32 as int
    } else {
        0xFFFF
    }
}

/// The state of step `i` as a field element.
fn state_value(states: &Vec<u64>, i: usize) -> (r: Fe)
    ensures
        r.val() == state_at(states@, i as int),
{
    if i < states.len() {
        Fe::from_u64(states[i])
    } else {
        Fe::from_u64(ST_DONE)
    }
}

/// Character `i` of the text as a field element.
fn char_value(text: &Vec<char>, i: usize) -> (r: Fe)
    ensures
        r.val() == char_at(text@, i as int),
{
    if i < text.len() {
        Fe::from_u64(text[i] as u32 as u64)
    } else {
        Fe::from_u64(EOF)
    }
}

/// What a region of the automaton holds from row `start`.
pub open spec fn trace_laid(a: &Assignment, c: RegexConfig, start: int, text: Seq<char>, states: Seq<u64>) -> bool {
    &&& forall|i: int| 0 <= i < 20 ==> #[trigger] a.cell_value(c.automata_state, start + i) == Some(state_at(states, i))
        && a.cell_value(c.current_character, start + i) == Some(char_at(text, i))
        && a.selector_on(c.q_regex.index as int, start + i)
    &&& a.cell_value(c.automata_state, start + 20) == Some(4int)
    &&& a.cell_value(c.fixed_state, start) == Some(10int)
    &&& a.cell_value(c.fixed_state, start + 20) == Some(4int)
    &&& a.selector_on(c.q_match.index as int, start)
    &&& a.selector_on(c.q_match.index as int, start + 20)
}

/// Fills the transition table, then lays the trace out in one region: the
/// fixed state is the start state on its first row and the done state on
/// row `MAX_STR_LEN`; each of the `MAX_STR_LEN` step rows holds the state
/// (done past the end of `states`) and the character (`EOF` past the end of
/// `text`), with the lookup on; row `MAX_STR_LEN` holds the done state.
pub fn synthesize(a: &mut Assignment, c: RegexConfig, text: &Vec<char>, states: &Vec<u64>) -> (r: Result<(), SynthesisError>)
    requires
        old(a).wf(),
        !old(a).open,
        config_valid(&old(a).cs, c),
        table_empty(old(a), c.table_state_current),
        table_empty(old(a), c.table_state_next),
        table_empty(old(a), c.table_transition_char),
    ensures
        final(a).wf(),
        final(a).cs == old(a).cs,
        final(a).copies@ == old(a).copies@,
        r is Ok <==> old(a).rows >= 9 && next_row(old(a).regions@) + 21 <= old(a).rows,
        r matches Err(e) ==> e == SynthesisError::OutOfRows,
        r is Ok ==> {
            let start = next_row(old(a).regions@);
            &&& !final(a).open
            &&& final(a).table_len(c.table_state_current.index as int) == 9
            &&& final(a).table_len(c.table_state_next.index as int) == 9
            &&& final(a).table_len(c.table_transition_char.index as int) == 9
            &&& final(a).regions@ == old(a).regions@.push(RegionInfo { start: start as usize, height: 21 })
            &&& trace_laid(final(a), c, start, text@, states@)
            &&& forall|s: int, j: int| 0 <= j <= 20 ==> (#[trigger] final(a).selector_on(s, start + j) <==> (s
                == c.q_regex.index && j < 20) || (s == c.q_match.index && (j == 0 || j == 20)))
            &&& forall|i: int| 0 <= i < 9 ==> #[trigger] table_value(final(a), c.table_state_current, i) == Some(transition(i, 0))
                && table_value(final(a), c.table_state_next, i) == Some(transition(i, 1))
                && table_value(final(a), c.table_transition_char, i) == Some(transition(i, 2))
        },
{
    let ghost start = next_row(a.regions@);
    match set_transition_table(a, c) {
        Ok(()) => {},
        Err(e) => {
            return Err(e);
        },
    }
    let ghost t1 = *a;
    proof {
        assert(forall|c2: Column, r2: int| #[trigger] a.cell(c2, r2) == old(a).cell(c2, r2));
        assert(forall|s2: int, r2: int| #[trigger] a.selector_on(s2, r2) == old(a).selector_on(s2, r2));
    }
    let _ = a.begin_region();
    let ghost s0 = *a;
    match a.assign_fixed(c.fixed_state, 0, Fe::from_u64(ST_START)) {
        Ok(_) => {},
        Err(e) => {
            return Err(e);
        },
    }
    let ghost s1 = *a;
    let _ = a.enable_selector(c.q_match, 0);
    let ghost s2 = *a;
    proof {
        assert forall|j: int| 0 <= j <= 20 implies #[trigger] a.cell(c.automata_state, start + j) is None
            && a.cell(c.current_character, start + j) is None by {
            assert(s0.cell(c.automata_state, start + j) is None);
            assert(s0.cell(c.current_character, start + j) is None);
        }
        assert(a.cell(c.fixed_state, start + 20) is None) by {
            assert(s0.cell(c.fixed_state, start + 20) is None);
        }
        assert forall|s: int, j: int| 0 <= j <= 20 implies (#[trigger] a.selector_on(s, start + j) <==> (s
            == c.q_regex.index && j < 0) || (s == c.q_match.index && j == 0)) by {
            assert(!s0.selector_on(s, start + j));
            assert(s1.selector_on(s, start + j) == s0.selector_on(s, start + j));
        }
    }
    let mut i: usize = 0;
    while i < MAX_STR_LEN
        invariant
            a.wf(),
            a.open,
            a.cs == old(a).cs,
            a.rows == old(a).rows,
            a.copies@ == old(a).copies@,
            config_valid(&a.cs, c),
            start == next_row(old(a).regions@),
            start < a.rows,
            i <= 20,
            i > 0 ==> start + i <= a.rows,
            a.regions@ == old(a).regions@.push(RegionInfo { start: start as usize, height: if i == 0 { 1 } else { i } }),
            a.tables@ == t1.tables@,
            a.table_lens@ == t1.table_lens@,
            forall|j: int| 0 <= j < i ==> #[trigger] a.cell_value(c.automata_state, start + j) == Some(state_at(states@, j))
                && a.cell_value(c.current_character, start + j) == Some(char_at(text@, j))
                && a.selector_on(c.q_regex.index as int, start + j),
            forall|j: int| i <= j <= 20 ==> #[trigger] a.cell(c.automata_state, start + j) is None
                && a.cell(c.current_character, start + j) is None,
            a.cell_value(c.fixed_state, start) == Some(10int),
            a.cell(c.fixed_state, start + 20) is None,
            a.selector_on(c.q_match.index as int, start),
            forall|s: int, j: int| 0 <= j <= 20 ==> (#[trigger] a.selector_on(s, start + j) <==> (s
                == c.q_regex.index && j < i) || (s == c.q_match.index && j == 0)),
        decreases 20 - i,
    {
        let ghost b0 = *a;
        match a.enable_selector(c.q_regex, i) {
            Ok(()) => {},
            Err(e) => {
                return Err(e);
            },
        }
        let ghost b1 = *a;
        match a.assign_advice(c.automata_state, i, state_value(states, i)) {
            Ok(_) => {},
            Err(e) => {
                return Err(e);
            },
        }
        let ghost b2 = *a;
        match a.assign_advice(c.current_character, i, char_value(text, i)) {
            Ok(_) => {},
            Err(e) => {
                return Err(e);
            },
        }
        proof {
            assert(forall|s2: int, r2: int| #[trigger] a.selector_on(s2, r2) == b1.selector_on(s2, r2));
            assert forall|s: int, j: int| 0 <= j <= 20 implies (#[trigger] a.selector_on(s, start + j) <==> (s
                == c.q_regex.index && j < i + 1) || (s == c.q_match.index && j == 0)) by {
                assert(b0.selector_on(s, start + j) <==> (s == c.q_regex.index && j < i) || (s == c.q_match.index && j == 0));
                if !(s == c.q_regex.index && j == i) {
                    assert(b1.selector_on(s, start + j) == b0.selector_on(s, start + j));
                }
            }
            assert forall|j: int| 0 <= j < i + 1 implies #[trigger] a.cell_value(c.automata_state, start + j) == Some(state_at(states@, j))
                && a.cell_value(c.current_character, start + j) == Some(char_at(text@, j))
                && a.selector_on(c.q_regex.index as int, start + j) by {
                if j < i {
                    assert(b0.cell_value(c.automata_state, start + j) == Some(state_at(states@, j)));
                    assert(b0.cell_value(c.current_character, start + j) == Some(char_at(text@, j)));
                    assert(b0.selector_on(c.q_regex.index as int, start + j));
                } else {
                    assert(b2.cell_value(c.automata_state, start + j) == Some(state_at(states@, j)));
                }
            }
            assert forall|j: int| i + 1 <= j <= 20 implies #[trigger] a.cell(c.automata_state, start + j) is None
                && a.cell(c.current_character, start + j) is None by {
                assert(b0.cell(c.automata_state, start + j) is None);
                assert(b0.cell(c.current_character, start + j) is None);
            }
        }
        i = i + 1;
    }
    let ghost e0 = *a;
    match a.assign_advice(c.automata_state, MAX_STR_LEN, Fe::from_u64(ST_DONE)) {
        Ok(_) => {},
        Err(e) => {
            return Err(e);
        },
    }
    let ghost e1 = *a;
    match a.assign_fixed(c.fixed_state, MAX_STR_LEN, Fe::from_u64(ST_DONE)) {
        Ok(_) => {},
        Err(e) => {
            return Err(e);
        },
    }
    let ghost e2 = *a;
    let _ = a.enable_selector(c.q_match, MAX_STR_LEN);
    let ghost e3 = *a;
    let _ = a.end_region();
    proof {
        assert(forall|c2: Column, r2: int| #[trigger] a.cell(c2, r2) == e3.cell(c2, r2));
        assert(forall|s2: int, r2: int| #[trigger] a.selector_on(s2, r2) == e3.selector_on(s2, r2));
        assert(forall|s2: int, r2: int| #[trigger] e2.selector_on(s2, r2) == e0.selector_on(s2, r2));
        assert forall|j: int| 0 <= j < 20 implies #[trigger] a.cell_value(c.automata_state, start + j) == Some(state_at(states@, j))
            && a.cell_value(c.current_character, start + j) == Some(char_at(text@, j))
            && a.selector_on(c.q_regex.index as int, start + j) by {
            assert(e0.cell_value(c.automata_state, start + j) == Some(state_at(states@, j)));
            assert(e0.cell_value(c.current_character, start + j) == Some(char_at(text@, j)));
            assert(e0.selector_on(c.q_regex.index as int, start + j));
        }
        assert(a.cell_value(c.fixed_state, start) == Some(10int)) by {
            assert(e0.cell_value(c.fixed_state, start) == Some(10int));
        }
        assert(a.selector_on(c.q_match.index as int, start)) by {
            assert(e0.selector_on(c.q_match.index as int, start));
        }
        assert(trace_laid(a, c, start, text@, states@));
        assert forall|s: int, j: int| 0 <= j <= 20 implies (#[trigger] a.selector_on(s, start + j) <==> (s
            == c.q_regex.index && j < 20) || (s == c.q_match.index && (j == 0 || j == 20))) by {
            assert(e0.selector_on(s, start + j) <==> (s == c.q_regex.index && j < 20) || (s == c.q_match.index && j == 0));
            if !(s == c.q_match.index && j == 20) {
                assert(e3.selector_on(s, start + j) == e2.selector_on(s, start + j));
            }
        }
        assert forall|k: int| 0 <= k < 9 implies #[trigger] table_value(a, c.table_state_current, k) == Some(transition(k, 0))
            && table_value(a, c.table_state_next, k) == Some(transition(k, 1))
            && table_value(a, c.table_transition_char, k) == Some(transition(k, 2)) by {
            assert(table_value(&t1, c.table_state_current, k) == Some(transition(k, 0)));
            assert(table_value(&t1, c.table_state_next, k) == Some(transition(k, 1)));
            assert(table_value(&t1, c.table_transition_char, k) == Some(transition(k, 2)));
        }
    }
    Ok(())
}

} // verus!
