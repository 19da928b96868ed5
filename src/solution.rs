//! The solved policy: every non-terminal state with its ranked answers.

use arrayvec::ArrayVec;
use rand::rngs::StdRng;
use vstd::arithmetic::div_mod::lemma_fundamental_div_mod_converse;
use vstd::prelude::*;

use crate::chance::Chance;
use crate::game::GameState;
use crate::outcomes::{
    decode_outcome, encode_outcome, entry, is_top_list, lemma_key_counts, lemma_occurrences_push,
    lemma_occurrences_range, lemma_outcome_key_injective, lemma_some_outcome, lemma_top_len, listed,
    more_frequent, most_frequent, occurrences_of, outcome_key, SimResult,
};
use crate::outside::{
    answer_list, answers_slice, new_answers, new_table, push_answer, roll_percent, table_get,
    table_entries, table_insert, table_len, tracks_slice, Table,
};
use crate::policy::{
    answer, combine, insert_ranked, lemma_ranking, lemma_score_fits, lemma_value_fits, rank_tracks, ranking,
    ranks_before, score_bound, value, Answer,
};
use crate::scoring::Scoring;
use crate::state::State;

verus! {

/// Position of `s` among all states with at most `cap` slots per track:
/// slots left on tracks 0, 1, 2 as digits of base `cap + 1`, then the
/// chance level. Every successor of a state comes before it.
pub open spec fn state_code(s: State, cap: int) -> int {
    ((s.rem(0) * (cap + 1) + s.rem(1)) * (cap + 1) + s.rem(2)) * 6 + s.chance.level()
}

/// Number of states with at most `cap` slots per track, terminal ones
/// included.
pub open spec fn table_size(cap: int) -> int {
    6 * ((cap + 1) * (cap + 1) * (cap + 1))
}

proof fn lemma_code_range(s: State, cap: int)
    requires
        0 <= cap <= 255,
        s.within(cap),
    ensures
        0 <= state_code(s, cap) < table_size(cap),
        s.is_terminal() <==> state_code(s, cap) < 6,
        table_size(cap) <= 6 * 256 * 256 * 256,
{
    let m = cap + 1;
    let (r0, r1, r2) = (s.rem(0), s.rem(1), s.rem(2));
    let a = r0 * m + r1;
    let b = a * m + r2;
    assert(0 <= a < m * m) by (nonlinear_arith)
        requires a == r0 * m + r1, 0 <= r0 < m, 0 <= r1 < m;
    assert(0 <= b < m * m * m) by (nonlinear_arith)
        requires b == a * m + r2, 0 <= a < m * m, 0 <= r2 < m;
    assert(b == 0 <==> (r0 == 0 && r1 == 0 && r2 == 0)) by (nonlinear_arith)
        requires b == a * m + r2, a == r0 * m + r1, 0 <= r0, 0 <= r1, 0 <= r2, m >= 1;
    assert(m * m * m <= 256 * 256 * 256) by (nonlinear_arith)
        requires 1 <= m <= 256;
}

proof fn lemma_code_injective(s1: State, s2: State, cap: int)
    requires
        0 <= cap,
        s1.within(cap),
        s2.within(cap),
        state_code(s1, cap) == state_code(s2, cap),
    ensures
        s1 == s2,
{
    let m = cap + 1;
    let a1 = s1.rem(0) * m + s1.rem(1);
    let a2 = s2.rem(0) * m + s2.rem(1);
    let b1 = a1 * m + s1.rem(2);
    let b2 = a2 * m + s2.rem(2);
    let x = state_code(s1, cap);
    lemma_fundamental_div_mod_converse(x, 6, b1, s1.chance.level() as int);
    lemma_fundamental_div_mod_converse(x, 6, b2, s2.chance.level() as int);
    lemma_fundamental_div_mod_converse(b1, m, a1, s1.rem(2));
    lemma_fundamental_div_mod_converse(b2, m, a2, s2.rem(2));
    lemma_fundamental_div_mod_converse(a1, m, s1.rem(0), s1.rem(1));
    lemma_fundamental_div_mod_converse(a2, m, s2.rem(0), s2.rem(1));
    assert(s1.chance == s2.chance);
    assert(s1.remaining =~= s2.remaining);
}

proof fn lemma_code_successors(s: State, t: int, cap: int)
    requires
        0 <= cap,
        s.within(cap),
        s.can_attempt(t),
    ensures
        state_code(s.on_success(t), cap) < state_code(s, cap),
        state_code(s.on_failure(t), cap) < state_code(s, cap),
{
    crate::state::lemma_successors(s, t, cap);
    let m = cap + 1;
    let b = (s.rem(0) * m + s.rem(1)) * m + s.rem(2);
    assert forall|n: State| n.within(cap) && n.rem(t) == s.rem(t) - 1 && (forall|u: int|
        0 <= u < 3 && u != t ==> n.rem(u) == s.rem(u)) implies state_code(n, cap) < state_code(s, cap) by {
        let bn = (n.rem(0) * m + n.rem(1)) * m + n.rem(2);
        if t == 0 {
            assert(bn == b - m * m) by (nonlinear_arith)
                requires bn == (n.rem(0) * m + n.rem(1)) * m + n.rem(2),
                    b == (s.rem(0) * m + s.rem(1)) * m + s.rem(2),
                    n.rem(0) == s.rem(0) - 1, n.rem(1) == s.rem(1), n.rem(2) == s.rem(2);
            assert(m * m >= 1) by (nonlinear_arith) requires m >= 1;
        } else if t == 1 {
            assert(bn == b - m) by (nonlinear_arith)
                requires bn == (n.rem(0) * m + n.rem(1)) * m + n.rem(2),
                    b == (s.rem(0) * m + s.rem(1)) * m + s.rem(2),
                    n.rem(0) == s.rem(0), n.rem(1) == s.rem(1) - 1, n.rem(2) == s.rem(2);
        } else {
            assert(bn == b - 1);
        }
    }
}

/// The table holds the ranking of every non-terminal state whose code is
/// below `upto`, and nothing else.
spec fn table_holds(m: Table<ArrayVec<Answer, 3>>, w: Scoring, cap: int, upto: int) -> bool {
    &&& forall|k: u32| m@.contains_key(k) <==> 6 <= k < upto
    &&& forall|s: State|
        s.within(cap) && !s.is_terminal() && #[trigger] state_code(s, cap) < upto ==> answer_list(
            m@[state_code(s, cap) as u32],
        ) == ranking(w, s)
    &&& m@.dom().finite()
    &&& m@.len() == if upto >= 6 { upto - 6 } else { 0 }
}

/// Expected score of one attempt, rounded down.
fn combine_exec(p: u32, sw: i64, fw: i64, vs: i128, vf: i128) -> (r: i128)
    requires
        p <= 100,
        -score_bound(765) <= vs <= score_bound(765),
        -score_bound(765) <= vf <= score_bound(765),
    ensures
        r == combine(p as int, sw as int, fw as int, vs as int, vf as int),
{
    let p = p as i128;
    let x = sw as i128 + vs;
    let y = fw as i128 + vf;
    assert(-score_bound(766) <= x <= score_bound(766));
    assert(-score_bound(766) <= y <= score_bound(766));
    assert(-100 * score_bound(766) <= p * x <= 100 * score_bound(766)) by (nonlinear_arith)
        requires 0 <= p <= 100, -score_bound(766) <= x <= score_bound(766), score_bound(766) >= 0;
    assert(-100 * score_bound(766) <= (100 - p) * y <= 100 * score_bound(766)) by (nonlinear_arith)
        requires 0 <= p <= 100, -score_bound(766) <= y <= score_bound(766), score_bound(766) >= 0;
    let n = p * x + (100 - p) * y;
    match n.checked_div_euclid(100) {
        Some(q) => q,
        None => {
            assert(false);
            0
        },
    }
}

proof fn lemma_insert_ranked_at(l: Seq<Answer>, a: Answer, pos: int)
    requires
        0 <= pos <= l.len(),
        forall|j: int| 0 <= j < pos ==> !ranks_before(a, #[trigger] l[j]),
        pos < l.len() ==> ranks_before(a, l[pos]),
    ensures
        insert_ranked(l, a) == l.insert(pos, a),
    decreases l.len(),
{
    if l.len() == 0 {
        assert(l.insert(0, a) =~= seq![a]);
    } else if pos == 0 {
        assert(seq![a] + l =~= l.insert(0, a));
    } else {
        let rest = l.drop_first();
        assert forall|j: int| 0 <= j < pos - 1 implies !ranks_before(a, #[trigger] rest[j]) by {
            assert(rest[j] == l[j + 1]);
        }
        lemma_insert_ranked_at(rest, a, pos - 1);
        assert(seq![l[0]] + rest.insert(pos - 1, a) =~= l.insert(pos, a));
    }
}

/// Places `a` into `v` before the first entry it ranks before.
fn insert_in_rank(v: &mut Vec<Answer>, a: Answer)
    ensures
        final(v)@ == insert_ranked(old(v)@, a),
{
    let mut pos: usize = 0;
    while pos < v.len() && !(a.score > v[pos].score || (a.score == v[pos].score && a.index
        < v[pos].index))
        invariant
            pos <= v@.len(),
            forall|j: int| 0 <= j < pos ==> !ranks_before(a, #[trigger] v@[j]),
        decreases v@.len() - pos,
    {
        pos += 1;
    }
    proof {
        lemma_insert_ranked_at(v@, a, pos as int);
    }
    v.insert(pos, a);
}

/// The value of `s` read from the table: zero at a terminal state, else the
/// score of the best answer.
fn best_value(m: &Table<ArrayVec<Answer, 3>>, w: Ghost<Scoring>, cap: u8, s: &State, upto: Ghost<int>) -> (r: i128)
    requires
        table_holds(*m, w@, cap as int, upto@),
        s.within(cap as int),
        state_code(*s, cap as int) < upto@,
    ensures
        r == value(w@, *s),
{
    if s.remaining[0] == 0 && s.remaining[1] == 0 && s.remaining[2] == 0 {
        proof {
            crate::policy::lemma_value_bound(w@, *s);
        }
        0
    } else {
        proof {
            lemma_code_range(*s, cap as int);
            lemma_ranking(w@, *s);
        }
        let code = code_of(s, cap);
        match table_get(m, code) {
            Some(answers) => {
                let list = answers_slice(answers);
                list[0].score
            },
            None => {
                assert(false);
                0
            },
        }
    }
}

/// The code of `s`, as `state_code` gives it.
fn code_of(s: &State, cap: u8) -> (r: u32)
    requires
        s.within(cap as int),
    ensures
        r == state_code(*s, cap as int),
{
    proof {
        lemma_code_range(*s, cap as int);
    }
    let m = cap as u32 + 1;
    let r0 = s.remaining[0] as u32;
    let r1 = s.remaining[1] as u32;
    let r2 = s.remaining[2] as u32;
    assert(r0 * m + r1 < m * m) by (nonlinear_arith)
        requires r0 < m, r1 < m;
    assert(m * m <= 256 * 256) by (nonlinear_arith)
        requires m <= 256;
    let a = r0 * m + r1;
    assert(a * m + r2 < m * m * m) by (nonlinear_arith)
        requires a < m * m, r2 < m;
    assert(m * m * m <= 256 * 256 * 256) by (nonlinear_arith)
        requires m <= 256;
    let b = a * m + r2;
    b * 6 + s.chance.level_index()
}

/// The answers at a non-terminal state `s`, computed from the table of all
/// states that come before it.
fn rank_state(m: &Table<ArrayVec<Answer, 3>>, w: &Scoring, cap: u8, s: &State) -> (r: ArrayVec<Answer, 3>)
    requires
        table_holds(*m, *w, cap as int, state_code(*s, cap as int)),
        s.within(cap as int),
        !s.is_terminal(),
    ensures
        answer_list(r) == ranking(*w, *s),
{
    let choices = s.available_choices();
    let ts = tracks_slice(&choices);
    let p = s.chance.percent();
    let mut ranked: Vec<Answer> = Vec::new();
    let mut i: usize = 0;
    while i < ts.len()
        invariant
            i <= ts@.len(),
            ts@ == s.open_tracks(),
            ranked@ == rank_tracks(*w, *s, ts@.take(i as int)),
            table_holds(*m, *w, cap as int, state_code(*s, cap as int)),
            s.within(cap as int),
            p == s.chance.percent_spec(),
        decreases ts@.len() - i,
    {
        let t = ts[i];
        assert(s.can_attempt(t as int));
        let (succ, fail) = s.transition(t);
        proof {
            lemma_code_successors(*s, t as int, cap as int);
            crate::state::lemma_successors(*s, t as int, cap as int);
            lemma_value_fits(*w, succ);
            lemma_value_fits(*w, fail);
        }
        let vs = best_value(m, Ghost(*w), cap, &succ, Ghost(state_code(*s, cap as int)));
        let vf = best_value(m, Ghost(*w), cap, &fail, Ghost(state_code(*s, cap as int)));
        let score = combine_exec(p, w.success[t], w.fail[t], vs, vf);
        proof {
            lemma_score_fits(*w, *s, t as int);
            assert(ts@.take(i + 1).drop_last() =~= ts@.take(i as int));
        }
        let a = Answer { index: t, score };
        assert(a == answer(*w, *s, t as int));
        insert_in_rank(&mut ranked, a);
        i += 1;
    }
    assert(ts@.take(i as int) =~= ts@);
    proof {
        lemma_ranking(*w, *s);
    }
    let mut out = new_answers();
    let mut j: usize = 0;
    while j < ranked.len()
        invariant
            j <= ranked@.len(),
            ranked@.len() <= 3,
            answer_list(out) == ranked@.take(j as int),
        decreases ranked@.len() - j,
    {
        push_answer(&mut out, ranked[j]);
        assert(ranked@.take(j + 1) =~= ranked@.take(j as int).push(ranked@[j as int]));
        j += 1;
    }
    assert(ranked@.take(j as int) =~= ranked@);
    out
}


/// The answers `l` with `bonus` added to each score.
pub open spec fn with_bonus(l: Seq<Answer>, bonus: int) -> Seq<Answer> {
    Seq::new(l.len(), |i: int| Answer { index: l[i].index, score: (l[i].score + bonus) as i128 })
}

/// Number of successes among the outcomes `row`.
pub open spec fn successes(row: Seq<bool>) -> int
    decreases row.len(),
{
    if row.len() == 0 {
        0
    } else {
        successes(row.drop_last()) + if row.last() { 1int } else { 0int }
    }
}

/// Successes recorded so far on each track of the game `gs`.
pub open spec fn seeded(gs: GameState) -> Seq<int> {
    seq![successes(gs.row_spec(0)), successes(gs.row_spec(1)), successes(gs.row_spec(2))]
}

/// The three counts of `a`.
pub open spec fn counts_of(a: [u8; 3]) -> Seq<int> {
    seq![a@[0] as int, a@[1] as int, a@[2] as int]
}

/// Successes per track at the end of a game played from `s` by the policy
/// for `w`, with `counts` successes so far: each time the best-ranked track
/// is attempted, and the next roll decides it (success when below the
/// success percentage).
pub open spec fn play(w: Scoring, s: State, counts: Seq<int>, rolls: Seq<u32>) -> Seq<int>
    decreases s.depth(),
{
    if s.is_terminal() {
        counts
    } else {
        let t = ranking(w, s)[0].index as int;
        if !s.can_attempt(t) {
            counts
        } else if rolls.len() > 0 && rolls[0] < s.chance.percent_spec() {
            play(w, s.on_success(t), counts.update(t, counts[t] + 1), rolls.drop_first())
        } else {
            play(w, s.on_failure(t), counts, rolls.drop_first())
        }
    }
}

/// Playing on never loses a success, and no track ends with more successes
/// than slots.
pub proof fn lemma_play_bounds(w: Scoring, s: State, counts: Seq<int>, rolls: Seq<u32>, cap: int)
    requires
        counts.len() == 3,
        forall|t: int| 0 <= t < 3 ==> 0 <= #[trigger] counts[t] && counts[t] + s.rem(t) <= cap,
    ensures
        play(w, s, counts, rolls).len() == 3,
        forall|t: int| 0 <= t < 3 ==> counts[t] <= #[trigger] play(w, s, counts, rolls)[t] <= cap,
    decreases s.depth(),
{
    if !s.is_terminal() {
        let t = ranking(w, s)[0].index as int;
        if s.can_attempt(t) {
            crate::state::lemma_successors(s, t, cap);
            if rolls.len() > 0 && rolls[0] < s.chance.percent_spec() {
                let next = counts.update(t, counts[t] + 1);
                lemma_play_bounds(w, s.on_success(t), next, rolls.drop_first(), cap);
            } else {
                lemma_play_bounds(w, s.on_failure(t), counts, rolls.drop_first(), cap);
            }
        }
    }
}

/// `c` is what a game played from `start` by the policy for `w` can end
/// with: for some roll below 100 per attempt left, the play gives `c`.
pub open spec fn is_rollout(w: Scoring, start: GameState, c: [u8; 3]) -> bool {
    forall|s: State| #[trigger] s.matches_game(start) ==> exists|rolls: Seq<u32>|
        rolls.len() == s.depth() && (forall|i: int| 0 <= i < rolls.len() ==> #[trigger] rolls[i] < 100)
            && counts_of(c) == play(w, s, seeded(start), rolls)
}

/// `r` is the top list, scored under `w` with `cap` slots per track, of the
/// outcomes of `trials` games played from `start`.
pub open spec fn simulated_top(w: Scoring, cap: int, start: GameState, trials: nat, r: Seq<SimResult>) -> bool {
    exists|outs: Seq<[u8; 3]>| outs.len() == trials && (forall|k: int| 0 <= k < outs.len() ==> is_rollout(
        w,
        start,
        #[trigger] outs[k],
    )) && is_top_list(w, cap, outs, r)
}

/// Number of successes in `row`.
fn count_successes(row: &[bool]) -> (r: u8)
    requires
        row@.len() <= 255,
    ensures
        r == successes(row@),
        r <= row@.len(),
{
    let mut n: u8 = 0;
    let mut j: usize = 0;
    while j < row.len()
        invariant
            j <= row@.len() <= 255,
            n == successes(row@.take(j as int)),
            n <= j,
        decreases row@.len() - j,
    {
        assert(row@.take(j + 1).drop_last() =~= row@.take(j as int));
        if row[j] {
            n += 1;
        }
        j += 1;
    }
    assert(row@.take(j as int) =~= row@);
    n
}

/// Counts how often each outcome of `outs` occurs, keyed by outcome key.
fn tally(outs: &Vec<[u8; 3]>) -> (m: Table<u32>)
    requires
        outs@.len() <= u32::MAX,
    ensures
        forall|k: u32| #[trigger] m@.contains_key(k) <==> exists|j: int| 0 <= j < outs@.len()
            && outcome_key(#[trigger] outs@[j]) == k,
        forall|j: int| 0 <= j < outs@.len() ==> m@.contains_key(outcome_key(#[trigger] outs@[j]) as u32)
            && m@[outcome_key(outs@[j]) as u32] == occurrences_of(outs@, outs@[j]),
{
    let mut m: Table<u32> = new_table();
    let mut i: usize = 0;
    while i < outs.len()
        invariant
            i <= outs@.len() <= u32::MAX,
            forall|k: u32| #[trigger] m@.contains_key(k) <==> exists|j: int| 0 <= j < i
                && outcome_key(#[trigger] outs@[j]) == k,
            forall|j: int| 0 <= j < i ==> m@.contains_key(outcome_key(#[trigger] outs@[j]) as u32)
                && m@[outcome_key(outs@[j]) as u32] == occurrences_of(outs@.take(i as int), outs@[j]),
        decreases outs@.len() - i,
    {
        let c = outs[i];
        let key = encode_outcome(c);
        let ghost before = outs@.take(i as int);
        let seen = match table_get(&m, key) {
            Some(v) => *v,
            None => 0,
        };
        proof {
            assert(outs@.take(i + 1) =~= before.push(c));
            lemma_occurrences_range(before, c);
            if m@.contains_key(key) {
                let j = choose|j: int| 0 <= j < i && outcome_key(#[trigger] outs@[j]) == key;
                lemma_outcome_key_injective(outs@[j], c);
            } else {
                assert forall|j: int| 0 <= j < before.len() implies before[j] != c by {
                    assert(before[j] == outs@[j]);
                }
            }
            assert(seen == occurrences_of(before, c));
        }
        table_insert(&mut m, key, seen + 1);
        proof {
            assert forall|j: int| 0 <= j < i + 1 implies m@.contains_key(outcome_key(#[trigger] outs@[j]) as u32)
                && m@[outcome_key(outs@[j]) as u32] == occurrences_of(outs@.take(i + 1), outs@[j]) by {
                lemma_occurrences_push(before, c, outs@[j]);
                if outcome_key(outs@[j]) == key {
                    lemma_outcome_key_injective(outs@[j], c);
                } else if j < i {
                    assert(outs@[j] != c);
                }
            }
            assert forall|k: u32| #[trigger] m@.contains_key(k) implies exists|j: int| 0 <= j < i + 1
                && outcome_key(#[trigger] outs@[j]) == k by {
                if k == key {
                    assert(outcome_key(outs@[i as int]) == k);
                }
            }
        }
        i += 1;
    }
    assert(outs@.take(i as int) =~= outs@);
    m
}

/// After the odometer moves from digits `(r0, r1, r2)` to the next tuple,
/// the code of the first state there is six more than the last code before.
proof fn lemma_odometer_step(r0: int, r1: int, r2: int, cap: int)
    requires
        0 <= r0 <= cap,
        0 <= r1 <= cap,
        0 <= r2 <= cap,
    ensures
        r2 < cap ==> ((r0 * (cap + 1) + r1) * (cap + 1) + r2 + 1) == ((r0 * (cap + 1) + r1) * (cap + 1)
            + r2) + 1,
        r2 == cap && r1 < cap ==> ((r0 * (cap + 1) + r1 + 1) * (cap + 1) + 0) == ((r0 * (cap + 1) + r1)
            * (cap + 1) + r2) + 1,
        r2 == cap && r1 == cap ==> (((r0 + 1) * (cap + 1) + 0) * (cap + 1) + 0) == ((r0 * (cap + 1)
            + r1) * (cap + 1) + r2) + 1,
        ((r0 * (cap + 1) + r1) * (cap + 1) + r2) < (cap + 1) * (cap + 1) * (cap + 1),
{
    let m = cap + 1;
    assert((r0 * m + r1 + 1) * m == (r0 * m + r1) * m + m) by (nonlinear_arith);
    assert(((r0 + 1) * m) * m == (r0 * m + cap) * m + m) by (nonlinear_arith)
        requires m == cap + 1;
    assert(r0 * m + r1 < m * m) by (nonlinear_arith)
        requires 0 <= r0 < m, 0 <= r1 < m;
    assert((r0 * m + r1) * m + r2 < m * m * m) by (nonlinear_arith)
        requires 0 <= r0 * m + r1 < m * m, 0 <= r2 < m;
}

/// The optimal policy for one slot count and one set of weights: for every
/// non-terminal state, the open tracks ranked by expected final score.
pub struct Solution {
    scoring: Scoring,
    optimal: Table<ArrayVec<Answer, 3>>,
    count: u8,
}

impl Solution {
    /// The weights the policy was built for.
    pub closed spec fn scoring_spec(&self) -> Scoring {
        self.scoring
    }

    /// The slots per track the policy was built for.
    pub closed spec fn capacity(&self) -> int {
        self.count as int
    }

    /// The ranked answers stored for state `s`.
    pub closed spec fn answers_at(&self, s: State) -> Seq<Answer> {
        answer_list(self.optimal@[state_code(s, self.count as int) as u32])
    }

    /// The number of states stored.
    pub closed spec fn stored(&self) -> int {
        self.optimal@.len() as int
    }

    /// Every non-terminal state within the capacity, and no other, has its
    /// ranking stored.
    #[verifier::type_invariant]
    pub closed spec fn wf(&self) -> bool {
        table_holds(self.optimal, self.scoring, self.count as int, table_size(self.count as int))
    }

    /// Solves the game for `count` slots per track under `scoring`, by
    /// backward induction over every state. Expected scores are whole units
    /// of the weights, each step of the expectation rounded down.
    pub fn build(scoring: Scoring, count: u8) -> (r: Solution)
        ensures
            r.wf(),
            r.scoring_spec() == scoring,
            r.capacity() == count,
            forall|s: State| #![auto] s.within(count as int) && !s.is_terminal() ==> r.answers_at(s)
                == ranking(scoring, s),
            forall|s: State, i: int| #![auto] s.within(count as int) && !s.is_terminal() && 0 <= i
                < r.answers_at(s).len() ==> s.can_attempt(r.answers_at(s)[i].index as int),
            forall|s: State| #![auto] s.within(count as int) && !s.is_terminal() ==> r.answers_at(s).len()
                == s.open_tracks().len(),
            r.stored() == 6 * ((count + 1) * (count + 1) * (count + 1) - 1),
    {
        let optimal = Solution::build_impl(&scoring, count);
        let this = Solution { scoring, optimal, count };
        proof {
            this.lemma_answers();
            assert forall|s: State| #![auto] s.within(count as int) && !s.is_terminal() implies
                this.answers_at(s).len() == s.open_tracks().len() && forall|i: int| 0 <= i
                < this.answers_at(s).len() ==> s.can_attempt(this.answers_at(s)[i].index as int) by {
                lemma_recommends_open_tracks(&this, s);
            }
        }
        this
    }

    /// What `wf` gives about the stored answers and their number.
    pub proof fn lemma_answers(&self)
        requires
            self.wf(),
        ensures
            forall|s: State| #![auto] s.within(self.capacity()) && !s.is_terminal() ==> self.answers_at(s)
                == ranking(self.scoring_spec(), s),
            self.stored() == 6 * ((self.capacity() + 1) * (self.capacity() + 1) * (self.capacity() + 1) - 1),
            0 <= self.capacity() <= 255,
    {
        let c = self.count as int;
        assert(table_size(c) >= 6) by (nonlinear_arith)
            requires table_size(c) == 6 * ((c + 1) * (c + 1) * (c + 1)), c >= 0;
        assert forall|s: State| #![auto] s.within(c) && !s.is_terminal() implies self.answers_at(s)
            == ranking(self.scoring, s) by {
            lemma_code_range(s, c);
        }
    }

    /// Fills the table, walking the slot counts as an odometer from
    /// `(0, 0, 0)` upward so that every successor is stored before the states
    /// that lead to it.
    fn build_impl(scoring: &Scoring, count: u8) -> (r: Table<ArrayVec<Answer, 3>>)
        ensures
            table_holds(r, *scoring, count as int, table_size(count as int)),
    {
        let mut optimal: Table<ArrayVec<Answer, 3>> = new_table();
        let cap = count;
        let ghost c = cap as int;
        let mut r0: u32 = 0;
        let mut r1: u32 = 0;
        let mut r2: u32 = 0;
        let mut code: u32 = 0;
        assert(optimal@.dom().len() == 0);
        while r0 <= cap as u32
            invariant
                c == cap as int,
                r0 <= c + 1,
                r1 <= c,
                r2 <= c,
                r0 == c + 1 ==> r1 == 0 && r2 == 0,
                code == ((r0 * (c + 1) + r1) * (c + 1) + r2) * 6,
                table_holds(optimal, *scoring, c, code as int),
            decreases c + 1 - r0, c - r1, c - r2,
        {
            proof {
                lemma_odometer_step(r0 as int, r1 as int, r2 as int, c);
                lemma_table_size(c);
            }
            let ghost base = code as int;
            let mut level: u8 = 0;
            while level < 6
                invariant
                    c == cap as int,
                    r0 <= c,
                    r1 <= c,
                    r2 <= c,
                    level <= 6,
                    base == ((r0 * (c + 1) + r1) * (c + 1) + r2) * 6,
                    base + 6 <= table_size(c),
                    table_size(c) <= 6 * 256 * 256 * 256,
                    code == base + level,
                    table_holds(optimal, *scoring, c, code as int),
                decreases 6 - level,
            {
                let state = State {
                    chance: Chance::from_level(level),
                    remaining: [r0 as u8, r1 as u8, r2 as u8],
                };
                assert(state.rem(0) == r0 && state.rem(1) == r1 && state.rem(2) == r2);
                assert(state_code(state, c) == code);
                proof {
                    lemma_code_range(state, c);
                }
                let ghost old_table = optimal;
                if r0 > 0 || r1 > 0 || r2 > 0 {
                    let answers = rank_state(&optimal, scoring, cap, &state);
                    table_insert(&mut optimal, code, answers);
                    proof {
                        assert forall|s: State|
                            s.within(c) && !s.is_terminal() && #[trigger] state_code(s, c) < code + 1
                            implies answer_list(optimal@[state_code(s, c) as u32])
                            == ranking(*scoring, s) by {
                            lemma_code_range(s, c);
                            if state_code(s, c) == code {
                                lemma_code_injective(s, state, c);
                            }
                        }
                        assert(!old_table@.dom().contains(code));
                    }
                } else {
                    proof {
                        assert forall|s: State|
                            s.within(c) && !s.is_terminal() && #[trigger] state_code(s, c) < code + 1
                            implies answer_list(optimal@[state_code(s, c) as u32])
                            == ranking(*scoring, s) by {
                            lemma_code_range(s, c);
                        }
                    }
                }
                code += 1;
                level += 1;
            }
            if r2 < cap as u32 {
                r2 += 1;
            } else {
                r2 = 0;
                if r1 < cap as u32 {
                    r1 += 1;
                } else {
                    r1 = 0;
                    r0 += 1;
                }
            }
        }
        proof {
            assert(code == table_size(c)) by (nonlinear_arith)
                requires code == ((r0 * (c + 1) + r1) * (c + 1) + r2) * 6, r0 == c + 1, r1 == 0, r2 == 0,
                    table_size(c) == 6 * ((c + 1) * (c + 1) * (c + 1));
        }
        optimal
    }

    /// The ranked answers at `state`; none at a terminal state.
    pub fn lookup(&self, state: &State) -> (r: Option<&ArrayVec<Answer, 3>>)
        requires
            state.within(self.capacity()),
        ensures
            match r {
                Some(a) => !state.is_terminal() && answer_list(*a) == ranking(self.scoring_spec(), *state),
                None => state.is_terminal(),
            },
    {
        proof {
            use_type_invariant(self);
        }
        proof {
            self.lemma_answers();
            lemma_code_range(*state, self.count as int);
        }
        if state.remaining[0] == 0 && state.remaining[1] == 0 && state.remaining[2] == 0 {
            return None;
        }
        let code = code_of(state, self.count);
        let r = table_get(&self.optimal, code);
        assert(r is Some);
        r
    }

    /// The ranked answers for the next attempt in the game `gs`, each score
    /// the expected final score of the whole game (points already earned
    /// included); none once every slot is used.
    pub fn sorted_choices(&self, gs: &GameState) -> (r: Option<ArrayVec<Answer, 3>>)
        requires
            gs.rows_within_slots(),
            gs.fits(self.capacity()),
        ensures
            forall|s: State| #[trigger] s.matches_game(*gs) ==> match r {
                Some(a) => !s.is_terminal() && answer_list(a) == with_bonus(
                    ranking(self.scoring_spec(), s),
                    self.scoring_spec().partial_spec(*gs),
                ),
                None => s.is_terminal(),
            },
    {
        proof {
            use_type_invariant(self);
        }
        let partial_score = self.scoring.eval_partial(gs);
        let state = State::from_game(gs);
        let found = self.lookup(&state);
        match found {
            None => {
                proof {
                    assert forall|s: State| #[trigger] s.matches_game(*gs) implies s.is_terminal() by {}
                }
                None
            },
            Some(answers) => {
                let list = answers_slice(answers);
                let ghost w = self.scoring;
                proof {
                    lemma_ranking(w, state);
                }
                let mut out = new_answers();
                let mut i: usize = 0;
                while i < list.len()
                    invariant
                        i <= list@.len(),
                        list@ == ranking(w, state),
                        list@.len() <= 3,
                        -765 * crate::scoring::weight_bound() <= partial_score <= 765
                            * crate::scoring::weight_bound(),
                        answer_list(out) == with_bonus(list@, partial_score as int).take(i as int),
                    decreases list@.len() - i,
                {
                    let a = list[i];
                    proof {
                        lemma_ranking(w, state);
                        assert(list@[i as int] == a);
                        lemma_score_fits(w, state, a.index as int);
                    }
                    let shifted = Answer { index: a.index, score: a.score + partial_score };
                    push_answer(&mut out, shifted);
                    assert(with_bonus(list@, partial_score as int).take(i + 1) =~= with_bonus(
                        list@,
                        partial_score as int,
                    ).take(i as int).push(shifted));
                    i += 1;
                }
                proof {
                    assert(with_bonus(list@, partial_score as int).take(i as int) =~= with_bonus(
                        list@,
                        partial_score as int,
                    ));
                    assert forall|s: State| #[trigger] s.matches_game(*gs) implies !s.is_terminal()
                        && answer_list(out) == with_bonus(ranking(w, s), self.scoring.partial_spec(*gs)) by {
                        assert(s.remaining =~= state.remaining);
                    }
                }
                Some(out)
            },
        }
    }

    /// Plays the policy from `start` with `counts` successes so far, using
    /// `rolls` in order to decide the attempts.
    pub fn play_out(&self, start: &State, counts: [u8; 3], rolls: &Vec<u32>) -> (r: [u8; 3])
        requires
            start.within(self.capacity()),
            rolls@.len() >= start.depth(),
            forall|t: int| 0 <= t < 3 ==> #[trigger] counts@[t] + start.rem(t) <= self.capacity(),
        ensures
            counts_of(r) == play(self.scoring_spec(), *start, counts_of(counts), rolls@),
    {
        proof {
            use_type_invariant(self);
        }
        let ghost w = self.scoring;
        let ghost cap = self.count as int;
        let ghost goal = play(w, *start, counts_of(counts), rolls@);
        let mut state = *start;
        let mut scores = counts;
        let mut k: usize = 0;
        let total = rolls.len();
        assert(rolls@.skip(0) =~= rolls@);
        loop
            invariant
                total == rolls@.len(),
                self.wf(),
                w == self.scoring,
                cap == self.count,
                state.within(cap),
                k <= rolls@.len(),
                rolls@.len() - k >= state.depth(),
                forall|t: int| 0 <= t < 3 ==> #[trigger] scores@[t] + state.rem(t) <= cap,
                play(w, state, counts_of(scores), rolls@.skip(k as int)) == goal,
            ensures
                state.is_terminal(),
                play(w, state, counts_of(scores), rolls@.skip(k as int)) == goal,
            decreases state.depth(),
        {
            let choices = state.available_choices();
            if tracks_slice(&choices).len() == 0 {
                break;
            }
            let best = match self.lookup(&state) {
                Some(answers) => {
                    proof {
                        lemma_ranking(w, state);
                    }
                    answers_slice(answers)[0]
                },
                None => {
                    assert(false);
                    return scores;
                },
            };
            let ghost before = state;
            let ghost before_scores = scores;
            assert(k < rolls@.len());
            proof {
                crate::state::lemma_successors(state, best.index as int, cap);
                assert(rolls@.skip(k as int).drop_first() =~= rolls@.skip(k + 1));
                assert(rolls@.skip(k as int)[0] == rolls@[k as int]);
            }
            let success = state.update(best.index, rolls[k]);
            if success {
                scores[best.index] = scores[best.index] + 1;
            }
            proof {
                if success {
                    assert(counts_of(scores) =~= counts_of(before_scores).update(best.index as int,
                        counts_of(before_scores)[best.index as int] + 1));
                }
            }
            k += 1;
        }
        assert(counts_of(scores) == goal);
        scores
    }

    /// Plays one game to its end from the progress `start`, following the
    /// policy, with attempts decided by `rng`. Returns the successes per
    /// track, recorded ones included.
    pub fn simulate_once(&self, start: &GameState, rng: &mut StdRng) -> (r: [u8; 3])
        requires
            start.rows_within_slots(),
            start.slots() == self.capacity(),
        ensures
            is_rollout(self.scoring_spec(), *start, r),
            forall|t: int| 0 <= t < 3 ==> seeded(*start)[t] <= #[trigger] r@[t] <= self.capacity(),
    {
        proof {
            use_type_invariant(self);
        }
        let state = State::from_game(start);
        let counts = [
            count_successes(start.row(0)),
            count_successes(start.row(1)),
            count_successes(start.row(2)),
        ];
        assert(counts_of(counts) =~= seeded(*start));
        let n = state.remaining[0] as usize + state.remaining[1] as usize + state.remaining[2] as usize;
        let mut rolls: Vec<u32> = Vec::new();
        let mut i: usize = 0;
        while i < n
            invariant
                i <= n,
                rolls@.len() == i,
                forall|k: int| 0 <= k < i ==> #[trigger] rolls@[k] < 100,
            decreases n - i,
        {
            rolls.push(roll_percent(rng));
            i += 1;
        }
        let r = self.play_out(&state, counts, &rolls);
        proof {
            lemma_play_bounds(self.scoring, state, counts_of(counts), rolls@, self.count as int);
            assert forall|s: State| #[trigger] s.matches_game(*start) implies exists|rolls: Seq<u32>|
                rolls.len() == s.depth() && (forall|i: int| 0 <= i < rolls.len() ==> #[trigger] rolls[i]
                    < 100) && counts_of(r) == play(self.scoring, s, seeded(*start), rolls) by {
                assert(s.remaining =~= state.remaining);
            }
            assert forall|t: int| 0 <= t < 3 implies seeded(*start)[t] <= #[trigger] r@[t] <= self.count by {
                assert(counts_of(r)[t] == r@[t]);
            }
        }
        r
    }

    /// The slots per track the policy was built for.
    pub fn count(&self) -> (r: u8)
        ensures
            r == self.capacity(),
    {
        self.count
    }

    /// The weights the policy was built for.
    pub fn scoring(&self) -> (r: Scoring)
        ensures
            r == self.scoring_spec(),
    {
        self.scoring
    }

    /// Score of a finished game with `result[t]` successes on track `t`.
    pub fn eval_result(&self, result: [u8; 3]) -> (r: i128)
        ensures
            r == self.scoring_spec().eval_spec(result, self.capacity()),
    {
        self.scoring.eval(result, self.count)
    }

    /// The ten most frequent of the outcomes `outs`, most frequent first
    /// (equal frequencies by outcome key), each with its number of
    /// occurrences and final score.
    pub fn top_outcomes(&self, outs: &Vec<[u8; 3]>) -> (r: Vec<SimResult>)
        requires
            outs@.len() <= u32::MAX,
        ensures
            is_top_list(self.scoring_spec(), self.capacity(), outs@, r@),
    {
        let ghost w = self.scoring;
        let ghost cap = self.count as int;
        let m = tally(outs);
        let entries = table_entries(&m);
        let top = most_frequent(&entries, 10);
        let trials = outs.len() as u32;
        let mut results: Vec<SimResult> = Vec::new();
        let mut j: usize = 0;
        while j < top.len()
            invariant
                j <= top@.len() <= 10,
                results@.len() == j,
                w == self.scoring,
                cap == self.count,
                trials == outs@.len(),
                forall|x: int| 0 <= x < top@.len() ==> entries@.contains(#[trigger] top@[x]),
                forall|x: int, y: int| 0 <= x < y < top@.len() ==> more_frequent(top@[x], top@[y]),
                forall|x: int| 0 <= x < entries@.len() && !top@.contains(#[trigger] entries@[x]) ==> top@.len()
                    == 10 && forall|i: int| 0 <= i < top@.len() ==> more_frequent(#[trigger] top@[i], entries@[x]),
                forall|x: int, y: int| 0 <= x < y < entries@.len() ==> entries@[x].0 != entries@[y].0,
                forall|k: u32| m@.contains_key(k) ==> exists|x: int| 0 <= x < entries@.len() && #[trigger] entries@[x].0 == k,
                forall|x: int| 0 <= x < entries@.len() ==> m@.contains_key(#[trigger] entries@[x].0)
                    && m@[entries@[x].0] == entries@[x].1,
                forall|k: u32| #[trigger] m@.contains_key(k) <==> exists|jj: int| 0 <= jj < outs@.len()
                    && outcome_key(#[trigger] outs@[jj]) == k,
                forall|jj: int| 0 <= jj < outs@.len() ==> m@.contains_key(outcome_key(#[trigger] outs@[jj]) as u32)
                    && m@[outcome_key(outs@[jj]) as u32] == occurrences_of(outs@, outs@[jj]),
                forall|x: int| #![trigger results@[x]] 0 <= x < j ==> {
                    &&& outs@.contains(results@[x].counts)
                    &&& entry(results@[x]) == top@[x]
                    &&& results@[x].occurrences == occurrences_of(outs@, results@[x].counts)
                    &&& results@[x].trials == outs@.len()
                    &&& results@[x].score == w.eval_spec(results@[x].counts, cap)
                },
            decreases top@.len() - j,
        {
            let (key, occurrences) = top[j];
            let ghost jj: int;
            proof {
                assert(entries@.contains(top@[j as int]));
                let e = choose|e: int| 0 <= e < entries@.len() && entries@[e] == top@[j as int];
                assert(m@.contains_key(entries@[e].0));
                jj = choose|jj: int| 0 <= jj < outs@.len() && outcome_key(#[trigger] outs@[jj]) == key;
                lemma_key_counts(outs@[jj]);
                assert(m@[key] == occurrences);
                assert(occurrences == occurrences_of(outs@, outs@[jj]));
            }
            let counts = decode_outcome(key);
            proof {
                assert(counts =~= outs@[jj]);
                assert(outs@.contains(counts));
            }
            let score = self.eval_result(counts);
            let item = SimResult { counts, occurrences, trials, score };
            assert(entry(item) == top@[j as int]);
            assert(outs@.contains(item.counts));
            assert(item.occurrences == occurrences_of(outs@, item.counts));
            assert(item.score == w.eval_spec(item.counts, cap));
            let ghost old_results = results@;
            results.push(item);
            assert forall|x: int| 0 <= x < j implies results@[x] == old_results[x] by {}
            j += 1;
        }
        proof {
            let r = results@;
            assert forall|x: int, y: int| 0 <= x < y < r.len() implies r[x].counts != r[y].counts by {
                if r[x].counts == r[y].counts {
                    let a = choose|a: int| 0 <= a < entries@.len() && entries@[a] == top@[x];
                    let b = choose|b: int| 0 <= b < entries@.len() && entries@[b] == top@[y];
                    if a != b {
                        if a < b {
                            assert(entries@[a].0 != entries@[b].0);
                        } else {
                            assert(entries@[b].0 != entries@[a].0);
                        }
                    }
                    assert(more_frequent(top@[x], top@[y]));
                }
            }
            assert forall|c: [u8; 3]| outs@.contains(c) && !listed(r).contains(c) implies r.len() == 10
                && forall|i: int| 0 <= i < r.len() ==> more_frequent(#[trigger] entry(r[i]),
                (outcome_key(c) as u32, occurrences_of(outs@, c) as u32)) by {
                let jc = choose|jc: int| 0 <= jc < outs@.len() && outs@[jc] == c;
                lemma_key_counts(c);
                lemma_occurrences_range(outs@, c);
                let kc = outcome_key(c) as u32;
                assert(m@.contains_key(outcome_key(outs@[jc]) as u32));
                assert(m@.contains_key(kc));
                let a = choose|a: int| 0 <= a < entries@.len() && #[trigger] entries@[a].0 == kc;
                let e = entries@[a];
                assert(e == (outcome_key(c) as u32, occurrences_of(outs@, c) as u32));
                if top@.contains(e) {
                    let x = choose|x: int| 0 <= x < top@.len() && top@[x] == e;
                    assert(entry(r[x]) == e);
                    lemma_outcome_key_injective(r[x].counts, c);
                    assert(listed(r)[x] == c);
                }
                assert(!top@.contains(entries@[a]));
            }
            assert forall|x: int, y: int| 0 <= x < y < r.len() implies more_frequent(entry(r[x]), entry(r[y])) by {
                assert(more_frequent(top@[x], top@[y]));
            }
            lemma_top_len(outs@, r);
        }
        results
    }

    /// Plays `sim_tries` games from `start` and returns the ten most frequent
    /// outcomes, most frequent first (equal frequencies by outcome key), each
    /// with its frequency and final score.
    pub fn simulate_top_10(&self, sim_tries: u32, start: &GameState, rng: &mut StdRng) -> (r: Vec<SimResult>)
        requires
            start.rows_within_slots(),
            start.slots() == self.capacity(),
        ensures
            simulated_top(self.scoring_spec(), self.capacity(), *start, sim_tries as nat, r@),
            sim_tries > 0 ==> r@.len() > 0,
            forall|i: int, t: int| 0 <= i < r@.len() && 0 <= t < 3 ==> seeded(*start)[t]
                <= #[trigger] r@[i].counts@[t] <= self.capacity(),
    {
        proof {
            use_type_invariant(self);
        }
        let ghost w = self.scoring;
        let ghost cap = self.count as int;
        let mut outs: Vec<[u8; 3]> = Vec::new();
        let mut i: u32 = 0;
        while i < sim_tries
            invariant
                w == self.scoring,
                cap == self.count,
                start.rows_within_slots(),
                start.slots() == cap,
                i <= sim_tries,
                outs@.len() == i,
                forall|k: int| 0 <= k < outs@.len() ==> is_rollout(w, *start, #[trigger] outs@[k]),
                forall|k: int, t: int| 0 <= k < outs@.len() && 0 <= t < 3 ==> seeded(*start)[t]
                    <= #[trigger] outs@[k]@[t] <= cap,
            decreases sim_tries - i,
        {
            let outcome = self.simulate_once(start, rng);
            outs.push(outcome);
            i += 1;
        }
        let r = self.top_outcomes(&outs);
        proof {
            assert(outs@.len() == sim_tries);
            if sim_tries > 0 {
                lemma_some_outcome(outs@);
            }
            assert forall|x: int, t: int| 0 <= x < r@.len() && 0 <= t < 3 implies seeded(*start)[t]
                <= #[trigger] r@[x].counts@[t] <= cap by {
                assert(outs@.contains(r@[x].counts));
                let k = choose|k: int| 0 <= k < outs@.len() && outs@[k] == r@[x].counts;
                assert(seeded(*start)[t] <= outs@[k]@[t] <= cap);
            }
        }
        r
    }

    /// Number of states stored: every combination of chance level and slots
    /// left, but the six terminal ones.
    pub fn num_states(&self) -> (r: usize)
        ensures
            r == 6 * ((self.capacity() + 1) * (self.capacity() + 1) * (self.capacity() + 1) - 1),
    {
        proof {
            use_type_invariant(self);
        }
        proof {
            self.lemma_answers();
        }
        table_len(&self.optimal)
    }
}

/// Two policies built for the same weights and slots hold the same answers
/// at every state.
pub proof fn lemma_build_deterministic(a: &Solution, b: &Solution)
    requires
        a.wf(),
        b.wf(),
        a.scoring_spec() == b.scoring_spec(),
        a.capacity() == b.capacity(),
    ensures
        forall|s: State| #![auto] s.within(a.capacity()) && !s.is_terminal() ==> a.answers_at(s)
            == b.answers_at(s),
{
    a.lemma_answers();
    b.lemma_answers();
}

/// The policy recommends only tracks with a slot left, and ranks every such
/// track exactly once.
pub proof fn lemma_recommends_open_tracks(p: &Solution, s: State)
    requires
        p.wf(),
        s.within(p.capacity()),
        !s.is_terminal(),
    ensures
        p.answers_at(s).len() > 0,
        forall|i: int| #![auto] 0 <= i < p.answers_at(s).len() ==> s.can_attempt(
            p.answers_at(s)[i].index as int,
        ),
        forall|i: int, j: int| #![auto] 0 <= i < j < p.answers_at(s).len() ==> p.answers_at(s)[i].index
            != p.answers_at(s)[j].index,
        p.answers_at(s).len() == s.open_tracks().len(),
{
    p.lemma_answers();
    let w = p.scoring_spec();
    lemma_ranking(w, s);
    let r = ranking(w, s);
    assert forall|i: int, j: int| #![auto] 0 <= i < j < r.len() implies r[i].index != r[j].index by {
        assert(ranks_before(r[i], r[j]));
        assert(r[i] == answer(w, s, r[i].index as int));
        assert(r[j] == answer(w, s, r[j].index as int));
    }
}

proof fn lemma_table_size(c: int)
    requires
        0 <= c <= 255,
    ensures
        table_size(c) <= 6 * 256 * 256 * 256,
        table_size(c) >= 6,
{
    assert((c + 1) * (c + 1) * (c + 1) <= 256 * 256 * 256) by (nonlinear_arith)
        requires 0 <= c <= 255;
    assert((c + 1) * (c + 1) * (c + 1) >= 1) by (nonlinear_arith)
        requires 0 <= c;
}

} // verus!
