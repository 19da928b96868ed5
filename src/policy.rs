//! The optimal policy as mathematics: expected scores and track rankings.

use vstd::prelude::*;

use crate::scoring::{weight_bound, Scoring};
use crate::state::State;

verus! {

/// One ranked choice: a track and the expected final score of attempting it.
///
/// Scores are in the weights' integer unit; each step of the expectation is
/// rounded down to a whole unit (see [`combine`]).
#[derive(Debug, Clone, Copy, PartialEq, Eq, Structural)]
pub struct Answer {
    pub index: usize,
    pub score: i128,
}


/// Expected score of one attempt, given the success percentage `p`, the
/// points at stake and the values of the two successor states. The result
/// is rounded down to a whole unit.
pub open spec fn combine(p: int, sw: int, fw: int, vs: int, vf: int) -> int {
    (p * (sw + vs) + (100 - p) * (fw + vf)) / 100
}

/// The larger of two optional scores.
pub open spec fn better_of(a: Option<int>, b: Option<int>) -> Option<int> {
    match (a, b) {
        (Some(x), Some(y)) => Some(if x >= y { x } else { y }),
        (Some(x), None) => Some(x),
        (None, _) => b,
    }
}

/// Expected further score of optimal play from `s`: zero once no slot is
/// left, else the best expected score over the tracks that can be attempted.
#[verifier::opaque]
pub open spec fn value(w: Scoring, s: State) -> int
    decreases s.depth(),
{
    if s.is_terminal() {
        0
    } else {
        let p = s.chance.percent_spec() as int;
        let a = if s.rem(0) > 0 {
            Some(combine(p, w.sw(0), w.fw(0), value(w, s.on_success(0)), value(w, s.on_failure(0))))
        } else {
            None
        };
        let b = if s.rem(1) > 0 {
            Some(combine(p, w.sw(1), w.fw(1), value(w, s.on_success(1)), value(w, s.on_failure(1))))
        } else {
            None
        };
        let c = if s.rem(2) > 0 {
            Some(combine(p, w.sw(2), w.fw(2), value(w, s.on_success(2)), value(w, s.on_failure(2))))
        } else {
            None
        };
        better_of(better_of(a, b), c).unwrap()
    }
}

/// Expected further score of attempting track `t` from `s` and playing
/// optimally after.
pub open spec fn track_score(w: Scoring, s: State, t: int) -> int {
    combine(
        s.chance.percent_spec() as int,
        w.sw(t),
        w.fw(t),
        value(w, s.on_success(t)),
        value(w, s.on_failure(t)),
    )
}

/// The answer for track `t` at `s`.
pub open spec fn answer(w: Scoring, s: State, t: int) -> Answer {
    Answer { index: t as usize, score: track_score(w, s, t) as i128 }
}

/// `a` ranks before `b`: a higher score, or an equal score and a lower track
/// index.
pub open spec fn ranks_before(a: Answer, b: Answer) -> bool {
    a.score > b.score || (a.score == b.score && a.index < b.index)
}

/// `a` placed into the ranked list `l` before the first entry it ranks before.
pub open spec fn insert_ranked(l: Seq<Answer>, a: Answer) -> Seq<Answer>
    decreases l.len(),
{
    if l.len() == 0 {
        seq![a]
    } else if ranks_before(a, l[0]) {
        seq![a] + l
    } else {
        seq![l[0]] + insert_ranked(l.drop_first(), a)
    }
}

/// The answers for the tracks `ts` at `s`, each placed in rank order.
pub open spec fn rank_tracks(w: Scoring, s: State, ts: Seq<usize>) -> Seq<Answer>
    decreases ts.len(),
{
    if ts.len() == 0 {
        Seq::empty()
    } else {
        insert_ranked(rank_tracks(w, s, ts.drop_last()), answer(w, s, ts.last() as int))
    }
}

/// The tracks that can be attempted at `s`, best first: by expected score,
/// highest first, and on equal scores by track index, lowest first.
pub open spec fn ranking(w: Scoring, s: State) -> Seq<Answer> {
    rank_tracks(w, s, s.open_tracks())
}

/// Most that any attempts can add or take away.
pub open spec fn score_bound(n: nat) -> int {
    n * weight_bound()
}

proof fn lemma_combine_bound(p: int, x: int, y: int, m: int)
    requires
        0 <= p <= 100,
        -m <= x <= m,
        -m <= y <= m,
    ensures
        -m <= (p * x + (100 - p) * y) / 100 <= m,
{
    assert(p * x <= p * m && p * x >= -(p * m)) by (nonlinear_arith)
        requires 0 <= p, -m <= x <= m;
    assert((100 - p) * y <= (100 - p) * m && (100 - p) * y >= -((100 - p) * m)) by (nonlinear_arith)
        requires 0 <= 100 - p, -m <= y <= m;
    let n = p * x + (100 - p) * y;
    assert(-100 * m <= n <= 100 * m) by (nonlinear_arith)
        requires n == p * x + (100 - p) * y, p * x <= p * m, p * x >= -(p * m),
            (100 - p) * y <= (100 - p) * m, (100 - p) * y >= -((100 - p) * m);
    assert(-m <= n / 100 <= m) by (nonlinear_arith)
        requires -100 * m <= n <= 100 * m;
}

/// The value of a state, and the score of each track open there, lie within
/// the bound for its number of attempts left.
pub proof fn lemma_value_bound(w: Scoring, s: State)
    ensures
        -score_bound(s.depth()) <= value(w, s) <= score_bound(s.depth()),
        forall|t: int| #![auto] s.can_attempt(t) ==>
            -score_bound(s.depth()) <= track_score(w, s, t) <= score_bound(s.depth()),
    decreases s.depth(),
{
    reveal(value);
    if !s.is_terminal() {
        let p = s.chance.percent_spec() as int;
        let d = s.depth();
        assert forall|t: int| #![auto] s.can_attempt(t) implies
            -score_bound(d) <= track_score(w, s, t) <= score_bound(d) by {
            crate::state::lemma_successors(s, t, 0);
            lemma_value_bound(w, s.on_success(t));
            lemma_value_bound(w, s.on_failure(t));
            let m = score_bound(d);
            assert(m == score_bound((d - 1) as nat) + weight_bound()) by (nonlinear_arith)
                requires m == score_bound(d), d >= 1;
            lemma_combine_bound(p, w.sw(t) + value(w, s.on_success(t)),
                w.fw(t) + value(w, s.on_failure(t)), m);
        }
        lemma_value_is_best(w, s);
    }
}

/// At a state with a slot left, the value is the score of some open track
/// and no open track scores more.
pub proof fn lemma_value_is_best(w: Scoring, s: State)
    requires
        !s.is_terminal(),
    ensures
        exists|t: int| s.can_attempt(t) && value(w, s) == track_score(w, s, t),
        forall|t: int| s.can_attempt(t) ==> track_score(w, s, t) <= value(w, s),
{
    reveal(value);
    let t0 = track_score(w, s, 0);
    let t1 = track_score(w, s, 1);
    let t2 = track_score(w, s, 2);
    assert(value(w, s) == better_of(better_of(
        if s.rem(0) > 0 { Some(t0) } else { None },
        if s.rem(1) > 0 { Some(t1) } else { None }),
        if s.rem(2) > 0 { Some(t2) } else { None }).unwrap());
    if value(w, s) == t0 && s.can_attempt(0) {
    } else if value(w, s) == t1 && s.can_attempt(1) {
    } else {
        assert(value(w, s) == t2 && s.can_attempt(2));
    }
}


/// Each entry of `l` ranks before every later one.
pub open spec fn is_ranked(l: Seq<Answer>) -> bool {
    forall|i: int, j: int| 0 <= i < j < l.len() ==> ranks_before(l[i], l[j])
}

proof fn lemma_insert_ranked(l: Seq<Answer>, a: Answer)
    requires
        is_ranked(l),
        forall|i: int| 0 <= i < l.len() ==> l[i].index != a.index,
    ensures
        insert_ranked(l, a).len() == l.len() + 1,
        forall|x: Answer|
            #![trigger insert_ranked(l, a).contains(x)]
            #![trigger l.contains(x)]
            insert_ranked(l, a).contains(x) <==> (x == a || l.contains(x)),
        is_ranked(insert_ranked(l, a)),
    decreases l.len(),
{
    let r = insert_ranked(l, a);
    if l.len() == 0 {
        assert forall|x: Answer| r.contains(x) <==> (x == a || l.contains(x)) by {
            if x == a {
                assert(r[0] == a);
            }
        }
    } else if ranks_before(a, l[0]) {
        assert forall|i: int, j: int| 0 <= i < j < r.len() implies ranks_before(r[i], r[j]) by {
            if i == 0 && j > 1 {
                assert(ranks_before(l[0], l[j - 1]));
            }
        }
        assert forall|x: Answer| r.contains(x) <==> (x == a || l.contains(x)) by {
            if x == a {
                assert(r[0] == a);
            }
            if l.contains(x) {
                let k = choose|k: int| 0 <= k < l.len() && l[k] == x;
                assert(r[k + 1] == x);
            }
            if r.contains(x) {
                let k = choose|k: int| 0 <= k < r.len() && r[k] == x;
                if k > 0 {
                    assert(l[k - 1] == x);
                }
            }
        }
    } else {
        let rest = l.drop_first();
        assert forall|i: int| 0 <= i < rest.len() implies rest[i].index != a.index by {
            assert(rest[i] == l[i + 1]);
        }
        assert(is_ranked(rest)) by {
            assert forall|i: int, j: int| 0 <= i < j < rest.len() implies
                ranks_before(rest[i], rest[j]) by {
                assert(rest[i] == l[i + 1] && rest[j] == l[j + 1]);
            }
        }
        lemma_insert_ranked(rest, a);
        let tail = insert_ranked(rest, a);
        assert(r == seq![l[0]] + tail);
        assert forall|x: Answer| r.contains(x) <==> (x == a || l.contains(x)) by {
            if x == a {
                assert(tail.contains(a));
                let k = choose|k: int| 0 <= k < tail.len() && tail[k] == a;
                assert(r[k + 1] == a);
            }
            if l.contains(x) {
                let k = choose|k: int| 0 <= k < l.len() && l[k] == x;
                if k == 0 {
                    assert(r[0] == x);
                } else {
                    assert(rest[k - 1] == x);
                    assert(tail.contains(x));
                    let m = choose|m: int| 0 <= m < tail.len() && tail[m] == x;
                    assert(r[m + 1] == x);
                }
            }
            if r.contains(x) {
                let k = choose|k: int| 0 <= k < r.len() && r[k] == x;
                if k == 0 {
                    assert(l[0] == x);
                } else {
                    assert(tail[k - 1] == x);
                    assert(tail.contains(x));
                    if x != a {
                        assert(rest.contains(x));
                        let m = choose|m: int| 0 <= m < rest.len() && rest[m] == x;
                        assert(l[m + 1] == x);
                    }
                }
            }
        }
        assert(ranks_before(l[0], a));
        assert forall|i: int, j: int| 0 <= i < j < r.len() implies ranks_before(r[i], r[j]) by {
            if i == 0 {
                assert(tail.contains(r[j])) by {
                    assert(tail[j - 1] == r[j]);
                }
                if r[j] != a {
                    assert(rest.contains(r[j]));
                    let m = choose|m: int| 0 <= m < rest.len() && rest[m] == r[j];
                    assert(l[m + 1] == r[j]);
                }
            } else {
                assert(r[i] == tail[i - 1] && r[j] == tail[j - 1]);
            }
        }
    }
}

/// Every value fits in an `i128`, with room to spare.
pub proof fn lemma_value_fits(w: Scoring, s: State)
    ensures
        -score_bound(765) <= value(w, s) <= score_bound(765),
        score_bound(766) * 100 < i128::MAX,
{
    lemma_value_bound(w, s);
    let d = s.depth();
    assert(d <= 765);
    assert(score_bound(d) <= score_bound(765)) by (nonlinear_arith)
        requires d <= 765, score_bound(d) == d * weight_bound(), score_bound(765) == 765 * weight_bound(),
            weight_bound() > 0;
}

/// Every expected score fits in an `i128`, with room for a partial score of
/// as many attempts again.
pub proof fn lemma_score_fits(w: Scoring, s: State, t: int)
    requires
        s.can_attempt(t),
    ensures
        -score_bound(765) <= track_score(w, s, t) <= score_bound(765),
        -score_bound(765) <= value(w, s) <= score_bound(765),
        score_bound(765) * 2 < i128::MAX,
{
    lemma_value_bound(w, s);
    let d = s.depth();
    assert(d <= 765);
    assert(score_bound(d) <= score_bound(765)) by (nonlinear_arith)
        requires d <= 765, score_bound(d) == d * weight_bound(), score_bound(765) == 765 * weight_bound(),
            weight_bound() > 0;
}

/// Ranking among track 0 alone, then tracks 0 and 1.
spec fn ranked_first(w: Scoring, s: State) -> Seq<Answer> {
    if s.rem(0) > 0 { seq![answer(w, s, 0)] } else { Seq::empty() }
}

spec fn ranked_first_two(w: Scoring, s: State) -> Seq<Answer> {
    if s.rem(1) > 0 { insert_ranked(ranked_first(w, s), answer(w, s, 1)) } else { ranked_first(w, s) }
}

proof fn lemma_ranking_steps(w: Scoring, s: State)
    ensures
        ranking(w, s) == if s.rem(2) > 0 {
            insert_ranked(ranked_first_two(w, s), answer(w, s, 2))
        } else {
            ranked_first_two(w, s)
        },
{
    let o0: Seq<usize> = if s.rem(0) > 0 { seq![0usize] } else { Seq::empty() };
    let o1 = if s.rem(1) > 0 { o0.push(1usize) } else { o0 };
    assert(rank_tracks(w, s, Seq::empty()) == Seq::<Answer>::empty());
    assert(rank_tracks(w, s, o0) == ranked_first(w, s)) by {
        if s.rem(0) > 0 {
            assert(o0.drop_last() =~= Seq::<usize>::empty());
            assert(insert_ranked(Seq::empty(), answer(w, s, 0)) == seq![answer(w, s, 0)]);
        }
    }
    assert(rank_tracks(w, s, o1) == ranked_first_two(w, s)) by {
        if s.rem(1) > 0 {
            assert(o1.drop_last() =~= o0);
        }
    }
    if s.rem(2) > 0 {
        assert(s.open_tracks().drop_last() =~= o1);
    } else {
        assert(s.open_tracks() =~= o1);
    }
}

/// The ranking at `s` lists every open track once, each with its expected
/// score, best first; its head scores the value of `s`.
pub proof fn lemma_ranking(w: Scoring, s: State)
    ensures
        is_ranked(ranking(w, s)),
        forall|i: int| #![auto] 0 <= i < ranking(w, s).len() ==>
            s.can_attempt(ranking(w, s)[i].index as int)
            && ranking(w, s)[i] == answer(w, s, ranking(w, s)[i].index as int)
            && ranking(w, s)[i].score == track_score(w, s, ranking(w, s)[i].index as int),
        forall|t: int| s.can_attempt(t) ==> ranking(w, s).contains(answer(w, s, t)),
        ranking(w, s).len() == s.open_tracks().len(),
        ranking(w, s).len() <= 3,
        s.is_terminal() <==> ranking(w, s).len() == 0,
        !s.is_terminal() ==> ranking(w, s)[0].score == value(w, s),
{
    lemma_value_bound(w, s);
    let a0 = answer(w, s, 0);
    let a1 = answer(w, s, 1);
    let a2 = answer(w, s, 2);
    let l0: Seq<Answer> = if s.rem(0) > 0 { seq![a0] } else { Seq::empty() };
    let l1 = if s.rem(1) > 0 { insert_ranked(l0, a1) } else { l0 };
    let r = ranking(w, s);
    lemma_ranking_steps(w, s);
    assert forall|i: int| 0 <= i < l0.len() implies l0[i].index != a1.index && l0[i].index != a2.index by {}
    if s.rem(1) > 0 {
        lemma_insert_ranked(l0, a1);
        assert forall|i: int| 0 <= i < l1.len() implies l1[i].index != a2.index by {
            assert(l1.contains(l1[i]));
        }
    }
    if s.rem(2) > 0 {
        lemma_insert_ranked(l1, a2);
    }
    assert forall|x: Answer| r.contains(x) <==> (x == a0 && s.rem(0) > 0) || (x == a1 && s.rem(1) > 0)
        || (x == a2 && s.rem(2) > 0) by {
        if x == a0 && s.rem(0) > 0 {
            assert(l0[0] == x);
        }
        if l0.contains(x) {
            let k = choose|k: int| 0 <= k < l0.len() && l0[k] == x;
            assert(k == 0);
        }
    }
    assert forall|i: int| #![auto] 0 <= i < r.len() implies s.can_attempt(r[i].index as int)
        && r[i] == answer(w, s, r[i].index as int)
        && r[i].score == track_score(w, s, r[i].index as int) by {
        assert(r.contains(r[i]));
        lemma_score_fits(w, s, r[i].index as int);
    }
    assert(r.len() == s.open_tracks().len());
    if !s.is_terminal() {
        lemma_value_is_best(w, s);
        let t = choose|t: int| s.can_attempt(t) && value(w, s) == track_score(w, s, t);
        assert(r.contains(answer(w, s, t)));
        let k = choose|k: int| 0 <= k < r.len() && r[k] == answer(w, s, t);
        if k != 0 {
            assert(ranks_before(r[0], r[k]));
        }
        assert(r.contains(r[0]));
    }
}

} // verus!
