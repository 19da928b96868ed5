//! Tallies of simulated outcomes and the selection of the most frequent.

use vstd::arithmetic::div_mod::lemma_fundamental_div_mod_converse;
use vstd::prelude::*;

use crate::scoring::Scoring;

verus! {

/// One of the most likely final outcomes.
#[derive(Debug, Clone, Copy)]
pub struct SimResult {
    /// Successes per track at the end of the game.
    pub counts: [u8; 3],
    /// Games out of `trials` that ended with these counts.
    pub occurrences: u32,
    /// Games simulated in all.
    pub trials: u32,
    /// Final score of the outcome.
    pub score: i128,
}

impl SimResult {
    /// Share of the simulated games that ended this way, as a fraction.
    pub fn probability(&self) -> (r: (u32, u32))
        ensures
            r == (self.occurrences, self.trials),
    {
        (self.occurrences, self.trials)
    }
}

/// Key of an outcome: its three counts as base-256 digits.
pub open spec fn outcome_key(c: [u8; 3]) -> int {
    c@[0] * 65536 + c@[1] * 256 + c@[2]
}

/// Count `t` of the outcome with key `k`.
pub open spec fn key_count(k: int, t: int) -> int {
    if t == 0 {
        k / 65536
    } else if t == 1 {
        (k / 256) % 256
    } else {
        k % 256
    }
}

/// The key of the outcome `c`.
pub fn encode_outcome(c: [u8; 3]) -> (r: u32)
    ensures
        r == outcome_key(c),
        forall|t: int| 0 <= t < 3 ==> #[trigger] key_count(r as int, t) == c@[t],
{
    let r = c[0] as u32 * 65536 + c[1] as u32 * 256 + c[2] as u32;
    proof {
        let a = c@[0] * 256 + c@[1];
        lemma_fundamental_div_mod_converse(r as int, 256, a, c@[2] as int);
        lemma_fundamental_div_mod_converse(a, 256, c@[0] as int, c@[1] as int);
        assert(r as int / 65536 == a / 256) by {
            vstd::arithmetic::div_mod::lemma_div_denominator(r as int, 256, 256);
        }
    }
    r
}

/// The outcome with key `k`.
pub fn decode_outcome(k: u32) -> (r: [u8; 3])
    requires
        k < 0x100_0000,
    ensures
        forall|t: int| 0 <= t < 3 ==> #[trigger] r@[t] == key_count(k as int, t),
{
    [(k / 65536) as u8, ((k / 256) % 256) as u8, (k % 256) as u8]
}

/// Different outcomes have different keys.
pub proof fn lemma_outcome_key_injective(a: [u8; 3], b: [u8; 3])
    requires
        outcome_key(a) == outcome_key(b),
    ensures
        a == b,
{
    let x = outcome_key(a);
    let qa = a@[0] * 256 + a@[1];
    let qb = b@[0] * 256 + b@[1];
    lemma_fundamental_div_mod_converse(x, 256, qa, a@[2] as int);
    lemma_fundamental_div_mod_converse(x, 256, qb, b@[2] as int);
    lemma_fundamental_div_mod_converse(qa, 256, a@[0] as int, a@[1] as int);
    lemma_fundamental_div_mod_converse(qb, 256, b@[0] as int, b@[1] as int);
    assert(a =~= b);
}

/// How many of the outcomes `outs` equal `c`.
pub open spec fn occurrences_of(outs: Seq<[u8; 3]>, c: [u8; 3]) -> nat
    decreases outs.len(),
{
    if outs.len() == 0 {
        0
    } else {
        occurrences_of(outs.drop_last(), c) + if outs.last() == c {
            1nat
        } else {
            0nat
        }
    }
}

/// Number of different outcomes among `outs`.
pub open spec fn distinct_outcomes(outs: Seq<[u8; 3]>) -> nat {
    outs.to_set().len()
}

/// The outcomes a list of results is about, in order.
pub open spec fn listed(r: Seq<SimResult>) -> Seq<[u8; 3]> {
    r.map_values(|x: SimResult| x.counts)
}

/// A result as a (key, occurrences) entry.
pub open spec fn entry(x: SimResult) -> (u32, u32) {
    (outcome_key(x.counts) as u32, x.occurrences)
}

/// `r` is the list of the ten most frequent outcomes among `outs`, scored
/// under `w` with `cap` slots per track: each listed outcome occurs in `outs`
/// with its number of occurrences; the list runs from most to least
/// frequent, equal frequencies by outcome key; no outcome is listed twice;
/// it has ten entries, or every outcome when there are fewer; and an outcome
/// left out ranks after every listed one.
pub open spec fn is_top_list(w: Scoring, cap: int, outs: Seq<[u8; 3]>, r: Seq<SimResult>) -> bool {
    &&& r.len() == if distinct_outcomes(outs) < 10 { distinct_outcomes(outs) } else { 10 }
    &&& forall|i: int| #![auto] 0 <= i < r.len() ==> {
        &&& outs.contains(r[i].counts)
        &&& r[i].occurrences == occurrences_of(outs, r[i].counts)
        &&& r[i].trials == outs.len()
        &&& r[i].score == w.eval_spec(r[i].counts, cap)
    }
    &&& forall|i: int, j: int| 0 <= i < j < r.len() ==> more_frequent(entry(r[i]), entry(r[j]))
    &&& forall|i: int, j: int| 0 <= i < j < r.len() ==> r[i].counts != r[j].counts
    &&& forall|c: [u8; 3]| outs.contains(c) && !listed(r).contains(c) ==> r.len() == 10 && forall|i: int|
        0 <= i < r.len() ==> more_frequent(#[trigger] entry(r[i]), (outcome_key(c) as u32, occurrences_of(outs, c) as u32))
}

/// The key of `c` gives back each count of `c`.
pub proof fn lemma_key_counts(c: [u8; 3])
    ensures
        forall|t: int| 0 <= t < 3 ==> #[trigger] key_count(outcome_key(c), t) == c@[t],
        0 <= outcome_key(c) < 0x100_0000,
{
    let r = outcome_key(c);
    let a = c@[0] * 256 + c@[1];
    lemma_fundamental_div_mod_converse(r, 256, a, c@[2] as int);
    lemma_fundamental_div_mod_converse(a, 256, c@[0] as int, c@[1] as int);
    vstd::arithmetic::div_mod::lemma_div_denominator(r, 256, 256);
}

/// A list of distinct outcomes, all among `outs`, that leaves one out only
/// when it has ten entries, has `min(10, distinct outcomes)` entries.
pub proof fn lemma_top_len(outs: Seq<[u8; 3]>, r: Seq<SimResult>)
    requires
        r.len() <= 10,
        forall|i: int| #![auto] 0 <= i < r.len() ==> outs.contains(r[i].counts),
        forall|i: int, j: int| 0 <= i < j < r.len() ==> r[i].counts != r[j].counts,
        forall|c: [u8; 3]| outs.contains(c) && !listed(r).contains(c) ==> r.len() == 10,
    ensures
        r.len() == if distinct_outcomes(outs) < 10 { distinct_outcomes(outs) } else { 10 },
{
    let l = listed(r);
    assert(l.no_duplicates()) by {
        assert forall|i: int, j: int| 0 <= i < l.len() && 0 <= j < l.len() && i != j implies l[i] != l[j] by {
            if i < j {
                assert(r[i].counts != r[j].counts);
            } else {
                assert(r[j].counts != r[i].counts);
            }
        }
    }
    l.unique_seq_to_set();
    vstd::seq_lib::seq_to_set_is_finite(outs);
    vstd::seq_lib::seq_to_set_is_finite(l);
    assert(l.to_set().subset_of(outs.to_set())) by {
        assert forall|c: [u8; 3]| l.to_set().contains(c) implies outs.to_set().contains(c) by {
            let i = choose|i: int| 0 <= i < l.len() && l[i] == c;
            assert(outs.contains(r[i].counts));
        }
    }
    vstd::set_lib::lemma_len_subset(l.to_set(), outs.to_set());
    if r.len() < 10 {
        assert(outs.to_set().subset_of(l.to_set())) by {
            assert forall|c: [u8; 3]| outs.to_set().contains(c) implies l.to_set().contains(c) by {
                assert(outs.contains(c));
            }
        }
        vstd::set_lib::lemma_len_subset(outs.to_set(), l.to_set());
    }
}

/// At least one outcome means at least one different outcome.
pub proof fn lemma_some_outcome(outs: Seq<[u8; 3]>)
    requires
        outs.len() > 0,
    ensures
        distinct_outcomes(outs) >= 1,
{
    vstd::seq_lib::seq_to_set_is_finite(outs);
    assert(outs.to_set().contains(outs[0]));
    if outs.to_set().len() == 0 {
        outs.to_set().lemma_len0_is_empty();
        assert(false);
    }
}

proof fn lemma_top_lists_agree_below(w: Scoring, cap: int, outs: Seq<[u8; 3]>, r1: Seq<SimResult>, r2: Seq<SimResult>, n: int)
    requires
        is_top_list(w, cap, outs, r1),
        is_top_list(w, cap, outs, r2),
        0 <= n <= r1.len(),
    ensures
        forall|k: int| 0 <= k < n ==> #[trigger] r1[k].counts == r2[k].counts,
    decreases n,
{
    if n > 0 {
        let i = n - 1;
        lemma_top_lists_agree_below(w, cap, outs, r1, r2, i);
        let a = r1[i];
        let b = r2[i];
        if a.counts != b.counts {
            // each ranks before the other
            assert(more_frequent(entry(a), entry(b))) by {
                if listed(r1).contains(b.counts) {
                    let p = choose|p: int| 0 <= p < r1.len() && listed(r1)[p] == b.counts;
                    if p < i {
                        assert(r2[p].counts == r1[p].counts);
                    }
                    assert(r1[p].occurrences == occurrences_of(outs, r1[p].counts));
                    assert(entry(r1[p]) == entry(b));
                } else {
                    assert(outs.contains(b.counts));
                    assert(more_frequent(entry(r1[i]), (outcome_key(b.counts) as u32, occurrences_of(outs, b.counts) as u32)));
                }
            }
            assert(more_frequent(entry(b), entry(a))) by {
                if listed(r2).contains(a.counts) {
                    let p = choose|p: int| 0 <= p < r2.len() && listed(r2)[p] == a.counts;
                    if p < i {
                        assert(r2[p].counts == r1[p].counts);
                    }
                    assert(r2[p].occurrences == occurrences_of(outs, r2[p].counts));
                    assert(entry(r2[p]) == entry(a));
                } else {
                    assert(outs.contains(a.counts));
                    assert(more_frequent(entry(r2[i]), (outcome_key(a.counts) as u32, occurrences_of(outs, a.counts) as u32)));
                }
            }
        }
    }
}

/// Given the same outcomes, there is only one top list: equal rollouts give
/// equal results.
pub proof fn lemma_top_list_unique(w: Scoring, cap: int, outs: Seq<[u8; 3]>, r1: Seq<SimResult>, r2: Seq<SimResult>)
    requires
        is_top_list(w, cap, outs, r1),
        is_top_list(w, cap, outs, r2),
    ensures
        r1 == r2,
{
    lemma_top_lists_agree_below(w, cap, outs, r1, r2, r1.len() as int);
    assert forall|k: int| 0 <= k < r1.len() implies r1[k] == r2[k] by {
        assert(r1[k].counts == r2[k].counts);
    }
    assert(r1 =~= r2);
}

/// Counting one more outcome.
pub proof fn lemma_occurrences_push(outs: Seq<[u8; 3]>, c: [u8; 3], x: [u8; 3])
    ensures
        occurrences_of(outs.push(c), x) == occurrences_of(outs, x) + if c == x { 1nat } else { 0nat },
{
    assert(outs.push(c).drop_last() =~= outs);
}

/// Occurrences are at most the number of outcomes, at least one for an
/// outcome that occurs, and none for one that does not.
pub proof fn lemma_occurrences_range(outs: Seq<[u8; 3]>, x: [u8; 3])
    ensures
        occurrences_of(outs, x) <= outs.len(),
        outs.contains(x) ==> occurrences_of(outs, x) >= 1,
        !outs.contains(x) ==> occurrences_of(outs, x) == 0,
    decreases outs.len(),
{
    if outs.len() > 0 {
        let rest = outs.drop_last();
        lemma_occurrences_range(rest, x);
        if outs.contains(x) && outs.last() != x {
            let j = choose|j: int| 0 <= j < outs.len() && outs[j] == x;
            assert(rest[j] == x);
        }
        if rest.contains(x) {
            let j = choose|j: int| 0 <= j < rest.len() && rest[j] == x;
            assert(outs[j] == x);
        }
    }
}

/// `a` is more frequent than `b`, or as frequent with a smaller key.
pub open spec fn more_frequent(a: (u32, u32), b: (u32, u32)) -> bool {
    a.1 > b.1 || (a.1 == b.1 && a.0 < b.0)
}

/// No key occurs twice.
pub open spec fn distinct_keys(e: Seq<(u32, u32)>) -> bool {
    forall|i: int, j: int| 0 <= i < j < e.len() ==> e[i].0 != e[j].0
}

/// The (key, count) entries that rank highest, at most `n` of them, most
/// frequent first and equal counts by ascending key. Fewer than `n` come
/// back only when every entry does.
pub fn most_frequent(entries: &Vec<(u32, u32)>, n: usize) -> (r: Vec<(u32, u32)>)
    requires
        distinct_keys(entries@),
    ensures
        r@.len() <= n,
        forall|i: int| 0 <= i < r@.len() ==> entries@.contains(#[trigger] r@[i]),
        forall|i: int, j: int| 0 <= i < j < r@.len() ==> more_frequent(r@[i], r@[j]),
        forall|j: int| 0 <= j < entries@.len() && !r@.contains(#[trigger] entries@[j]) ==> r@.len()
            == n && forall|i: int| 0 <= i < r@.len() ==> more_frequent(#[trigger] r@[i], entries@[j]),
{
    let mut out: Vec<(u32, u32)> = Vec::new();
    while out.len() < n
        invariant
            distinct_keys(entries@),
            out@.len() <= n,
            forall|i: int| 0 <= i < out@.len() ==> entries@.contains(#[trigger] out@[i]),
            forall|i: int, j: int| 0 <= i < j < out@.len() ==> more_frequent(out@[i], out@[j]),
            forall|j: int| 0 <= j < entries@.len() && !out@.contains(#[trigger] entries@[j]) ==> forall|
                i: int,
            | 0 <= i < out@.len() ==> more_frequent(#[trigger] out@[i], entries@[j]),
        ensures
            out@.len() <= n,
            forall|i: int| 0 <= i < out@.len() ==> entries@.contains(#[trigger] out@[i]),
            forall|i: int, j: int| 0 <= i < j < out@.len() ==> more_frequent(out@[i], out@[j]),
            forall|j: int| 0 <= j < entries@.len() && !out@.contains(#[trigger] entries@[j]) ==> out@.len()
                == n && forall|i: int| 0 <= i < out@.len() ==> more_frequent(#[trigger] out@[i], entries@[j]),
        decreases n - out@.len(),
    {
        let count = out.len();
        let mut best: Option<(u32, u32)> = None;
        let ghost mut best_at: int = 0;
        let mut j: usize = 0;
        while j < entries.len()
            invariant
                distinct_keys(entries@),
                j <= entries@.len(),
                count == out@.len(),
                count < n,
                match best {
                    Some(b) => 0 <= best_at < j && entries@[best_at] == b && (count == 0
                        || more_frequent(out@[count - 1], b)) && forall|k: int|
                        0 <= k < j && (count == 0 || more_frequent(out@[count - 1], #[trigger] entries@[k]))
                            ==> entries@[k] == b || more_frequent(b, entries@[k]),
                    None => forall|k: int|
                        0 <= k < j ==> !(count == 0 || more_frequent(out@[count - 1], #[trigger] entries@[k])),
                },
            decreases entries@.len() - j,
        {
            let e = entries[j];
            let candidate = count == 0 || {
                let last = out[count - 1];
                last.1 > e.1 || (last.1 == e.1 && last.0 < e.0)
            };
            if candidate {
                match best {
                    None => {
                        best = Some(e);
                        proof {
                            best_at = j as int;
                        }
                    },
                    Some(b) => {
                        if e.1 > b.1 || (e.1 == b.1 && e.0 < b.0) {
                            best = Some(e);
                            proof {
                                best_at = j as int;
                            }
                        } else {
                            proof {
                                if e.0 == b.0 {
                                    assert(entries@[best_at] == b);
                                }
                            }
                        }
                    },
                }
            }
            j += 1;
        }
        match best {
            None => {
                proof {
                    assert forall|k: int| 0 <= k < entries@.len() && !out@.contains(#[trigger] entries@[k])
                        implies false by {
                        if count > 0 {
                            assert(!out@.contains(entries@[k]));
                        }
                    }
                }
                break;
            },
            Some(b) => {
                proof {
                    assert(entries@.contains(b)) by {
                        assert(entries@[best_at] == b);
                    }
                    assert forall|i: int| 0 <= i < count implies more_frequent(#[trigger] out@[i], b) by {
                        if i < count - 1 {
                            assert(more_frequent(out@[i], out@[count - 1]));
                        }
                    }
                }
                let ghost old_out = out@;
                out.push(b);
                proof {
                    assert forall|k: int| 0 <= k < entries@.len() && !out@.contains(#[trigger] entries@[k])
                        implies forall|i: int| 0 <= i < out@.len() ==> more_frequent(#[trigger] out@[i],
                        entries@[k]) by {
                        let e = entries@[k];
                        assert(!old_out.contains(e)) by {
                            if old_out.contains(e) {
                                let m = choose|m: int| 0 <= m < old_out.len() && old_out[m] == e;
                                assert(out@[m] == e);
                            }
                        }
                        assert(e != b) by {
                            assert(out@[count as int] == b);
                        }
                        if count > 0 {
                            assert(more_frequent(old_out[count - 1], e));
                        }
                        assert forall|i: int| 0 <= i < out@.len() implies more_frequent(#[trigger] out@[i], e) by {
                            if i < count {
                                assert(out@[i] == old_out[i]);
                            }
                        }
                    }
                    assert forall|i: int| 0 <= i < out@.len() implies entries@.contains(#[trigger] out@[i]) by {
                        if i < count {
                            assert(out@[i] == old_out[i]);
                        }
                    }
                }
            },
        }
    }
    out
}

} // verus!
