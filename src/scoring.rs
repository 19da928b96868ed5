//! Reward weights per track and the scores they give.

use vstd::prelude::*;

use crate::game::GameState;

verus! {

/// Points for each success and each failure on each track.
///
/// Weights are integers in a unit of the caller's choosing (a caller with
/// decimal weights scales them, say by a thousand); every score of this crate
/// is in the same unit.
#[derive(Debug, Clone, Copy, PartialEq, Eq)]
pub struct Scoring {
    pub success: [i64; 3],
    pub fail: [i64; 3],
}

/// Any weight lies within this bound in magnitude.
#[verifier::inline]
pub open spec fn weight_bound() -> int {
    0x8000_0000_0000_0000
}

impl Scoring {
    /// Points for a success on track `t`.
    pub open spec fn sw(self, t: int) -> int {
        self.success@[t] as int
    }

    /// Points for a failure on track `t`.
    pub open spec fn fw(self, t: int) -> int {
        self.fail@[t] as int
    }

    /// Score of a finished game with `count` slots per track and
    /// `successes[t]` successes on track `t`; the other slots failed.
    pub open spec fn eval_spec(self, successes: [u8; 3], count: int) -> int {
        self.sw(0) * successes@[0] + self.sw(1) * successes@[1] + self.sw(2) * successes@[2]
            + self.fw(0) * (count - successes@[0]) + self.fw(1) * (count - successes@[1])
            + self.fw(2) * (count - successes@[2])
    }

    /// Points earned by the outcomes `row` recorded on track `t`.
    pub open spec fn row_points(self, t: int, row: Seq<bool>) -> int
        decreases row.len(),
    {
        if row.len() == 0 {
            0
        } else {
            self.row_points(t, row.drop_last()) + if row.last() {
                self.sw(t)
            } else {
                self.fw(t)
            }
        }
    }

    /// Points earned so far in the game `gs`.
    pub open spec fn partial_spec(self, gs: GameState) -> int {
        self.row_points(0, gs.row_spec(0)) + self.row_points(1, gs.row_spec(1)) + self.row_points(
            2,
            gs.row_spec(2),
        )
    }

    /// Score of a finished game with `count` slots per track and
    /// `scores[t]` successes on track `t`.
    pub fn eval(&self, scores: [u8; 3], count: u8) -> (r: i128)
        ensures
            r == self.eval_spec(scores, count as int),
    {
        let mut total: i128 = 0;
        let mut t: usize = 0;
        while t < 3
            invariant
                t <= 3,
                total == eval_prefix(*self, scores, count as int, t as int),
                -2 * 256 * weight_bound() * t <= total <= 2 * 256 * weight_bound() * t,
            decreases 3 - t,
        {
            let s = scores[t] as i128;
            let c = count as i128;
            let sw = self.success[t] as i128;
            let fw = self.fail[t] as i128;
            assert(-256 * weight_bound() <= sw * s <= 256 * weight_bound()) by (nonlinear_arith)
                requires -weight_bound() <= sw <= weight_bound(), 0 <= s <= 255, weight_bound() > 0;
            assert(-256 * weight_bound() <= fw * (c - s) <= 256 * weight_bound()) by (nonlinear_arith)
                requires -weight_bound() <= fw <= weight_bound(), -255 <= c - s <= 255, weight_bound() > 0;
            assert(-1024 * weight_bound() <= total <= 1024 * weight_bound()) by (nonlinear_arith)
                requires -2 * 256 * weight_bound() * t <= total <= 2 * 256 * weight_bound() * t, t <= 2;
            let ghost before = total;
            total = total + sw * s + fw * (c - s);
            assert(-2 * 256 * weight_bound() * (t + 1) <= total <= 2 * 256 * weight_bound() * (t + 1))
                by (nonlinear_arith)
                requires -2 * 256 * weight_bound() * t <= before <= 2 * 256 * weight_bound() * t,
                    total == before + sw * s + fw * (c - s),
                    -256 * weight_bound() <= sw * s <= 256 * weight_bound(),
                    -256 * weight_bound() <= fw * (c - s) <= 256 * weight_bound();
            t += 1;
        }
        proof {
            reveal_with_fuel(eval_prefix, 4);
        }
        total
    }

    /// Points earned so far in the game `gs`.
    pub fn eval_partial(&self, gs: &GameState) -> (r: i128)
        requires
            gs.rows_within_slots(),
        ensures
            r == self.partial_spec(*gs),
            -765 * weight_bound() <= r <= 765 * weight_bound(),
    {
        let mut score: i128 = 0;
        let mut i: usize = 0;
        while i < 3
            invariant
                i <= 3,
                gs.rows_within_slots(),
                score == partial_prefix(*self, *gs, i as int),
                -255 * weight_bound() * i <= score <= 255 * weight_bound() * i,
            decreases 3 - i,
        {
            let row = gs.row(i);
            let points = self.row_points_exec(i, row);
            assert(-510 * weight_bound() <= score <= 510 * weight_bound()) by (nonlinear_arith)
                requires -255 * weight_bound() * i <= score <= 255 * weight_bound() * i, i <= 2;
            let ghost before = score;
            score = score + points;
            assert(-255 * weight_bound() * (i + 1) <= score <= 255 * weight_bound() * (i + 1))
                by (nonlinear_arith)
                requires -255 * weight_bound() * i <= before <= 255 * weight_bound() * i,
                    score == before + points, -255 * weight_bound() <= points <= 255 * weight_bound();
            i += 1;
        }
        proof {
            reveal_with_fuel(partial_prefix, 4);
        }
        assert(-765 * weight_bound() <= score <= 765 * weight_bound()) by (nonlinear_arith)
            requires -255 * weight_bound() * i <= score <= 255 * weight_bound() * i, i == 3;
        score
    }

    fn row_points_exec(&self, t: usize, row: &[bool]) -> (r: i128)
        requires
            t < 3,
            row@.len() <= 255,
        ensures
            r == self.row_points(t as int, row@),
            -255 * weight_bound() <= r <= 255 * weight_bound(),
    {
        let mut score: i128 = 0;
        let mut j: usize = 0;
        while j < row.len()
            invariant
                t < 3,
                j <= row@.len() <= 255,
                score == self.row_points(t as int, row@.take(j as int)),
                -weight_bound() * j <= score <= weight_bound() * j,
            decreases row@.len() - j,
        {
            assert(row@.take(j + 1).drop_last() =~= row@.take(j as int));
            assert(-255 * weight_bound() <= score <= 255 * weight_bound()) by (nonlinear_arith)
                requires -weight_bound() * j <= score <= weight_bound() * j, j <= 255;
            let ghost before = score;
            if row[j] {
                score = score + self.success[t] as i128;
            } else {
                score = score + self.fail[t] as i128;
            }
            assert(-weight_bound() * (j + 1) <= score <= weight_bound() * (j + 1)) by (nonlinear_arith)
                requires -weight_bound() * j <= before <= weight_bound() * j,
                    -weight_bound() <= score - before <= weight_bound();
            j += 1;
        }
        assert(row@.take(j as int) =~= row@);
        assert(-255 * weight_bound() <= score <= 255 * weight_bound()) by (nonlinear_arith)
            requires -weight_bound() * j <= score <= weight_bound() * j, j <= 255;
        score
    }
}

/// Weights from six parsed fields; none unless every field holds a value.
pub fn parsed_fields_to_scoring(success: [Option<i64>; 3], fail: [Option<i64>; 3]) -> (r: Option<Scoring>)
    ensures
        r is Some <==> (forall|t: int| 0 <= t < 3 ==> success@[t] is Some && fail@[t] is Some),
        r matches Some(w) ==> forall|t: int| #![auto] 0 <= t < 3 ==> Some(w.success@[t]) == success@[t]
            && Some(w.fail@[t]) == fail@[t],
{
    match (success[0], success[1], success[2], fail[0], fail[1], fail[2]) {
        (Some(s0), Some(s1), Some(s2), Some(f0), Some(f1), Some(f2)) => {
            let w = Scoring { success: [s0, s1, s2], fail: [f0, f1, f2] };
            assert(forall|t: int| #![auto] 0 <= t < 3 ==> Some(w.success@[t]) == success@[t]);
            Some(w)
        },
        _ => None,
    }
}

/// The score terms of tracks below `n`.
spec fn eval_prefix(w: Scoring, scores: [u8; 3], count: int, n: int) -> int
    decreases n,
{
    if n <= 0 {
        0
    } else {
        eval_prefix(w, scores, count, n - 1) + w.sw(n - 1) * scores@[n - 1] + w.fw(n - 1) * (count
            - scores@[n - 1])
    }
}

/// Points of the rows of tracks below `n`.
spec fn partial_prefix(w: Scoring, gs: GameState, n: int) -> int
    decreases n,
{
    if n <= 0 {
        0
    } else {
        partial_prefix(w, gs, n - 1) + w.row_points(n - 1, gs.row_spec(n - 1))
    }
}

} // verus!
