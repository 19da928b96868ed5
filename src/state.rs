//! Decision states and the two outcomes of an attempt.

use vstd::array::spec_array_update;
use vstd::prelude::*;

use arrayvec::ArrayVec;

use crate::chance::Chance;
use crate::game::GameState;
use crate::outside::{new_tracks, push_track, track_list};

verus! {

/// Number of tracks.
pub const TRACKS: usize = 3;

/// A decision point: the chance level and the slots left on each track.
#[derive(Debug, Clone, Copy)]
pub struct State {
    pub chance: Chance,
    pub remaining: [u8; 3],
}

impl State {
    /// Slots left on track `t`.
    pub open spec fn rem(self, t: int) -> int {
        self.remaining@[t] as int
    }

    /// Attempts left in all.
    pub open spec fn depth(self) -> nat {
        (self.rem(0) + self.rem(1) + self.rem(2)) as nat
    }

    /// No track has a slot left.
    pub open spec fn is_terminal(self) -> bool {
        self.rem(0) == 0 && self.rem(1) == 0 && self.rem(2) == 0
    }

    /// Track `t` exists and has a slot left.
    pub open spec fn can_attempt(self, t: int) -> bool {
        0 <= t < 3 && self.rem(t) > 0
    }

    /// No track has more than `cap` slots left.
    pub open spec fn within(self, cap: int) -> bool {
        self.rem(0) <= cap && self.rem(1) <= cap && self.rem(2) <= cap
    }

    /// The state after a successful attempt on track `t`.
    pub open spec fn on_success(self, t: int) -> State {
        State {
            chance: self.chance.lowered(),
            remaining: spec_array_update(self.remaining, t, (self.rem(t) - 1) as u8),
        }
    }

    /// The state after a failed attempt on track `t`.
    pub open spec fn on_failure(self, t: int) -> State {
        State {
            chance: self.chance.raised(),
            remaining: spec_array_update(self.remaining, t, (self.rem(t) - 1) as u8),
        }
    }

    /// The tracks that can still be attempted, in index order.
    pub open spec fn open_tracks(self) -> Seq<usize> {
        let a = if self.rem(0) > 0 { seq![0usize] } else { Seq::empty() };
        let b = if self.rem(1) > 0 { a.push(1usize) } else { a };
        if self.rem(2) > 0 { b.push(2usize) } else { b }
    }

    /// The tracks with a slot left, in index order; empty exactly when the
    /// state is terminal.
    pub fn available_choices(&self) -> (r: ArrayVec<usize, 3>)
        ensures
            track_list(r) == self.open_tracks(),
            track_list(r).len() == 0 <==> self.is_terminal(),
    {
        let mut out = new_tracks();
        if self.remaining[0] > 0 {
            push_track(&mut out, 0);
        }
        if self.remaining[1] > 0 {
            push_track(&mut out, 1);
        }
        if self.remaining[2] > 0 {
            push_track(&mut out, 2);
        }
        out
    }

    /// The state reached in the game `gs`: its chance level, and on each
    /// track the slots not yet recorded.
    pub open spec fn matches_game(self, gs: GameState) -> bool {
        &&& self.chance == gs.chance_spec()
        &&& self.rem(0) == gs.slots() - gs.row_spec(0).len()
        &&& self.rem(1) == gs.slots() - gs.row_spec(1).len()
        &&& self.rem(2) == gs.slots() - gs.row_spec(2).len()
    }

    /// The state reached in the game `gs`.
    pub fn from_game(gs: &GameState) -> (r: State)
        requires
            gs.rows_within_slots(),
        ensures
            r.matches_game(*gs),
            r.within(gs.slots()),
    {
        let num_slots = gs.num_slots();
        State {
            chance: gs.chance(),
            remaining: [
                num_slots - gs.row(0).len() as u8,
                num_slots - gs.row(1).len() as u8,
                num_slots - gs.row(2).len() as u8,
            ],
        }
    }

    /// Attempts `choice` with the uniform draw `roll` out of 0..100: the
    /// attempt succeeds when the roll is below the success percentage. The
    /// state moves to the matching successor; returns whether it succeeded.
    pub fn update(&mut self, choice: usize, roll: u32) -> (r: bool)
        requires
            old(self).can_attempt(choice as int),
        ensures
            r == (roll < old(self).chance.percent_spec()),
            r ==> *final(self) == old(self).on_success(choice as int),
            !r ==> *final(self) == old(self).on_failure(choice as int),
    {
        let (success, fail) = self.transition(choice);
        if roll < self.chance.percent() {
            *self = success;
            true
        } else {
            *self = fail;
            false
        }
    }

    /// Both successors of an attempt on `choice`: (after success, after failure).
    /// Either way the track loses one slot; success lowers the chance and
    /// failure raises it.
    pub fn transition(&self, choice: usize) -> (r: (State, State))
        requires
            self.can_attempt(choice as int),
        ensures
            r.0 == self.on_success(choice as int),
            r.1 == self.on_failure(choice as int),
    {
        let mut success = *self;
        success.remaining[choice] = self.remaining[choice] - 1;
        let mut fail = success;
        success.chance.down();
        fail.chance.up();
        assert(success.remaining =~= self.on_success(choice as int).remaining);
        (success, fail)
    }
}

/// A successor has one attempt fewer left and stays within the same bound.
pub proof fn lemma_successors(s: State, t: int, cap: int)
    requires
        s.can_attempt(t),
    ensures
        s.on_success(t).depth() + 1 == s.depth(),
        s.on_failure(t).depth() + 1 == s.depth(),
        s.on_success(t).rem(t) == s.rem(t) - 1,
        s.on_failure(t).rem(t) == s.rem(t) - 1,
        forall|u: int| 0 <= u < 3 && u != t ==> s.on_success(t).rem(u) == s.rem(u)
            && s.on_failure(t).rem(u) == s.rem(u),
        s.within(cap) ==> s.on_success(t).within(cap) && s.on_failure(t).within(cap),
{
}

} // verus!
