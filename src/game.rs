//! Recorded progress of a game in play.

use vstd::prelude::*;

use crate::chance::Chance;

verus! {

/// The current chance level, the slots per track, and the outcomes recorded
/// so far on each track (`true` for a success), never more than the slots.
#[derive(Debug)]
pub struct GameState {
    chance: Chance,
    num_slots: u8,
    row0: Vec<bool>,
    row1: Vec<bool>,
    row2: Vec<bool>,
}

impl GameState {
    /// The current chance level.
    pub closed spec fn chance_spec(&self) -> Chance {
        self.chance
    }

    /// Slots per track.
    pub closed spec fn slots(&self) -> int {
        self.num_slots as int
    }

    /// Outcomes recorded on track `t`, oldest first.
    pub closed spec fn row_spec(&self, t: int) -> Seq<bool> {
        if t == 0 {
            self.row0@
        } else if t == 1 {
            self.row1@
        } else {
            self.row2@
        }
    }

    /// No track has more outcomes than slots.
    pub open spec fn rows_within_slots(&self) -> bool {
        &&& 0 <= self.slots() <= 255
        &&& self.row_spec(0).len() <= self.slots()
        &&& self.row_spec(1).len() <= self.slots()
        &&& self.row_spec(2).len() <= self.slots()
    }

    /// On every track, the slots not yet recorded are at most `cap`.
    pub open spec fn fits(&self, cap: int) -> bool {
        &&& self.slots() - self.row_spec(0).len() <= cap
        &&& self.slots() - self.row_spec(1).len() <= cap
        &&& self.slots() - self.row_spec(2).len() <= cap
    }

    /// A game with `num_slots` slots per track, nothing recorded yet.
    pub fn new(chance: Chance, num_slots: u8) -> (r: GameState)
        ensures
            r.chance_spec() == chance,
            r.slots() == num_slots,
            forall|t: int| 0 <= t < 3 ==> #[trigger] r.row_spec(t) == Seq::<bool>::empty(),
            r.rows_within_slots(),
    {
        GameState { chance, num_slots, row0: Vec::new(), row1: Vec::new(), row2: Vec::new() }
    }

    /// The current chance level.
    pub fn chance(&self) -> (r: Chance)
        ensures
            r == self.chance_spec(),
    {
        self.chance
    }

    /// Slots per track.
    pub fn num_slots(&self) -> (r: u8)
        ensures
            r == self.slots(),
    {
        self.num_slots
    }

    /// Outcomes recorded on track `i`, oldest first.
    pub fn row(&self, i: usize) -> (r: &[bool])
        requires
            i < 3,
        ensures
            r@ == self.row_spec(i as int),
    {
        if i == 0 {
            self.row0.as_slice()
        } else if i == 1 {
            self.row1.as_slice()
        } else {
            self.row2.as_slice()
        }
    }

    /// Records the outcome of an attempt on `track` and moves the chance level
    /// as the attempt did (down on success, up on failure). A track whose
    /// slots are all used is left as it is, and `false` is returned.
    pub fn record(&mut self, track: usize, success: bool) -> (r: bool)
        requires
            track < 3,
            old(self).rows_within_slots(),
        ensures
            final(self).rows_within_slots(),
            r == (old(self).row_spec(track as int).len() < old(self).slots()),
            final(self).slots() == old(self).slots(),
            r ==> final(self).row_spec(track as int) == old(self).row_spec(track as int).push(success),
            r ==> final(self).chance_spec() == if success {
                old(self).chance_spec().lowered()
            } else {
                old(self).chance_spec().raised()
            },
            !r ==> final(self).row_spec(track as int) == old(self).row_spec(track as int)
                && final(self).chance_spec() == old(self).chance_spec(),
            forall|t: int| 0 <= t < 3 && t != track ==> #[trigger] final(self).row_spec(t)
                == old(self).row_spec(t),
    {
        let len = self.row(track).len();
        if len >= self.num_slots as usize {
            return false;
        }
        if track == 0 {
            self.row0.push(success);
        } else if track == 1 {
            self.row1.push(success);
        } else {
            self.row2.push(success);
        }
        if success {
            self.chance.down();
        } else {
            self.chance.up();
        }
        true
    }

    /// Takes back the last outcome recorded on `track`, if any, and moves the
    /// chance level back the other way.
    pub fn undo(&mut self, track: usize) -> (r: Option<bool>)
        requires
            track < 3,
            old(self).rows_within_slots(),
        ensures
            final(self).rows_within_slots(),
            final(self).slots() == old(self).slots(),
            old(self).row_spec(track as int).len() == 0 ==> r is None && final(self).row_spec(
                track as int,
            ) == old(self).row_spec(track as int) && final(self).chance_spec()
                == old(self).chance_spec(),
            old(self).row_spec(track as int).len() > 0 ==> r == Some(
                old(self).row_spec(track as int).last(),
            ) && final(self).row_spec(track as int) == old(self).row_spec(track as int).drop_last()
                && final(self).chance_spec() == if old(self).row_spec(track as int).last() {
                old(self).chance_spec().raised()
            } else {
                old(self).chance_spec().lowered()
            },
            forall|t: int| 0 <= t < 3 && t != track ==> #[trigger] final(self).row_spec(t)
                == old(self).row_spec(t),
    {
        let last = if track == 0 {
            self.row0.pop()
        } else if track == 1 {
            self.row1.pop()
        } else {
            self.row2.pop()
        };
        match last {
            Some(true) => self.chance.up(),
            Some(false) => self.chance.down(),
            None => {},
        }
        last
    }

    /// Forgets every recorded outcome and puts the chance back to 75%.
    pub fn reset(&mut self)
        ensures
            final(self).rows_within_slots(),
            final(self).slots() == old(self).slots(),
            final(self).chance_spec() == Chance::SeventyFive,
            forall|t: int| 0 <= t < 3 ==> #[trigger] final(self).row_spec(t) == Seq::<bool>::empty(),
    {
        self.chance = Chance::SeventyFive;
        self.row0.clear();
        self.row1.clear();
        self.row2.clear();
    }

    /// Changes the slots per track, dropping the outcomes past the new count.
    pub fn set_num_slots(&mut self, n: u8)
        ensures
            final(self).rows_within_slots(),
            final(self).slots() == n,
            final(self).chance_spec() == old(self).chance_spec(),
            forall|t: int| 0 <= t < 3 ==> #[trigger] final(self).row_spec(t) == if old(self).row_spec(
                t,
            ).len() <= n {
                old(self).row_spec(t)
            } else {
                old(self).row_spec(t).take(n as int)
            },
    {
        self.row0.truncate(n as usize);
        self.row1.truncate(n as usize);
        self.row2.truncate(n as usize);
        self.num_slots = n;
    }
}

impl Clone for GameState {
    fn clone(&self) -> (r: GameState)
        ensures
            r.chance_spec() == self.chance_spec(),
            r.slots() == self.slots(),
            forall|t: int| 0 <= t < 3 ==> #[trigger] r.row_spec(t) == self.row_spec(t),
    {
        GameState {
            chance: self.chance,
            num_slots: self.num_slots,
            row0: self.row0.clone(),
            row1: self.row1.clone(),
            row2: self.row2.clone(),
        }
    }
}

impl Default for GameState {
    /// Nothing recorded, eight slots per track, chance at 75%.
    fn default() -> (r: GameState)
        ensures
            r.chance_spec() == Chance::SeventyFive,
            r.slots() == 8,
            forall|t: int| 0 <= t < 3 ==> #[trigger] r.row_spec(t) == Seq::<bool>::empty(),
            r.rows_within_slots(),
    {
        GameState::new(Chance::SeventyFive, 8)
    }
}

} // verus!
