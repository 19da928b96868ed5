//! The chance ladder: six ordered success probabilities with saturating steps.

use vstd::prelude::*;

verus! {

/// A success probability, from 25% up to 75% in steps of ten points.
#[derive(Debug, Clone, Copy, PartialEq, Eq, Structural, Hash)]
pub enum Chance {
    TwentyFive,
    ThirtyFive,
    FourtyFive,
    FiftyFive,
    SixtyFive,
    SeventyFive,
}

/// The lowest rung of the ladder.
pub const MIN_LEVEL: u8 = 0;

/// The highest rung of the ladder.
pub const MAX_LEVEL: u8 = 5;

impl Chance {
    /// Position of the level on the ladder, 0 (25%) to 5 (75%).
    pub open spec fn level(self) -> nat {
        match self {
            Chance::TwentyFive => 0,
            Chance::ThirtyFive => 1,
            Chance::FourtyFive => 2,
            Chance::FiftyFive => 3,
            Chance::SixtyFive => 4,
            Chance::SeventyFive => 5,
        }
    }

    /// The level at a given rung; rungs above the top give the top.
    pub open spec fn at_level(n: nat) -> Chance {
        if n == 0 {
            Chance::TwentyFive
        } else if n == 1 {
            Chance::ThirtyFive
        } else if n == 2 {
            Chance::FourtyFive
        } else if n == 3 {
            Chance::FiftyFive
        } else if n == 4 {
            Chance::SixtyFive
        } else {
            Chance::SeventyFive
        }
    }

    /// Success probability in percent.
    pub open spec fn percent_spec(self) -> nat {
        25 + 10 * self.level()
    }

    /// One rung up, staying at the top.
    pub open spec fn raised(self) -> Chance {
        if self.level() < MAX_LEVEL {
            Chance::at_level(self.level() + 1)
        } else {
            self
        }
    }

    /// One rung down, staying at the bottom.
    pub open spec fn lowered(self) -> Chance {
        if self.level() > MIN_LEVEL {
            Chance::at_level((self.level() - 1) as nat)
        } else {
            self
        }
    }

    /// Moves one rung toward 75%, staying there once reached.
    pub fn up(&mut self)
        ensures
            *final(self) == old(self).raised(),
    {
        *self = match *self {
            Chance::TwentyFive => Chance::ThirtyFive,
            Chance::ThirtyFive => Chance::FourtyFive,
            Chance::FourtyFive => Chance::FiftyFive,
            Chance::FiftyFive => Chance::SixtyFive,
            Chance::SixtyFive => Chance::SeventyFive,
            Chance::SeventyFive => Chance::SeventyFive,
        };
    }

    /// Moves one rung toward 25%, staying there once reached.
    pub fn down(&mut self)
        ensures
            *final(self) == old(self).lowered(),
    {
        *self = match *self {
            Chance::TwentyFive => Chance::TwentyFive,
            Chance::ThirtyFive => Chance::TwentyFive,
            Chance::FourtyFive => Chance::ThirtyFive,
            Chance::FiftyFive => Chance::FourtyFive,
            Chance::SixtyFive => Chance::FiftyFive,
            Chance::SeventyFive => Chance::SixtyFive,
        };
    }

    /// The level at rung `n`.
    pub fn from_level(n: u8) -> (r: Chance)
        requires
            n <= MAX_LEVEL,
        ensures
            r.level() == n,
            r == Chance::at_level(n as nat),
    {
        match n {
            0 => Chance::TwentyFive,
            1 => Chance::ThirtyFive,
            2 => Chance::FourtyFive,
            3 => Chance::FiftyFive,
            4 => Chance::SixtyFive,
            _ => Chance::SeventyFive,
        }
    }

    /// Position of the level on the ladder.
    pub fn level_index(self) -> (r: u32)
        ensures
            r == self.level(),
    {
        match self {
            Chance::TwentyFive => 0,
            Chance::ThirtyFive => 1,
            Chance::FourtyFive => 2,
            Chance::FiftyFive => 3,
            Chance::SixtyFive => 4,
            Chance::SeventyFive => 5,
        }
    }

    /// Success probability in percent.
    pub fn percent(self) -> (r: u32)
        ensures
            r == self.percent_spec(),
    {
        match self {
            Chance::TwentyFive => 25,
            Chance::ThirtyFive => 35,
            Chance::FourtyFive => 45,
            Chance::FiftyFive => 55,
            Chance::SixtyFive => 65,
            Chance::SeventyFive => 75,
        }
    }

    /// The level as a percentage label, such as "45%".
    pub fn as_str(self) -> (r: &'static str)
        ensures
            r@ == label_of(self.percent_spec()),
    {
        proof {
            reveal_strlit("25%");
            reveal_strlit("35%");
            reveal_strlit("45%");
            reveal_strlit("55%");
            reveal_strlit("65%");
            reveal_strlit("75%");
        }
        match self {
            Chance::TwentyFive => "25%",
            Chance::ThirtyFive => "35%",
            Chance::FourtyFive => "45%",
            Chance::FiftyFive => "55%",
            Chance::SixtyFive => "65%",
            Chance::SeventyFive => "75%",
        }
    }
}

/// The two-digit percentage `p` followed by a percent sign.
pub open spec fn label_of(p: nat) -> Seq<char> {
    seq![digit_char(p / 10), digit_char(p % 10), '%']
}

/// `n` written in decimal, without leading zeros.
pub open spec fn decimal(n: nat) -> Seq<char>
    decreases n,
{
    if n < 10 {
        seq![digit_char(n)]
    } else {
        decimal(n / 10) + seq![digit_char(n % 10)]
    }
}

/// The decimal digit `d` as a character.
pub open spec fn digit_char(d: nat) -> char {
    if d == 0 { '0' }
    else if d == 1 { '1' }
    else if d == 2 { '2' }
    else if d == 3 { '3' }
    else if d == 4 { '4' }
    else if d == 5 { '5' }
    else if d == 6 { '6' }
    else if d == 7 { '7' }
    else if d == 8 { '8' }
    else { '9' }
}

/// Stepping up after stepping down returns to the start, except from the
/// bottom rung, where stepping down has no effect.
pub proof fn lemma_up_after_down(c: Chance)
    requires
        c.level() > MIN_LEVEL,
    ensures
        c.lowered().raised() == c,
{
}

/// Stepping down after stepping up returns to the start, except from the top
/// rung, where stepping up has no effect.
pub proof fn lemma_down_after_up(c: Chance)
    requires
        c.level() < MAX_LEVEL,
    ensures
        c.raised().lowered() == c,
{
}

/// Stepping up from the top rung and down from the bottom rung change nothing.
pub proof fn lemma_saturating_ends()
    ensures
        Chance::SeventyFive.raised() == Chance::SeventyFive,
        Chance::TwentyFive.lowered() == Chance::TwentyFive,
        Chance::SeventyFive.level() == MAX_LEVEL,
        Chance::TwentyFive.level() == MIN_LEVEL,
{
}

} // verus!
