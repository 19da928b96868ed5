//! Decisions of the background recomputation service.
//!
//! A worker owns a [`Session`] and a shared [`Published`] snapshot. Each time
//! it wakes on one kind of update it takes every queued update of that kind,
//! acts on the latest only, and learns from the returned [`Work`] whether the
//! policy must be rebuilt or only the simulation rerun.

use rand::rngs::StdRng;
use vstd::prelude::*;

use crate::chance::{decimal, digit_char};
use crate::game::GameState;
use crate::outcomes::SimResult;
use crate::outside::append;
use crate::scoring::Scoring;
use crate::solution::{seeded, simulated_top, Solution};

verus! {

/// What the worker must do after taking in updates.
#[derive(Debug, Clone, Copy, PartialEq, Eq, Structural)]
pub enum Work {
    /// Solve again, then simulate against the new policy.
    Rebuild,
    /// Keep the policy and simulate again.
    Resimulate,
}

/// The value that wins among `first` and the updates queued after it: the
/// last one queued, or `first` when none is.
pub open spec fn latest_of<T>(first: T, pending: Seq<T>) -> T {
    if pending.len() == 0 {
        first
    } else {
        pending.last()
    }
}

/// The latest of `first` and the updates queued after it.
pub fn latest<T>(first: T, pending: Vec<T>) -> (r: T)
    ensures
        r == latest_of(first, pending@),
{
    let mut pending = pending;
    match pending.pop() {
        Some(v) => v,
        None => first,
    }
}

/// The configuration the worker computes from.
pub struct Session {
    /// Weights, once valid ones have been given.
    pub scoring: Option<Scoring>,
    /// Games per simulation, once given.
    pub sim_tries: Option<u32>,
    /// Progress of the game being played.
    pub game_state: GameState,
}

impl Session {
    /// The session after taking in the weight updates `first` and `pending`.
    pub open spec fn after_weights(self, first: Scoring, pending: Seq<Scoring>) -> Session {
        Session { scoring: Some(latest_of(first, pending)), ..self }
    }

    /// Takes in a burst of weight updates; the latest wins and the policy
    /// must be rebuilt.
    pub fn take_weights(&mut self, first: Scoring, pending: Vec<Scoring>) -> (r: Work)
        ensures
            *final(self) == old(self).after_weights(first, pending@),
            r == Work::Rebuild,
    {
        self.scoring = Some(latest(first, pending));
        Work::Rebuild
    }

    /// Takes in a burst of changes of the games per simulation; the latest
    /// wins and only the simulation is rerun.
    pub fn take_sim_tries(&mut self, first: u32, pending: Vec<u32>) -> (r: Work)
        ensures
            final(self).sim_tries == Some(latest_of(first, pending@)),
            final(self).scoring == old(self).scoring,
            final(self).game_state == old(self).game_state,
            r == Work::Resimulate,
    {
        self.sim_tries = Some(latest(first, pending));
        Work::Resimulate
    }

    /// Takes in a burst of game progress updates; the latest wins. A change
    /// of the slots per track needs a new policy, any other change only a new
    /// simulation.
    pub fn take_game_state(&mut self, first: GameState, pending: Vec<GameState>) -> (r: Work)
        ensures
            final(self).game_state == latest_of(first, pending@),
            final(self).scoring == old(self).scoring,
            final(self).sim_tries == old(self).sim_tries,
            r == if final(self).game_state.slots() != old(self).game_state.slots() {
                Work::Rebuild
            } else {
                Work::Resimulate
            },
    {
        let prev_num_slots = self.game_state.num_slots();
        self.game_state = latest(first, pending);
        if self.game_state.num_slots() != prev_num_slots {
            Work::Rebuild
        } else {
            Work::Resimulate
        }
    }

    /// The policy for the current weights and slots; none until valid
    /// weights have been given.
    pub fn rebuild_solution(&self) -> (r: Option<Solution>)
        ensures
            match r {
                Some(s) => s.wf() && self.scoring == Some(s.scoring_spec()) && s.capacity()
                    == self.game_state.slots(),
                None => self.scoring is None,
            },
    {
        match self.scoring {
            Some(scoring) => Some(Solution::build(scoring, self.game_state.num_slots())),
            None => None,
        }
    }

    /// The most likely outcomes of the current game under `solution`: the
    /// top list of `sim_tries` simulated games; none while the games per
    /// simulation are not given. The game must fit the policy.
    pub fn rerun_simulation(&self, solution: &Solution, rng: &mut StdRng) -> (r: Option<Vec<SimResult>>)
        requires
            self.game_state.rows_within_slots(),
            self.game_state.slots() == solution.capacity(),
        ensures
            r is Some <==> self.sim_tries is Some,
            r matches Some(v) ==> simulated_top(
                solution.scoring_spec(),
                solution.capacity(),
                self.game_state,
                self.sim_tries.unwrap() as nat,
                v@,
            ),
            r matches Some(v) ==> (self.sim_tries.unwrap() > 0 ==> v@.len() > 0),
            r matches Some(v) ==> forall|i: int, t: int| 0 <= i < v@.len() && 0 <= t < 3 ==> seeded(
                self.game_state,
            )[t] <= #[trigger] v@[i].counts@[t] <= solution.capacity(),
    {
        let sim_tries = match self.sim_tries {
            Some(n) => n,
            None => return None,
        };
        Some(solution.simulate_top_10(sim_tries, &self.game_state, rng))
    }
}

/// A burst of weight updates queued before the worker wakes leads to one
/// rebuild, with the weights of the last update only.
pub proof fn lemma_burst_of_weights(s: Session, first: Scoring, pending: Seq<Scoring>)
    requires
        pending.len() > 0,
    ensures
        s.after_weights(first, pending).scoring == Some(pending.last()),
        s.after_weights(first, pending).sim_tries == s.sim_tries,
        s.after_weights(first, pending).game_state == s.game_state,
{
}

/// The decimal digit `d`.
fn digit_str(d: usize) -> (r: &'static str)
    requires
        d < 10,
    ensures
        r@ == seq![digit_char(d as nat)],
{
    proof {
        reveal_strlit("0");
        reveal_strlit("1");
        reveal_strlit("2");
        reveal_strlit("3");
        reveal_strlit("4");
        reveal_strlit("5");
        reveal_strlit("6");
        reveal_strlit("7");
        reveal_strlit("8");
        reveal_strlit("9");
    }
    match d {
        0 => "0",
        1 => "1",
        2 => "2",
        3 => "3",
        4 => "4",
        5 => "5",
        6 => "6",
        7 => "7",
        8 => "8",
        _ => "9",
    }
}

/// Appends `n` in decimal to `s`.
fn write_decimal(s: &mut String, n: usize)
    ensures
        final(s)@ == old(s)@ + decimal(n as nat),
    decreases n,
{
    if n >= 10 {
        write_decimal(s, n / 10);
    }
    append(s, digit_str(n % 10));
    proof {
        assert(old(s)@ + decimal(n as nat) =~= if n >= 10 {
            old(s)@ + decimal((n / 10) as nat) + seq![digit_char((n % 10) as nat)]
        } else {
            old(s)@ + seq![digit_char((n % 10) as nat)]
        });
    }
}

/// The snapshot readers see: the policy and the simulation results, each
/// absent while it is being computed.
pub struct Published {
    pub solution: Option<Solution>,
    pub most_likely: Option<Vec<SimResult>>,
}

/// The status line for a policy of `states` states, with simulation results
/// ready or not.
pub open spec fn solved_text(states: nat, simulated: bool) -> Seq<char> {
    if simulated {
        "solved ("@ + decimal(states) + " states)"@
    } else {
        "solved ("@ + decimal(states) + " states); running simulations…"@
    }
}

impl Published {
    /// Nothing published yet.
    pub fn new() -> (r: Published)
        ensures
            r.solution is None,
            r.most_likely is None,
    {
        Published { solution: None, most_likely: None }
    }

    /// Withdraws the policy and the simulation results.
    pub fn reset_solution(&mut self)
        ensures
            final(self).solution is None,
            final(self).most_likely is None,
    {
        self.solution = None;
        self.most_likely = None;
    }

    /// Withdraws the simulation results only.
    pub fn reset_simulation(&mut self)
        ensures
            final(self).solution == old(self).solution,
            final(self).most_likely is None,
    {
        self.most_likely = None;
    }

    /// A line saying how far the computation has come.
    pub fn status(&self) -> (r: String)
        ensures
            self.solution is None ==> r@ == "finding solution…"@,
            self.solution matches Some(s) ==> r@ == solved_text(
                (6 * ((s.capacity() + 1) * (s.capacity() + 1) * (s.capacity() + 1) - 1)) as nat,
                self.most_likely is Some,
            ),
    {
        proof {
            reveal_strlit("finding solution…");
            reveal_strlit("solved (");
            reveal_strlit(" states)");
            reveal_strlit(" states); running simulations…");
        }
        match &self.solution {
            None => "finding solution…".to_owned(),
            Some(solution) => {
                let mut text = "solved (".to_owned();
                write_decimal(&mut text, solution.num_states());
                if self.most_likely.is_some() {
                    append(&mut text, " states)");
                } else {
                    append(&mut text, " states); running simulations…");
                }
                text
            },
        }
    }
}

} // verus!
