//! The stochastic network: one step of the simulation, given what was
//! drawn for it.
//!
//! A step weighs each reaction by its propensity, draws a waiting time and a
//! reaction, and lets that reaction occur. Propensities and draws are real
//! numbers, and the caller computes them; what the library decides is what
//! a draw does to the network.

use crate::crn::StoCrn;
use crate::reaction::{coefficient, is_net_change};
use crate::state::{can_apply, enough, lemma_ways_among_positive, ways};
use vstd::prelude::*;
use vstd::string::*;

verus! {

/// A simulation can fail because no more reactions are possible, or because
/// of numerical instability.
#[derive(Debug, Clone, Copy, PartialEq, Eq)]
pub enum Error {
    /// No reactions are possible from the current state.
    TerminalState,
    /// The simulation has become numerically unstable.
    InsufficientPrecision,
}

impl Error {
    /// What the error says.
    pub fn message(&self) -> (r: &'static str)
        ensures
            r@ == match self {
                Error::TerminalState => "CRN has reached terminal state"@,
                Error::InsufficientPrecision => "Insufficient precision for accurate simulation"@,
            },
    {
        match self {
            Error::TerminalState => "CRN has reached terminal state",
            Error::InsufficientPrecision => "Insufficient precision for accurate simulation",
        }
    }
}

/// What was drawn for one step.
#[derive(Debug, Clone, Copy, PartialEq, Eq)]
pub enum Draw {
    /// The propensities add up to zero: nothing can occur.
    Nothing,
    /// The reaction with this index occurs, and the clock moves to this
    /// time.
    Occurs(usize, u64),
    /// The scan over the propensities ended before it reached the number
    /// drawn, which rounding alone can cause.
    Missed,
}

/// The abundances of `after` are those of `before` with the net change
/// added.
pub open spec fn is_applied(before: Seq<i32>, delta: Map<usize, i32>, after: Seq<i32>) -> bool {
    &&& after.len() == before.len()
    &&& forall|s: int|
        0 <= s < before.len() ==> #[trigger] after[s] == before[s] + coefficient(delta, s as usize)
}

/// Law: where no count is negative, the state holds enough of every
/// reactant, and the reaction produces no negative amount, no count is
/// negative after the reaction has occurred.
pub proof fn lemma_counts_stay_nonnegative(
    before: Seq<i32>,
    reactants: Map<usize, i32>,
    products: Map<usize, i32>,
    delta: Map<usize, i32>,
    after: Seq<i32>,
)
    requires
        before.len() <= usize::MAX,
        forall|s: int| 0 <= s < before.len() ==> #[trigger] before[s] >= 0,
        enough(before, reactants),
        forall|s: usize| #[trigger] products.contains_key(s) ==> products[s] >= 0,
        is_net_change(delta, reactants, products),
        is_applied(before, delta, after),
    ensures
        forall|s: int| 0 <= s < after.len() ==> #[trigger] after[s] >= 0,
{
    assert forall|s: int| 0 <= s < after.len() implies #[trigger] after[s] >= 0 by {
        let k = s as usize;
        assert(before[s] >= 0);
        if delta.contains_key(k) {
            assert(delta[k] == coefficient(products, k) - coefficient(reactants, k));
            if reactants.contains_key(k) {
                assert(reactants[k] <= before[k as int]);
            }
            if products.contains_key(k) {
                assert(products[k] >= 0);
            }
        }
    }
}

/// Law: the number of ways is positive where the state holds enough of
/// every reactant, and 0 where it does not.
pub proof fn lemma_ways_and_enough(species: Seq<i32>, reactants: Map<usize, i32>)
    requires
        species.len() <= usize::MAX,
    ensures
        enough(species, reactants) ==> ways(species, reactants) >= 1,
        !enough(species, reactants) ==> ways(species, reactants) == 0,
{
    if enough(species, reactants) {
        lemma_ways_among_positive(species, reactants, species.len() as int);
    }
}

impl StoCrn {
    /// The draw can be taken: the reaction that it names, if it names one,
    /// is a reaction of the network, and its net change can be added to the
    /// current state.
    pub open spec fn admits(&self, draw: Draw) -> bool {
        match draw {
            Draw::Occurs(reaction, _) => reaction < self.rxns@.len() && can_apply(
                self.state.species@,
                self.rxns@[reaction as int].delta@,
            ),
            _ => true,
        }
    }

    /// Whether `step` can take the draw.
    pub fn accepts(&self, draw: Draw) -> (r: bool)
        ensures
            r == self.admits(draw),
    {
        match draw {
            Draw::Occurs(reaction, _) => reaction < self.rxns.len() && self.state.fits(
                &self.rxns[reaction],
            ),
            _ => true,
        }
    }

    /// For each reaction, the number of ways in which the current state can
    /// supply what it consumes, or `None` where that number does not fit in
    /// 128 bits. Writes them into `out`, which a caller can use again for
    /// the next step.
    pub fn ways(&self, out: &mut Vec<Option<u128>>)
        requires
            self.wf(),
        ensures
            final(out)@.len() == self.rxns@.len(),
            forall|i: int|
                0 <= i < self.rxns@.len() ==> #[trigger] final(out)@[i] == (if ways(
                    self.state.species@,
                    self.rxns@[i].reactants@,
                ) <= u128::MAX {
                    Some(ways(self.state.species@, self.rxns@[i].reactants@) as u128)
                } else {
                    None
                }),
    {
        out.clear();
        let mut i: usize = 0;
        while i < self.rxns.len()
            invariant
                0 <= i <= self.rxns@.len(),
                self.wf(),
                out@.len() == i,
                forall|j: int|
                    0 <= j < i ==> #[trigger] out@[j] == (if ways(
                        self.state.species@,
                        self.rxns@[j].reactants@,
                    ) <= u128::MAX {
                        Some(ways(self.state.species@, self.rxns@[j].reactants@) as u128)
                    } else {
                        None
                    }),
            decreases self.rxns@.len() - i,
        {
            proof {
                assert(self.rxns@[i as int].wf());
            }
            out.push(self.state.ways(&self.rxns[i]));
            i += 1;
        }
    }

    /// One step of the simulation, for what was drawn. Where a reaction
    /// occurs, its net change is added to the abundances and the clock moves
    /// to the time drawn. Where nothing can occur the network has reached a
    /// terminal state, and where the scan missed the precision did not
    /// suffice: both fail, and leave the network as it was.
    pub fn step(&mut self, draw: Draw) -> (r: Result<(), Error>)
        requires
            old(self).admits(draw),
        ensures
            final(self).rxns == old(self).rxns,
            final(self).init_state == old(self).init_state,
            final(self).names == old(self).names,
            old(self).wf() ==> final(self).wf(),
            match draw {
                Draw::Nothing => r == Err::<(), Error>(Error::TerminalState) && final(self).state
                    == old(self).state,
                Draw::Missed => r == Err::<(), Error>(Error::InsufficientPrecision)
                    && final(self).state == old(self).state,
                Draw::Occurs(reaction, time) => r is Ok && final(self).state.time == time
                    && is_applied(
                    old(self).state.species@,
                    old(self).rxns@[reaction as int].delta@,
                    final(self).state.species@,
                ),
            },
    {
        match draw {
            Draw::Nothing => Err(Error::TerminalState),
            Draw::Missed => Err(Error::InsufficientPrecision),
            Draw::Occurs(reaction, time) => {
                self.state.apply(&self.rxns[reaction]);
                self.state.time = time;
                Ok(())
            },
        }
    }
}

} // verus!
