//! The network container: the reactions, the current and the initial
//! state, and the table of species names.

use crate::grammar::Network;
use crate::names::{name_table, names_clone, names_get_by_left, names_new};
use crate::number::{Abundance, Number};
use crate::reaction::{Reaction, ReactionModel};
use crate::state::{in_range, State, StateModel};
use bimap::BiHashMap;
use vstd::prelude::*;

verus! {

/// A chemical reaction network.
pub struct Crn<T> {
    /// The reactions.
    pub rxns: Vec<Reaction>,
    /// The current state.
    pub state: State<T>,
    /// The initial state, to which a reset returns.
    pub init_state: State<T>,
    /// The name of each species.
    pub names: BiHashMap<usize, String>,
}

/// A stochastic network: it counts molecules.
pub type StoCrn = Crn<i32>;

/// A network with real abundances, each kept as the literal that gave it.
pub type RealCrn = Crn<Number>;

/// A network container as plain values.
pub struct CrnModel<A> {
    pub rxns: Seq<ReactionModel>,
    pub state: StateModel<A>,
    pub init_state: StateModel<A>,
    pub names: Map<usize, Seq<char>>,
}

/// The container after a reset: the current state is the initial state,
/// and nothing else has changed.
pub open spec fn reset_of<A>(crn: CrnModel<A>) -> CrnModel<A> {
    CrnModel { rxns: crn.rxns, state: crn.init_state, init_state: crn.init_state, names: crn.names }
}

/// Law: after a reset, the state is the initial state, and a second reset
/// changes nothing.
pub proof fn lemma_reset_twice<A>(crn: CrnModel<A>)
    ensures
        reset_of(crn).state == crn.init_state,
        reset_of(crn).init_state == crn.init_state,
        reset_of(reset_of(crn)) == reset_of(crn),
{
}

impl<T: Abundance> View for Crn<T> {
    type V = CrnModel<T::V>;

    open spec fn view(&self) -> CrnModel<T::V> {
        CrnModel {
            rxns: self.rxns@.map_values(|r: Reaction| r@),
            state: self.state@,
            init_state: self.init_state@,
            names: name_table(self.names),
        }
    }
}

impl<T: Abundance> Crn<T> {
    /// The number of species.
    pub open spec fn count(&self) -> nat {
        self.init_state.species@.len()
    }

    /// The names of the species, in the order of their indices.
    pub open spec fn names_seq(&self) -> Seq<Seq<char>> {
        Seq::new(self.count(), |i: int| name_table(self.names)[i as usize])
    }

    /// The reactions as plain values.
    pub open spec fn reactions(&self) -> Seq<ReactionModel> {
        self.rxns@.map_values(|r: Reaction| r@)
    }

    /// The network that a reset returns to: names, initial abundances and
    /// reactions.
    pub open spec fn network(&self) -> Network<T::V> {
        Network {
            names: self.names_seq(),
            species: self.init_state@.species,
            rxns: self.reactions(),
        }
    }

    /// The container is consistent: both states hold one abundance for each
    /// species, every species has a name, and each reaction names species
    /// of the network only and holds the net change of its two sides.
    pub open spec fn wf(&self) -> bool {
        &&& self.state.species@.len() == self.count()
        &&& forall|k: usize| k < self.count() ==> #[trigger] name_table(self.names).contains_key(k)
        &&& forall|i: int|
            0 <= i < self.rxns@.len() ==> {
                &&& (#[trigger] self.rxns@[i]).wf()
                &&& in_range(self.rxns@[i].reactants@, self.count())
                &&& in_range(self.rxns@[i].products@, self.count())
            }
    }

    /// Whether the container is consistent.
    pub fn valid(&self) -> (r: bool)
        ensures
            r == self.wf(),
    {
        let n = self.init_state.species.len();
        if self.state.species.len() != n {
            return false;
        }
        let mut k: usize = 0;
        while k < n
            invariant
                0 <= k <= n,
                n == self.count(),
                forall|j: usize| j < k ==> #[trigger] name_table(self.names).contains_key(j),
            decreases n - k,
        {
            if names_get_by_left(&self.names, k).is_none() {
                return false;
            }
            k += 1;
        }
        let mut i: usize = 0;
        while i < self.rxns.len()
            invariant
                0 <= i <= self.rxns@.len(),
                n == self.count(),
                forall|j: int|
                    0 <= j < i ==> {
                        &&& (#[trigger] self.rxns@[j]).wf()
                        &&& in_range(self.rxns@[j].reactants@, self.count())
                        &&& in_range(self.rxns@[j].products@, self.count())
                    },
            decreases self.rxns@.len() - i,
        {
            if !self.rxns[i].valid(n) {
                return false;
            }
            i += 1;
        }
        true
    }

    /// Resets the network to its initial state: the abundances and the
    /// clock return to what they were when the network was made.
    pub fn reset(&mut self)
        ensures
            final(self)@ == reset_of(old(self)@),
            final(self).init_state == old(self).init_state,
            final(self).rxns == old(self).rxns,
            final(self).names == old(self).names,
            old(self).wf() ==> final(self).wf(),
    {
        self.state = self.init_state.clone();
        proof {
            assert(self.state@.species.len() == self.state.species@.len());
            assert(self.init_state@.species.len() == self.init_state.species@.len());
        }
    }
}

impl<T: Abundance> Clone for Crn<T> {
    fn clone(&self) -> (r: Self)
        ensures
            r@ == self@,
            r.network() == self.network(),
    {
        let mut rxns: Vec<Reaction> = Vec::new();
        let mut i: usize = 0;
        while i < self.rxns.len()
            invariant
                0 <= i <= self.rxns.len(),
                rxns@.len() == i,
                forall|j: int| 0 <= j < i ==> (#[trigger] rxns@[j])@ == self.rxns@[j]@,
            decreases self.rxns.len() - i,
        {
            rxns.push(self.rxns[i].clone());
            i += 1;
        }
        let r = Crn {
            rxns,
            state: self.state.clone(),
            init_state: self.init_state.clone(),
            names: names_clone(&self.names),
        };
        proof {
            assert(r.init_state@.species.len() == r.init_state.species@.len());
            assert(self.init_state@.species.len() == self.init_state.species@.len());
            assert(r.names_seq() =~= self.names_seq());
            assert(r.reactions() =~= self.reactions());
            assert(r@.rxns =~= self@.rxns);
        }
        r
    }
}

impl<T: Abundance> Default for Crn<T> {
    /// The empty network: no species and no reaction.
    fn default() -> (r: Self)
        ensures
            r.wf(),
            r.count() == 0,
            r.rxns@.len() == 0,
            r.state.time == 0,
            r.init_state.time == 0,
    {
        Crn {
            rxns: Vec::new(),
            state: State { species: Vec::new(), time: 0 },
            init_state: State { species: Vec::new(), time: 0 },
            names: names_new(),
        }
    }
}

} // verus!
