//! One reaction: what it consumes, what it produces, the net change, and
//! its rate constant.

use crate::number::Number;
use crate::state::in_range;
use std::collections::HashMap;
use vstd::prelude::*;
use vstd::std_specs::iter::IteratorSpec;

verus! {

/// The coefficient of species `s` in one side of a reaction: 0 where the
/// side does not name it.
pub open spec fn coefficient(side: Map<usize, i32>, s: usize) -> int {
    if side.contains_key(s) {
        side[s] as int
    } else {
        0
    }
}

/// The pairs of a map in the order in which one walk over it yields them:
/// every key once, with its value.
pub open spec fn lists(entries: Seq<(usize, i32)>, m: Map<usize, i32>) -> bool {
    &&& forall|i: int|
        0 <= i < entries.len() ==> m.contains_key((#[trigger] entries[i]).0) && m[entries[i].0]
            == entries[i].1
    &&& forall|k: usize|
        m.contains_key(k) ==> exists|i: int| 0 <= i < entries.len() && (#[trigger] entries[i]).0 == k
    &&& forall|i: int, j: int|
        0 <= i < j < entries.len() ==> (#[trigger] entries[i]).0 != (#[trigger] entries[j]).0
}

/// The pairs that a walk over a map yields, as values.
pub open spec fn pairs(walk: Seq<(&usize, &i32)>) -> Seq<(usize, i32)> {
    walk.map_values(|kv: (&usize, &i32)| (*kv.0, *kv.1))
}

/// A walk over a map yields every key once, with its value.
pub proof fn lemma_walk(m: &HashMap<usize, i32>)
    requires
        m.iter().remaining().no_duplicates(),
    ensures
        lists(pairs(m.iter().remaining()), m@),
        pairs(m.iter().remaining()).len() == m@.dom().len(),
{
    let v = m.iter().remaining();
    let out = pairs(v);
    assert forall|k: usize| m@.contains_key(k) implies exists|i: int|
        0 <= i < out.len() && (#[trigger] out[i]).0 == k by {
        assert(v.contains((&k, &m@[k])));
        let i = choose|i: int| 0 <= i < v.len() && v[i] == (&k, &m@[k]);
        assert(out[i].0 == k);
    }
    assert forall|i: int, j: int| 0 <= i < j < out.len() implies (#[trigger] out[i]).0 != (
    #[trigger] out[j]).0 by {
        if out[i].0 == out[j].0 {
            assert(m@[*v[i].0] == *v[i].1);
            assert(m@[*v[j].0] == *v[j].1);
            assert(v[i] == v[j]);
        }
    }
    assert forall|i: int| 0 <= i < out.len() implies m@.contains_key((#[trigger] out[i]).0)
        && m@[out[i].0] == out[i].1 by {
        assert(m@.contains_key(*v[i].0));
    }
}

/// The pairs of a map, each once, in the order in which the map yields
/// them.
pub fn entries(m: &HashMap<usize, i32>) -> (r: Vec<(usize, i32)>)
    ensures
        lists(r@, m@),
        r@.len() == m@.dom().len(),
{
    let mut out: Vec<(usize, i32)> = Vec::new();
    for kv in it: m.iter()
        invariant
            out@ == pairs(it.seq()).take(it.index()),
            it.seq() == m.iter().remaining(),
            it.seq().no_duplicates(),
    {
        let (k, v) = kv;
        out.push((*k, *v));
        assert(out@ =~= pairs(it.seq()).take(it.index() + 1));
    }
    proof {
        lemma_walk(m);
        assert(out@ =~= pairs(m.iter().remaining()));
    }
    out
}

/// Whether one of the first `n` pairs of `entries` has the key `s`.
pub open spec fn seen(entries: Seq<(usize, i32)>, n: int, s: usize) -> bool {
    exists|j: int| 0 <= j < n && (#[trigger] entries[j]).0 == s
}

/// A reaction as plain values: both sides and the rate constant as written.
pub struct ReactionModel {
    pub reactants: Map<usize, i32>,
    pub products: Map<usize, i32>,
    pub rate: Seq<char>,
}

/// A chemical reaction, with a rate constant.
#[derive(Debug, PartialEq)]
pub struct Reaction {
    /// Reactants and their stoichiometric coefficients.
    pub reactants: HashMap<usize, i32>,
    /// Products and their stoichiometric coefficients.
    pub products: HashMap<usize, i32>,
    /// The change in the amount of each species when the reaction occurs.
    pub delta: HashMap<usize, i32>,
    /// The rate constant.
    pub rate: Number,
}

impl View for Reaction {
    type V = ReactionModel;

    open spec fn view(&self) -> ReactionModel {
        ReactionModel { reactants: self.reactants@, products: self.products@, rate: self.rate@ }
    }
}

/// The net change that goes with two sides: it names the species that
/// either side names, each with what is produced less what is consumed.
pub open spec fn is_net_change(
    delta: Map<usize, i32>,
    reactants: Map<usize, i32>,
    products: Map<usize, i32>,
) -> bool {
    &&& forall|s: usize|
        delta.contains_key(s) <==> reactants.contains_key(s) || products.contains_key(s)
    &&& forall|s: usize|
        delta.contains_key(s) ==> #[trigger] delta[s] == coefficient(products, s) - coefficient(
            reactants,
            s,
        )
}

impl Reaction {
    /// The net change is that of the two sides.
    pub open spec fn wf(&self) -> bool {
        is_net_change(self.delta@, self.reactants@, self.products@)
    }

    /// Makes a reaction from its two sides and its rate constant, and works
    /// out the net change.
    pub fn new(reactants: HashMap<usize, i32>, products: HashMap<usize, i32>, rate: Number) -> (r:
        Reaction)
        requires
            forall|s: usize|
                reactants@.contains_key(s) ==> i32::MIN <= coefficient(products@, s)
                    - #[trigger] reactants@[s] <= i32::MAX,
        ensures
            r.reactants@ == reactants@,
            r.products@ == products@,
            r.rate@ == rate@,
            r.wf(),
    {
        let mut delta = products.clone();
        let list = entries(&reactants);
        let mut i: usize = 0;
        while i < list.len()
            invariant
                0 <= i <= list.len(),
                lists(list@, reactants@),
                forall|s: usize|
                    reactants@.contains_key(s) ==> i32::MIN <= coefficient(products@, s)
                        - #[trigger] reactants@[s] <= i32::MAX,
                forall|s: usize|
                    delta@.contains_key(s) <==> products@.contains_key(s) || seen(
                        list@,
                        i as int,
                        s,
                    ),
                forall|s: usize|
                    delta@.contains_key(s) ==> #[trigger] delta@[s] == coefficient(products@, s) - (
                    if seen(list@, i as int, s) {
                        reactants@[s] as int
                    } else {
                        0
                    }),
            decreases list.len() - i,
        {
            let (s, count) = list[i];
            proof {
                assert(reactants@.contains_key(list@[i as int].0));
                if seen(list@, i as int, s) {
                    let j = choose|j: int| 0 <= j < i && (#[trigger] list@[j]).0 == s;
                    assert(list@[j].0 != list@[i as int].0);
                }
            }
            let change: i32 = match delta.get(&s) {
                Some(current) => *current - count,
                None => 0 - count,
            };
            delta.insert(s, change);
            proof {
                assert(seen(list@, i + 1, s)) by {
                    assert(list@[i as int].0 == s);
                }
                assert forall|t: usize| seen(list@, i + 1, t) <==> (seen(list@, i as int, t) || t
                    == s) by {
                    if seen(list@, i + 1, t) {
                        let j = choose|j: int| 0 <= j < i + 1 && (#[trigger] list@[j]).0 == t;
                        if j < i {
                            assert(seen(list@, i as int, t));
                        }
                    }
                    if seen(list@, i as int, t) {
                        let j = choose|j: int| 0 <= j < i && (#[trigger] list@[j]).0 == t;
                        assert(0 <= j < i + 1);
                    }
                }
            }
            i += 1;
        }
        proof {
            assert forall|s: usize| reactants@.contains_key(s) <==> seen(
                list@,
                list@.len() as int,
                s,
            ) by {
                if seen(list@, list@.len() as int, s) {
                    let j = choose|j: int| 0 <= j < list@.len() && (#[trigger] list@[j]).0 == s;
                    assert(reactants@.contains_key(list@[j].0));
                }
            }
        }
        Reaction { reactants, products, delta, rate }
    }
}

/// Every pair of the side is a species below `n` for which the net change
/// holds what is produced less what is consumed.
pub open spec fn side_checks(
    side: Map<usize, i32>,
    n: nat,
    delta: Map<usize, i32>,
    reactants: Map<usize, i32>,
    products: Map<usize, i32>,
) -> bool {
    forall|s: usize| #[trigger]
        side.contains_key(s) ==> s < n && delta.contains_key(s) && delta[s] == coefficient(
            products,
            s,
        ) - coefficient(reactants, s)
}

impl Reaction {
    /// Whether every pair of `side`, which is one side of this reaction,
    /// names a species below `n` and is accounted for in the net change.
    fn checks(&self, side: &HashMap<usize, i32>, n: usize) -> (r: bool)
        ensures
            r == side_checks(side@, n as nat, self.delta@, self.reactants@, self.products@),
    {
        let list = entries(side);
        let mut i: usize = 0;
        while i < list.len()
            invariant
                0 <= i <= list.len(),
                lists(list@, side@),
                forall|j: int|
                    0 <= j < i ==> (#[trigger] list@[j]).0 < n && self.delta@.contains_key(
                        list@[j].0,
                    ) && self.delta@[list@[j].0] == coefficient(self.products@, list@[j].0)
                        - coefficient(self.reactants@, list@[j].0),
            decreases list.len() - i,
        {
            let (s, _) = list[i];
            proof {
                assert(side@.contains_key(list@[i as int].0));
            }
            if s >= n {
                return false;
            }
            let consumed: i64 = match self.reactants.get(&s) {
                Some(v) => *v as i64,
                None => 0,
            };
            let produced: i64 = match self.products.get(&s) {
                Some(v) => *v as i64,
                None => 0,
            };
            match self.delta.get(&s) {
                None => {
                    return false;
                },
                Some(d) => {
                    if *d as i64 != produced - consumed {
                        return false;
                    }
                },
            }
            i += 1;
        }
        proof {
            assert forall|s: usize| #[trigger] side@.contains_key(s) implies s < n
                && self.delta@.contains_key(s) && self.delta@[s] == coefficient(self.products@, s)
                - coefficient(self.reactants@, s) by {
                let j = choose|j: int| 0 <= j < list@.len() && (#[trigger] list@[j]).0 == s;
                assert(list@[j].0 < n);
            }
        }
        true
    }

    /// Whether every species of the net change stands on one of the sides.
    fn covered(&self) -> (r: bool)
        ensures
            r == forall|s: usize| #[trigger]
                self.delta@.contains_key(s) ==> self.reactants@.contains_key(s)
                    || self.products@.contains_key(s),
    {
        let list = entries(&self.delta);
        let mut i: usize = 0;
        while i < list.len()
            invariant
                0 <= i <= list.len(),
                lists(list@, self.delta@),
                forall|j: int|
                    0 <= j < i ==> self.reactants@.contains_key((#[trigger] list@[j]).0)
                        || self.products@.contains_key(list@[j].0),
            decreases list.len() - i,
        {
            let (s, _) = list[i];
            proof {
                assert(self.delta@.contains_key(list@[i as int].0));
            }
            if !self.reactants.contains_key(&s) && !self.products.contains_key(&s) {
                return false;
            }
            i += 1;
        }
        proof {
            assert forall|s: usize| #[trigger]
                self.delta@.contains_key(s) implies self.reactants@.contains_key(s)
                || self.products@.contains_key(s) by {
                let j = choose|j: int| 0 <= j < list@.len() && (#[trigger] list@[j]).0 == s;
                assert(self.reactants@.contains_key(list@[j].0) || self.products@.contains_key(
                    list@[j].0,
                ));
            }
        }
        true
    }

    /// Whether the reaction holds the net change of its sides and names
    /// only species below `n`.
    pub fn valid(&self, n: usize) -> (r: bool)
        ensures
            r == (self.wf() && in_range(self.reactants@, n as nat) && in_range(
                self.products@,
                n as nat,
            )),
    {
        self.checks(&self.reactants, n) && self.checks(&self.products, n) && self.covered()
    }
}

impl Clone for Reaction {
    fn clone(&self) -> (r: Self)
        ensures
            r@ == self@,
            r.delta@ == self.delta@,
    {
        Reaction {
            reactants: self.reactants.clone(),
            products: self.products.clone(),
            delta: self.delta.clone(),
            rate: self.rate.clone(),
        }
    }
}

} // verus!
