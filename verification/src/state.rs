//! The state of a network: the abundance of each species and the clock.

use crate::number::Abundance;
use crate::reaction::{coefficient, lemma_walk, pairs, seen, Reaction};
use std::collections::HashMap;
use vstd::prelude::*;
use vstd::std_specs::iter::IteratorSpec;

verus! {

/// A state as plain values.
pub struct StateModel<A> {
    pub species: Seq<A>,
    pub time: u64,
}

/// A state of a network. A stochastic network counts molecules in
/// integers; a network read for integration keeps each concentration as it
/// was written.
#[derive(Debug, PartialEq)]
pub struct State<T> {
    /// Amount of each species.
    pub species: Vec<T>,
    /// Current time, as the bit pattern of a double-precision number. The
    /// library carries it and never computes with it; a new state is at 0.
    pub time: u64,
}

impl<T: View> View for State<T> {
    type V = StateModel<T::V>;

    open spec fn view(&self) -> StateModel<T::V> {
        StateModel { species: self.species@.map_values(|x: T| x@), time: self.time }
    }
}

impl<T: Abundance> Clone for State<T> {
    fn clone(&self) -> (r: Self)
        ensures
            r@ == self@,
    {
        let mut species: Vec<T> = Vec::new();
        let mut i: usize = 0;
        while i < self.species.len()
            invariant
                0 <= i <= self.species.len(),
                species@.len() == i,
                forall|j: int| 0 <= j < i ==> (#[trigger] species@[j])@ == self.species@[j]@,
            decreases self.species.len() - i,
        {
            species.push(self.species[i].duplicate());
            i += 1;
        }
        let r = State { species, time: self.time };
        assert(r@.species =~= self@.species);
        r
    }
}

/// Every species that a side names is one of the `n` species of the state.
pub open spec fn in_range(side: Map<usize, i32>, n: nat) -> bool {
    forall|s: usize| #[trigger] side.contains_key(s) ==> s < n
}

/// The state holds, of every reactant, at least as many molecules as the
/// reaction consumes.
pub open spec fn enough(species: Seq<i32>, reactants: Map<usize, i32>) -> bool {
    forall|s: usize|
        reactants.contains_key(s) ==> s < species.len() && #[trigger] reactants[s] <= species[s as int]
}

/// The net change can be added to the state: it names species of the state
/// only, and no sum leaves the range of a 32-bit integer.
pub open spec fn can_apply(species: Seq<i32>, delta: Map<usize, i32>) -> bool {
    forall|s: usize|
        delta.contains_key(s) ==> s < species.len() && i32::MIN <= species[s as int]
            + #[trigger] delta[s] <= i32::MAX
}

/// The abundances after a net change was added to them.
pub open spec fn applied(species: Seq<i32>, delta: Map<usize, i32>) -> Seq<int> {
    Seq::new(species.len(), |s: int| species[s] + coefficient(delta, s as usize))
}

/// The smaller of two lengths.
pub open spec fn shorter(a: nat, b: nat) -> nat {
    if a < b {
        a
    } else {
        b
    }
}

/// The sum of two abundances is a 32-bit integer.
pub open spec fn sum_fits(a: i32, b: i32) -> bool {
    i32::MIN <= a + b <= i32::MAX
}

/// Two states can be added: as far as both reach, every sum fits.
pub open spec fn can_add(a: Seq<i32>, b: Seq<i32>) -> bool {
    forall|i: int| 0 <= i < a.len() && i < b.len() ==> sum_fits(#[trigger] a[i], b[i])
}

/// `n (n - 1) ... (n - k + 1)`: the number of ways to pick `k` out of `n`
/// molecules one after the other; 1 where `k` is not positive.
pub open spec fn falling_factorial(n: int, k: int) -> int
    decreases k,
{
    if k <= 0 {
        1
    } else {
        falling_factorial(n, k - 1) * (n - k + 1)
    }
}

/// The product of the falling factorials of the first `k` species, each
/// taken with the coefficient that the reaction consumes of it.
pub open spec fn ways_among(species: Seq<i32>, reactants: Map<usize, i32>, k: int) -> int
    decreases k,
{
    if k <= 0 {
        1
    } else {
        ways_among(species, reactants, k - 1) * falling_factorial(
            species[k - 1] as int,
            coefficient(reactants, (k - 1) as usize),
        )
    }
}

/// The number of ways in which the state can supply the molecules that the
/// reaction consumes: the product, over its reactants, of the falling
/// factorial of the abundance; 0 where the state holds too few of one.
pub open spec fn ways(species: Seq<i32>, reactants: Map<usize, i32>) -> int {
    if enough(species, reactants) {
        ways_among(species, reactants, species.len() as int)
    } else {
        0
    }
}

/// Where `k` does not exceed `n`, the falling factorial is at least 1 and
/// grows with `k`.
pub proof fn lemma_falling_factorial_grows(n: int, j: int, k: int)
    requires
        j <= k <= n,
    ensures
        1 <= falling_factorial(n, j) <= falling_factorial(n, k),
    decreases k - j,
{
    lemma_falling_factorial_positive(n, j);
    if j < k {
        lemma_falling_factorial_grows(n, j, k - 1);
        if k > 0 {
            let a = falling_factorial(n, k - 1);
            let t = n - k + 1;
            assert(a <= a * t) by (nonlinear_arith)
                requires
                    a >= 1,
                    t >= 1,
            ;
        }
    }
}

/// Where `k` does not exceed `n`, or is not positive, the falling factorial
/// is at least 1.
pub proof fn lemma_falling_factorial_positive(n: int, k: int)
    requires
        k <= n || k <= 0,
    ensures
        1 <= falling_factorial(n, k),
    decreases k,
{
    if k > 0 {
        lemma_falling_factorial_positive(n, k - 1);
        let a = falling_factorial(n, k - 1);
        let t = n - k + 1;
        assert(1 <= a * t) by (nonlinear_arith)
            requires
                a >= 1,
                t >= 1,
        ;
    }
}

/// Where the state holds enough of every reactant, the product over the
/// first species is at least 1 and grows with their number.
pub proof fn lemma_ways_among_grows(species: Seq<i32>, reactants: Map<usize, i32>, j: int, k: int)
    requires
        enough(species, reactants),
        0 <= j <= k <= species.len(),
        species.len() <= usize::MAX,
    ensures
        1 <= ways_among(species, reactants, j) <= ways_among(species, reactants, k),
    decreases k - j,
{
    if j < k {
        lemma_ways_among_grows(species, reactants, j, k - 1);
        let s = (k - 1) as usize;
        let c = coefficient(reactants, s);
        if reactants.contains_key(s) {
            assert(reactants[s] <= species[s as int]);
        }
        lemma_falling_factorial_positive(species[k - 1] as int, c);
        let a = ways_among(species, reactants, k - 1);
        let f = falling_factorial(species[k - 1] as int, c);
        assert(a <= a * f) by (nonlinear_arith)
            requires
                a >= 1,
                f >= 1,
        ;
    } else {
        lemma_ways_among_positive(species, reactants, j);
    }
}

/// Where the state holds enough of every reactant, the product over the
/// first species is at least 1.
pub proof fn lemma_ways_among_positive(species: Seq<i32>, reactants: Map<usize, i32>, k: int)
    requires
        enough(species, reactants),
        0 <= k <= species.len(),
        species.len() <= usize::MAX,
    ensures
        1 <= ways_among(species, reactants, k),
    decreases k,
{
    if k > 0 {
        lemma_ways_among_positive(species, reactants, k - 1);
        let s = (k - 1) as usize;
        let c = coefficient(reactants, s);
        if reactants.contains_key(s) {
            assert(reactants[s] <= species[s as int]);
        }
        lemma_falling_factorial_positive(species[k - 1] as int, c);
        let a = ways_among(species, reactants, k - 1);
        let f = falling_factorial(species[k - 1] as int, c);
        assert(1 <= a * f) by (nonlinear_arith)
            requires
                a >= 1,
                f >= 1,
        ;
    }
}

/// A walk over the reactants that finds enough of each has found that the
/// state holds enough of every reactant, and the other way round.
proof fn lemma_enough_by_walk(m: &HashMap<usize, i32>, species: Seq<i32>)
    requires
        m.iter().remaining().no_duplicates(),
        in_range(m@, species.len()),
    ensures
        enough(species, m@) <==> forall|j: int|
            0 <= j < pairs(m.iter().remaining()).len() ==> (#[trigger] pairs(
                m.iter().remaining(),
            )[j]).1 <= species[pairs(m.iter().remaining())[j].0 as int],
{
    lemma_walk(m);
    let list = pairs(m.iter().remaining());
    if forall|j: int| 0 <= j < list.len() ==> (#[trigger] list[j]).1 <= species[list[j].0 as int] {
        assert forall|s: usize| m@.contains_key(s) implies s < species.len() && #[trigger] m@[s]
            <= species[s as int] by {
            let j = choose|j: int| 0 <= j < list.len() && (#[trigger] list[j]).0 == s;
            assert(list[j].1 <= species[list[j].0 as int]);
        }
    } else {
        let j = choose|j: int|
            0 <= j < list.len() && !((#[trigger] list[j]).1 <= species[list[j].0 as int]);
        assert(m@.contains_key(list[j].0));
    }
}

/// Whether the pair fits: its species is one of the state, and the sum
/// stays in range.
pub open spec fn pair_fits(species: Seq<i32>, pair: (usize, i32)) -> bool {
    pair.0 < species.len() && i32::MIN <= species[pair.0 as int] + pair.1 <= i32::MAX
}

/// A walk over the net change that finds every pair fitting has found that
/// the change can be applied, and the other way round.
proof fn lemma_can_apply_by_walk(m: &HashMap<usize, i32>, species: Seq<i32>)
    requires
        m.iter().remaining().no_duplicates(),
    ensures
        can_apply(species, m@) <==> forall|j: int|
            0 <= j < pairs(m.iter().remaining()).len() ==> pair_fits(
                species,
                #[trigger] pairs(m.iter().remaining())[j],
            ),
{
    lemma_walk(m);
    let list = pairs(m.iter().remaining());
    if forall|j: int| 0 <= j < list.len() ==> pair_fits(species, #[trigger] list[j]) {
        assert forall|s: usize| m@.contains_key(s) implies s < species.len() && i32::MIN
            <= species[s as int] + #[trigger] m@[s] <= i32::MAX by {
            let j = choose|j: int| 0 <= j < list.len() && (#[trigger] list[j]).0 == s;
            assert(pair_fits(species, list[j]));
        }
    } else {
        let j = choose|j: int| 0 <= j < list.len() && !pair_fits(species, #[trigger] list[j]);
        assert(m@.contains_key(list[j].0));
    }
}

/// The abundances while a net change is being added: the first `i` pairs
/// of the walk are in, the others are not.
pub open spec fn partly_applied(
    before: Seq<i32>,
    now: Seq<i32>,
    delta: Map<usize, i32>,
    list: Seq<(usize, i32)>,
    i: int,
) -> bool {
    &&& now.len() == before.len()
    &&& forall|s: int|
        0 <= s < before.len() ==> #[trigger] now[s] == before[s] + (if seen(list, i, s as usize) {
            delta[s as usize] as int
        } else {
            0
        })
}

/// Adding the next pair of the walk keeps the abundances partly applied.
proof fn lemma_apply_step(m: &HashMap<usize, i32>, before: Seq<i32>, now: Seq<i32>, i: int)
    requires
        m.iter().remaining().no_duplicates(),
        can_apply(before, m@),
        0 <= i < pairs(m.iter().remaining()).len(),
        partly_applied(before, now, m@, pairs(m.iter().remaining()), i),
        before.len() <= usize::MAX,
    ensures
        pair_fits(now, pairs(m.iter().remaining())[i]),
        partly_applied(
            before,
            now.update(
                pairs(m.iter().remaining())[i].0 as int,
                (now[pairs(m.iter().remaining())[i].0 as int] + pairs(
                    m.iter().remaining(),
                )[i].1) as i32,
            ),
            m@,
            pairs(m.iter().remaining()),
            i + 1,
        ),
{
    lemma_walk(m);
    let list = pairs(m.iter().remaining());
    let k = list[i].0;
    let c = list[i].1;
    assert(m@.contains_key(list[i].0));
    if seen(list, i, k) {
        let j = choose|j: int| 0 <= j < i && (#[trigger] list[j]).0 == k;
        assert(list[j].0 != list[i].0);
    }
    let next = now.update(k as int, (now[k as int] + c) as i32);
    assert forall|s: int| 0 <= s < before.len() implies #[trigger] next[s] == before[s] + (if seen(
        list,
        i + 1,
        s as usize,
    ) {
        m@[s as usize] as int
    } else {
        0
    }) by {
        if s == k {
            assert(list[i].0 == s as usize);
            assert(seen(list, i + 1, s as usize));
        } else {
            if seen(list, i + 1, s as usize) {
                let j = choose|j: int| 0 <= j < i + 1 && (#[trigger] list[j]).0 == s as usize;
                assert(j < i);
                assert(seen(list, i, s as usize));
            }
            if seen(list, i, s as usize) {
                let j = choose|j: int| 0 <= j < i && (#[trigger] list[j]).0 == s as usize;
                assert(0 <= j < i + 1);
                assert(seen(list, i + 1, s as usize));
            }
        }
    }
}

/// Once the walk is over, the whole net change is in.
proof fn lemma_apply_done(m: &HashMap<usize, i32>, before: Seq<i32>, now: Seq<i32>)
    requires
        m.iter().remaining().no_duplicates(),
        partly_applied(
            before,
            now,
            m@,
            pairs(m.iter().remaining()),
            pairs(m.iter().remaining()).len() as int,
        ),
        before.len() <= usize::MAX,
    ensures
        forall|s: int|
            0 <= s < before.len() ==> #[trigger] now[s] == before[s] + coefficient(m@, s as usize),
{
    lemma_walk(m);
    let list = pairs(m.iter().remaining());
    assert forall|s: int| 0 <= s < before.len() implies #[trigger] now[s] == before[s]
        + coefficient(m@, s as usize) by {
        if seen(list, list.len() as int, s as usize) {
            let j = choose|j: int| 0 <= j < list.len() && (#[trigger] list[j]).0 == s as usize;
            assert(m@.contains_key(list[j].0));
        }
        if m@.contains_key(s as usize) {
            assert(seen(list, list.len() as int, s as usize));
        }
    }
}

/// The product over all species is at least the product over the first
/// `s`, times the first `j` factors of the falling factorial of the next.
proof fn lemma_ways_overflow(species: Seq<i32>, reactants: Map<usize, i32>, s: int, j: int)
    requires
        enough(species, reactants),
        0 <= s < species.len() <= usize::MAX,
        reactants.contains_key(s as usize),
        0 <= j <= reactants[s as usize],
    ensures
        ways_among(species, reactants, s) * falling_factorial(species[s] as int, j) <= ways(
            species,
            reactants,
        ),
{
    let k = coefficient(reactants, s as usize);
    assert(reactants[s as usize] <= species[s]);
    lemma_falling_factorial_grows(species[s] as int, j, k);
    lemma_ways_among_positive(species, reactants, s);
    lemma_ways_among_grows(species, reactants, s + 1, species.len() as int);
    let base = ways_among(species, reactants, s);
    let a = falling_factorial(species[s] as int, j);
    let b = falling_factorial(species[s] as int, k);
    assert(base * a <= base * b) by (nonlinear_arith)
        requires
            base >= 1,
            a <= b,
    ;
}

impl State<i32> {
    /// Whether the state holds enough of every reactant for the reaction to
    /// occur.
    pub fn applicable(&self, rxn: &Reaction) -> (r: bool)
        requires
            in_range(rxn.reactants@, self.species@.len()),
        ensures
            r == enough(self.species@, rxn.reactants@),
    {
        let mut all: bool = true;
        for kv in it: rxn.reactants.iter()
            invariant
                it.seq() == rxn.reactants.iter().remaining(),
                it.seq().no_duplicates(),
                in_range(rxn.reactants@, self.species@.len()),
                all <==> forall|j: int|
                    0 <= j < it.index() ==> (#[trigger] pairs(it.seq())[j]).1
                        <= self.species@[pairs(it.seq())[j].0 as int],
        {
            let (species, count) = kv;
            proof {
                lemma_walk(&rxn.reactants);
                assert(pairs(it.seq())[it.index()] == (*species, *count));
                assert(rxn.reactants@.contains_key(pairs(it.seq())[it.index()].0));
            }
            if *count > self.species[*species] {
                all = false;
            }
        }
        proof {
            lemma_enough_by_walk(&rxn.reactants, self.species@);
        }
        all
    }

    /// Whether `apply` can add the reaction's net change to this state.
    pub fn fits(&self, rxn: &Reaction) -> (r: bool)
        ensures
            r == can_apply(self.species@, rxn.delta@),
    {
        let mut all: bool = true;
        for kv in it: rxn.delta.iter()
            invariant
                it.seq() == rxn.delta.iter().remaining(),
                it.seq().no_duplicates(),
                all <==> forall|j: int|
                    0 <= j < it.index() ==> pair_fits(
                        self.species@,
                        #[trigger] pairs(it.seq())[j],
                    ),
        {
            let (species, change) = kv;
            proof {
                assert(pairs(it.seq())[it.index()] == (*species, *change));
            }
            if *species >= self.species.len() {
                all = false;
            } else if self.species[*species].checked_add(*change).is_none() {
                all = false;
            }
        }
        proof {
            lemma_can_apply_by_walk(&rxn.delta, self.species@);
        }
        all
    }

    /// Applies a reaction: adds its net change to the amounts of the
    /// species. The clock stays as it is.
    pub fn apply(&mut self, rxn: &Reaction)
        requires
            can_apply(old(self).species@, rxn.delta@),
        ensures
            final(self).time == old(self).time,
            final(self).species@.len() == old(self).species@.len(),
            forall|s: int|
                0 <= s < old(self).species@.len() ==> #[trigger] final(self).species@[s] == old(
                    self,
                ).species@[s] + coefficient(rxn.delta@, s as usize),
    {
        let ghost before = self.species@;
        let n = self.species.len();
        for kv in it: rxn.delta.iter()
            invariant
                it.seq() == rxn.delta.iter().remaining(),
                it.seq().no_duplicates(),
                before == old(self).species@,
                before.len() == n,
                can_apply(before, rxn.delta@),
                self.time == old(self).time,
                partly_applied(before, self.species@, rxn.delta@, pairs(it.seq()), it.index()),
        {
            let (species, change) = kv;
            proof {
                assert(pairs(it.seq())[it.index()] == (*species, *change));
                lemma_apply_step(&rxn.delta, before, self.species@, it.index());
            }
            let sum: i32 = self.species[*species] + *change;
            self.species.set(*species, sum);
        }
        proof {
            lemma_apply_done(&rxn.delta, before, self.species@);
        }
    }

    /// The number of ways in which the state can supply the molecules that
    /// the reaction consumes, or `None` where that number does not fit in
    /// 128 bits. Times the rate constant, it is the propensity of the
    /// reaction.
    pub fn ways(&self, rxn: &Reaction) -> (r: Option<u128>)
        requires
            in_range(rxn.reactants@, self.species@.len()),
        ensures
            r == if ways(self.species@, rxn.reactants@) <= u128::MAX {
                Some(ways(self.species@, rxn.reactants@) as u128)
            } else {
                None
            },
    {
        if !self.applicable(rxn) {
            return Some(0);
        }
        let n = self.species.len();
        let mut acc: u128 = 1;
        let mut s: usize = 0;
        while s < n
            invariant
                0 <= s <= n == self.species@.len(),
                enough(self.species@, rxn.reactants@),
                acc == ways_among(self.species@, rxn.reactants@, s as int),
            decreases n - s,
        {
            let ghost base = acc as int;
            proof {
                lemma_ways_among_positive(self.species@, rxn.reactants@, s as int);
            }
            match rxn.reactants.get(&s) {
                None => {
                    assert(acc * 1 == acc);
                },
                Some(count) => {
                    let have: i32 = self.species[s];
                    let k: i32 = *count;
                    assert(k <= have);
                    let mut j: i32 = 0;
                    assert(base * 1 == base);
                    while j < k
                        invariant
                            0 <= j,
                            j <= k || (k <= 0 && j == 0),
                            k <= have,
                            base >= 1,
                            acc == base * falling_factorial(have as int, j as int),
                            0 <= s < n == self.species@.len(),
                            enough(self.species@, rxn.reactants@),
                            base == ways_among(self.species@, rxn.reactants@, s as int),
                            rxn.reactants@.contains_key(s),
                            rxn.reactants@[s] == k,
                            self.species@[s as int] == have,
                        decreases k - j,
                    {
                        let term: i32 = have - j;
                        proof {
                            let f = falling_factorial(have as int, j as int);
                            assert(base * (f * term) == (base * f) * term) by (nonlinear_arith);
                        }
                        match acc.checked_mul(term as u128) {
                            None => {
                                proof {
                                    lemma_ways_overflow(
                                        self.species@,
                                        rxn.reactants@,
                                        s as int,
                                        j + 1,
                                    );
                                }
                                return None;
                            },
                            Some(product) => {
                                acc = product;
                            },
                        }
                        j += 1;
                    }
                    assert(acc == base * falling_factorial(have as int, k as int)) by {
                        if k <= 0 {
                            assert(j == 0);
                        }
                    }
                },
            }
            assert(acc == ways_among(self.species@, rxn.reactants@, s + 1)) by {
                let c = coefficient(rxn.reactants@, s);
                assert(ways_among(self.species@, rxn.reactants@, s + 1) == ways_among(
                    self.species@,
                    rxn.reactants@,
                    s as int,
                ) * falling_factorial(self.species@[s as int] as int, c));
            }
            s += 1;
        }
        Some(acc)
    }

    /// The element-wise sum of two states, as far as both reach. The clock
    /// is that of `self`.
    pub fn add(&self, rhs: &State<i32>) -> (r: State<i32>)
        requires
            can_add(self.species@, rhs.species@),
        ensures
            r.time == self.time,
            r.species@.len() == shorter(self.species@.len(), rhs.species@.len()),
            forall|i: int|
                0 <= i < r.species@.len() ==> #[trigger] r.species@[i] == self.species@[i]
                    + rhs.species@[i],
    {
        let n = if self.species.len() < rhs.species.len() {
            self.species.len()
        } else {
            rhs.species.len()
        };
        let mut species: Vec<i32> = Vec::new();
        let mut i: usize = 0;
        while i < n
            invariant
                0 <= i <= n,
                n == shorter(self.species@.len(), rhs.species@.len()),
                can_add(self.species@, rhs.species@),
                species@.len() == i,
                forall|j: int|
                    0 <= j < i ==> #[trigger] species@[j] == self.species@[j] + rhs.species@[j],
            decreases n - i,
        {
            proof {
                assert(sum_fits(self.species@[i as int], rhs.species@[i as int]));
            }
            species.push(self.species[i] + rhs.species[i]);
            i += 1;
        }
        State { species, time: self.time }
    }

    /// Adds `rhs` to this state, element by element, as far as both reach.
    /// The clock stays as it is.
    pub fn add_assign(&mut self, rhs: State<i32>)
        requires
            can_add(old(self).species@, rhs.species@),
        ensures
            final(self).time == old(self).time,
            final(self).species@.len() == old(self).species@.len(),
            forall|i: int|
                0 <= i < old(self).species@.len() ==> #[trigger] final(self).species@[i] == old(
                    self,
                ).species@[i] + if i < rhs.species@.len() {
                    rhs.species@[i] as int
                } else {
                    0
                },
    {
        let n = if self.species.len() < rhs.species.len() {
            self.species.len()
        } else {
            rhs.species.len()
        };
        let mut i: usize = 0;
        while i < n
            invariant
                0 <= i <= n,
                n == shorter(old(self).species@.len(), rhs.species@.len()),
                can_add(old(self).species@, rhs.species@),
                self.time == old(self).time,
                self.species@.len() == old(self).species@.len(),
                forall|j: int|
                    0 <= j < self.species@.len() ==> #[trigger] self.species@[j] == old(
                        self,
                    ).species@[j] + if j < i {
                        rhs.species@[j] as int
                    } else {
                        0
                    },
            decreases n - i,
        {
            proof {
                assert(sum_fits(old(self).species@[i as int], rhs.species@[i as int]));
            }
            let sum: i32 = self.species[i] + rhs.species[i];
            self.species.set(i, sum);
            i += 1;
        }
    }
}

} // verus!