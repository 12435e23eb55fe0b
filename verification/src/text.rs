//! Writing a network as text that `parse` reads back.

use crate::crn::Crn;
use crate::grammar::{network_of, Network, ParseFailure};
use crate::integer::{integer_text, write_i32};
use crate::names::{name_table, names_get_by_left};
use crate::number::Abundance;
use crate::reaction::{entries, lists, ReactionModel};
use crate::roundtrip::{lemma_write_then_read, printable};
use crate::state::in_range;
use itertools::Itertools;
use std::collections::HashMap;
use vstd::prelude::*;
use vstd::string::*;

verus! {

/// The order of pairs of integers: by the first, then by the second.
pub open spec fn pair_le(a: (usize, i32), b: (usize, i32)) -> bool {
    a.0 < b.0 || (a.0 == b.0 && a.1 <= b.1)
}

/// No pair stands before a smaller one.
pub open spec fn ascending(s: Seq<(usize, i32)>) -> bool {
    forall|i: int, j: int| 0 <= i < j < s.len() ==> pair_le(#[trigger] s[i], #[trigger] s[j])
}

/// `Itertools::sorted`: what comes out holds the pairs that went in, each
/// as often as it went in, in ascending order.
#[verifier::external_body]
fn sorted(pairs: Vec<(usize, i32)>) -> (r: Vec<(usize, i32)>)
    ensures
        r@.to_multiset() == pairs@.to_multiset(),
        ascending(r@),
{
    pairs.into_iter().sorted().collect()
}

/// The pairs of a side whose species is below `n`, in the order of the
/// species.
pub open spec fn entries_below(side: Map<usize, i32>, n: int) -> Seq<(usize, i32)>
    decreases n,
{
    if n <= 0 {
        Seq::empty()
    } else if side.contains_key((n - 1) as usize) {
        entries_below(side, n - 1).push(((n - 1) as usize, side[(n - 1) as usize]))
    } else {
        entries_below(side, n - 1)
    }
}

/// The keys of the pairs grow from each pair to the next.
pub open spec fn keys_grow(s: Seq<(usize, i32)>) -> bool {
    forall|i: int, j: int| 0 <= i < j < s.len() ==> (#[trigger] s[i]).0 < (#[trigger] s[j]).0
}

/// The pairs of a side below `n` are pairs of the side, with keys below
/// `n` that grow, and every key of the side below `n` is among them.
pub proof fn lemma_entries_below(side: Map<usize, i32>, n: int)
    requires
        0 <= n <= usize::MAX + 1,
    ensures
        keys_grow(entries_below(side, n)),
        forall|i: int|
            0 <= i < entries_below(side, n).len() ==> {
                &&& (#[trigger] entries_below(side, n)[i]).0 < n
                &&& side.contains_key(entries_below(side, n)[i].0)
                &&& side[entries_below(side, n)[i].0] == entries_below(side, n)[i].1
            },
        forall|k: usize|
            side.contains_key(k) && k < n ==> exists|i: int|
                0 <= i < entries_below(side, n).len() && (#[trigger] entries_below(side, n)[i]).0
                    == k,
    decreases n,
{
    if n > 0 {
        lemma_entries_below(side, n - 1);
        let before = entries_below(side, n - 1);
        let now = entries_below(side, n);
        let last = (n - 1) as usize;
        assert forall|k: usize| side.contains_key(k) && k < n implies exists|i: int|
            0 <= i < now.len() && (#[trigger] now[i]).0 == k by {
            if k < n - 1 {
                let i = choose|i: int| 0 <= i < before.len() && (#[trigger] before[i]).0 == k;
                assert(now[i] == before[i]);
            } else {
                assert(now[now.len() - 1].0 == k);
            }
        }
        assert forall|i: int, j: int| 0 <= i < j < now.len() implies (#[trigger] now[i]).0 < (
        #[trigger] now[j]).0 by {
            if j < before.len() {
                assert(now[i] == before[i] && now[j] == before[j]);
            } else {
                assert(now[i] == before[i]);
            }
        }
        assert forall|i: int| 0 <= i < now.len() implies {
            &&& (#[trigger] now[i]).0 < n
            &&& side.contains_key(now[i].0)
            &&& side[now[i].0] == now[i].1
        } by {
            if i < before.len() {
                assert(now[i] == before[i]);
            }
        }
    }
}

/// Two lists of pairs with growing keys that hold the same keys with the
/// same values are one list.
pub proof fn lemma_keys_grow_unique(a: Seq<(usize, i32)>, b: Seq<(usize, i32)>)
    requires
        keys_grow(a),
        keys_grow(b),
        forall|i: int| 0 <= i < a.len() ==> b.contains(#[trigger] a[i]),
        forall|i: int| 0 <= i < b.len() ==> a.contains(#[trigger] b[i]),
    ensures
        a == b,
    decreases a.len(),
{
    if a.len() == 0 {
        if b.len() > 0 {
            assert(a.contains(b[0]));
        }
        assert(a =~= b);
    } else if b.len() == 0 {
        assert(b.contains(a[0]));
    } else {
        let x = a.last();
        let y = b.last();
        assert(b.contains(x));
        assert(a.contains(y));
        let i = choose|i: int| 0 <= i < b.len() && b[i] == x;
        let j = choose|j: int| 0 <= j < a.len() && a[j] == y;
        if i < b.len() - 1 {
            assert(b[i].0 < b[b.len() - 1].0);
        }
        if j < a.len() - 1 {
            assert(a[j].0 < a[a.len() - 1].0);
        }
        assert(x == y);
        let a0 = a.drop_last();
        let b0 = b.drop_last();
        assert forall|k: int| 0 <= k < a0.len() implies b0.contains(#[trigger] a0[k]) by {
            assert(a0[k] == a[k]);
            assert(b.contains(a[k]));
            let l = choose|l: int| 0 <= l < b.len() && b[l] == a[k];
            assert(a[k].0 < a[a.len() - 1].0);
            assert(l < b.len() - 1);
            assert(b0[l] == a0[k]);
        }
        assert forall|k: int| 0 <= k < b0.len() implies a0.contains(#[trigger] b0[k]) by {
            assert(b0[k] == b[k]);
            assert(a.contains(b[k]));
            let l = choose|l: int| 0 <= l < a.len() && a[l] == b[k];
            assert(b[k].0 < b[b.len() - 1].0);
            assert(l < a.len() - 1);
            assert(a0[l] == b0[k]);
        }
        assert(keys_grow(a0)) by {
            assert forall|p: int, q: int| 0 <= p < q < a0.len() implies (#[trigger] a0[p]).0 < (
            #[trigger] a0[q]).0 by {
                assert(a0[p] == a[p] && a0[q] == a[q]);
            }
        }
        assert(keys_grow(b0)) by {
            assert forall|p: int, q: int| 0 <= p < q < b0.len() implies (#[trigger] b0[p]).0 < (
            #[trigger] b0[q]).0 by {
                assert(b0[p] == b[p] && b0[q] == b[q]);
            }
        }
        lemma_keys_grow_unique(a0, b0);
        assert(a =~= a0.push(x));
        assert(b =~= b0.push(y));
    }
}

/// The pairs of a side, sorted, are its pairs in the order of the species.
proof fn lemma_sorted_entries(
    list: Seq<(usize, i32)>,
    sorted: Seq<(usize, i32)>,
    side: Map<usize, i32>,
    n: nat,
)
    requires
        lists(list, side),
        sorted.to_multiset() == list.to_multiset(),
        ascending(sorted),
        in_range(side, n),
        n <= usize::MAX,
    ensures
        sorted == entries_below(side, n as int),
{
    let below = entries_below(side, n as int);
    lemma_entries_below(side, n as int);
    assert forall|x: (usize, i32)| sorted.contains(x) <==> list.contains(x) by {
        vstd::seq_lib::to_multiset_contains(sorted, x);
        vstd::seq_lib::to_multiset_contains(list, x);
    }
    assert forall|i: int| 0 <= i < sorted.len() implies side.contains_key(
        (#[trigger] sorted[i]).0,
    ) && side[sorted[i].0] == sorted[i].1 by {
        assert(sorted.contains(sorted[i]));
        assert(list.contains(sorted[i]));
        let j = choose|j: int| 0 <= j < list.len() && list[j] == sorted[i];
        assert(side.contains_key(list[j].0));
    }
    assert(keys_grow(sorted)) by {
        assert forall|i: int, j: int| 0 <= i < j < sorted.len() implies (#[trigger] sorted[i]).0 < (
        #[trigger] sorted[j]).0 by {
            assert(pair_le(sorted[i], sorted[j]));
            if sorted[i].0 == sorted[j].0 {
                assert(side[sorted[i].0] == sorted[i].1);
                assert(side[sorted[j].0] == sorted[j].1);
                assert(sorted[i] == sorted[j]);
                assert(list.no_duplicates()) by {
                    assert forall|p: int, q: int|
                        0 <= p < list.len() && 0 <= q < list.len() && p != q implies list[p]
                        != list[q] by {
                        if p < q {
                            assert(list[p].0 != list[q].0);
                        } else {
                            assert(list[q].0 != list[p].0);
                        }
                    }
                }
                list.lemma_multiset_has_no_duplicates();
                sorted.lemma_multiset_has_no_duplicates_conv();
            }
        }
    }
    assert forall|i: int| 0 <= i < sorted.len() implies below.contains(#[trigger] sorted[i]) by {
        let k = sorted[i].0;
        assert(side.contains_key(k));
        let j = choose|j: int| 0 <= j < below.len() && (#[trigger] below[j]).0 == k;
        assert(below[j] == sorted[i]);
    }
    assert forall|i: int| 0 <= i < below.len() implies sorted.contains(#[trigger] below[i]) by {
        let k = below[i].0;
        assert(side.contains_key(k));
        let j = choose|j: int| 0 <= j < list.len() && (#[trigger] list[j]).0 == k;
        assert(list[j] == below[i]);
        assert(list.contains(below[i]));
    }
    lemma_keys_grow_unique(sorted, below);
}

/// What stands between two terms of a side.
pub open spec fn plus_text() -> Seq<char> {
    seq![' ', '+', ' ']
}

/// One term of a side: the coefficient, unless it is 1, and the name.
pub open spec fn term_text(name: Seq<char>, count: i32) -> Seq<char> {
    if count == 1 {
        name
    } else {
        integer_text(count as int) + name
    }
}

/// The terms of the pairs, with a plus sign between each two.
pub open spec fn side_text(pairs: Seq<(usize, i32)>, names: Seq<Seq<char>>) -> Seq<char>
    decreases pairs.len(),
{
    if pairs.len() == 0 {
        Seq::empty()
    } else if pairs.len() == 1 {
        term_text(names[pairs[0].0 as int], pairs[0].1)
    } else {
        side_text(pairs.drop_last(), names) + plus_text() + term_text(
            names[pairs.last().0 as int],
            pairs.last().1,
        )
    }
}

/// The line of one declaration.
pub open spec fn declaration_line(name: Seq<char>, value: Seq<char>) -> Seq<char> {
    name + seq![' ', '=', ' '] + value + seq![';', '\n']
}

/// The line of one reaction: both sides in the order of the species, and
/// the rate constant.
pub open spec fn reaction_line(rxn: ReactionModel, names: Seq<Seq<char>>) -> Seq<char> {
    side_text(entries_below(rxn.reactants, names.len() as int), names) + seq![' ', '-', '>', ' ']
        + side_text(entries_below(rxn.products, names.len() as int), names) + seq![' ', ':', ' ']
        + rxn.rate + seq![';', '\n']
}

/// The lines of the first `k` declarations.
pub open spec fn declaration_lines<T: Abundance>(
    names: Seq<Seq<char>>,
    species: Seq<T::V>,
    k: int,
) -> Seq<char>
    decreases k,
{
    if k <= 0 {
        Seq::empty()
    } else {
        declaration_lines::<T>(names, species, k - 1) + declaration_line(
            names[k - 1],
            T::literal_of(species[k - 1]),
        )
    }
}

/// The lines of the first `k` reactions.
pub open spec fn reaction_lines(rxns: Seq<ReactionModel>, names: Seq<Seq<char>>, k: int) -> Seq<
    char,
>
    decreases k,
{
    if k <= 0 {
        Seq::empty()
    } else {
        reaction_lines(rxns, names, k - 1) + reaction_line(rxns[k - 1], names)
    }
}

/// A network as text: one line for each species, in the order of the
/// indices, then one line for each reaction.
pub open spec fn network_text<T: Abundance>(n: Network<T::V>) -> Seq<char> {
    declaration_lines::<T>(n.names, n.species, n.species.len() as int) + reaction_lines(
        n.rxns,
        n.names,
        n.rxns.len() as int,
    )
}

/// The text of a network that can be written is read as that network.
proof fn lemma_written_is_read<T: Abundance>(n: Network<T::V>)
    ensures
        printable::<T>(n) ==> network_of::<T>(network_text::<T>(n)) == Ok::<
            Network<T::V>,
            ParseFailure,
        >(n),
{
    if printable::<T>(n) {
        lemma_write_then_read::<T>(n);
    }
}

impl<T: Abundance> Crn<T> {
    /// The network as it stands now: names, current abundances and
    /// reactions.
    pub open spec fn current(&self) -> Network<T::V> {
        Network { names: self.names_seq(), species: self.state@.species, rxns: self.reactions() }
    }

    /// Writes one side of a reaction.
    fn side_to_text(&self, side: &HashMap<usize, i32>) -> (r: String)
        requires
            self.wf(),
            in_range(side@, self.count()),
        ensures
            r@ == side_text(entries_below(side@, self.count() as int), self.names_seq()),
    {
        let n = self.init_state.species.len();
        let list = entries(side);
        let ghost unsorted = list@;
        let list = sorted(list);
        proof {
            lemma_sorted_entries(unsorted, list@, side@, n as nat);
            lemma_entries_below(side@, n as int);
            reveal_strlit(" + ");
            assert(" + "@ =~= plus_text());
        }
        let mut out = String::new();
        let mut i: usize = 0;
        while i < list.len()
            invariant
                0 <= i <= list.len(),
                self.wf(),
                n == self.count(),
                list@ == entries_below(side@, n as int),
                forall|j: int| 0 <= j < list@.len() ==> (#[trigger] list@[j]).0 < n,
                out@ == side_text(list@.take(i as int), self.names_seq()),
                " + "@ == plus_text(),
            decreases list.len() - i,
        {
            let (species, count) = list[i];
            proof {
                assert(list@[i as int].0 < n);
                assert(list@.take(i + 1).drop_last() =~= list@.take(i as int));
                assert(list@.take(i + 1).last() == list@[i as int]);
                assert(list@.take(i + 1)[0] == list@[0]);
            }
            let ghost before = out@;
            if i > 0 {
                out.append(" + ");
            }
            if count != 1 {
                let digits = write_i32(count);
                out.append(digits.as_str());
            }
            match names_get_by_left(&self.names, species) {
                Some(name) => {
                    out.append(name.as_str());
                },
                None => {
                    assert(false);
                },
            }
            proof {
                let name = self.names_seq()[species as int];
                assert(name == name_table(self.names)[species]);
                if i == 0 {
                    assert(before =~= Seq::<char>::empty());
                    assert(out@ =~= term_text(name, count));
                } else {
                    assert(out@ =~= before + plus_text() + term_text(name, count));
                }
            }
            i += 1;
        }
        proof {
            assert(list@.take(i as int) =~= list@);
        }
        out
    }

    /// Writes the network as text: one line for each species, with its
    /// current abundance, then one line for each reaction. In a side, the
    /// species stand in the order of their indices, and a coefficient of 1
    /// is left out.
    pub fn to_text(&self) -> (r: String)
        requires
            self.wf(),
        ensures
            r@ == network_text::<T>(self.current()),
            printable::<T>(self.current()) ==> network_of::<T>(r@) == Ok::<
                Network<T::V>,
                ParseFailure,
            >(self.current()),
    {
        proof {
            reveal_strlit(" = ");
            reveal_strlit(";\n");
            reveal_strlit(" -> ");
            reveal_strlit(" : ");
            assert(" = "@ =~= seq![' ', '=', ' ']);
            assert(";\n"@ =~= seq![';', '\n']);
            assert(" -> "@ =~= seq![' ', '-', '>', ' ']);
            assert(" : "@ =~= seq![' ', ':', ' ']);
        }
        let n = self.state.species.len();
        let mut out = String::new();
        let mut i: usize = 0;
        while i < n
            invariant
                0 <= i <= n,
                self.wf(),
                n == self.count(),
                out@ == declaration_lines::<T>(self.names_seq(), self.state@.species, i as int),
                " = "@ == seq![' ', '=', ' '],
                ";\n"@ == seq![';', '\n'],
            decreases n - i,
        {
            let ghost before = out@;
            match names_get_by_left(&self.names, i) {
                Some(name) => {
                    out.append(name.as_str());
                },
                None => {
                    assert(false);
                },
            }
            out.append(" = ");
            let value = self.state.species[i].to_literal();
            out.append(value.as_str());
            out.append(";\n");
            proof {
                let name = self.names_seq()[i as int];
                assert(name == name_table(self.names)[i]);
                assert(self.state@.species[i as int] == self.state.species@[i as int]@);
                assert(out@ =~= before + declaration_line(
                    name,
                    T::literal_of(self.state@.species[i as int]),
                ));
            }
            i += 1;
        }
        let ghost head = out@;
        let mut j: usize = 0;
        while j < self.rxns.len()
            invariant
                0 <= j <= self.rxns.len(),
                self.wf(),
                n == self.count(),
                out@ == head + reaction_lines(self.reactions(), self.names_seq(), j as int),
                " -> "@ == seq![' ', '-', '>', ' '],
                " : "@ == seq![' ', ':', ' '],
                ";\n"@ == seq![';', '\n'],
            decreases self.rxns.len() - j,
        {
            let ghost before = out@;
            let rxn = &self.rxns[j];
            let lhs = self.side_to_text(&rxn.reactants);
            let rhs = self.side_to_text(&rxn.products);
            out.append(lhs.as_str());
            out.append(" -> ");
            out.append(rhs.as_str());
            out.append(" : ");
            out.append(rxn.rate.as_str());
            out.append(";\n");
            proof {
                assert(self.reactions()[j as int] == rxn@);
                assert(out@ =~= before + reaction_line(rxn@, self.names_seq()));
                assert(head + reaction_lines(self.reactions(), self.names_seq(), j + 1) =~= before
                    + reaction_line(rxn@, self.names_seq()));
            }
            j += 1;
        }
        proof {
            assert(self.state@.species.len() == n);
            assert(out@ == network_text::<T>(self.current()));
            lemma_written_is_read::<T>(self.current());
        }
        out
    }
}

} // verus!
