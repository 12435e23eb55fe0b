//! The network grammar, stated over sequences of characters.
//!
//! ```text
//! program     := declaration* reaction*
//! declaration := species "=" number ";"
//! reaction    := side "->" side (":" number)? ";"
//! side        := (term ("+" term)*)?
//! term        := digits? species
//! ```
//!
//! Blanks may stand between any two tokens and at either end. The
//! declarations come first; a species that only a reaction names is added
//! behind the declared ones, with the abundance zero.

use crate::integer::count_value;
use crate::lex::{digits_end, spaces_end, word_end};
use crate::number::{number_end, Abundance};
use crate::reaction::ReactionModel;
use vstd::prelude::*;

verus! {

/// One declaration as it stands in the text.
pub struct Declaration {
    /// The name of the species.
    pub name: Seq<char>,
    /// The literal that gives its abundance.
    pub value: Seq<char>,
    /// Where that literal starts.
    pub value_at: int,
    /// The position behind the closing semicolon.
    pub end: int,
}

/// One term of a side as it stands in the text.
pub struct Term {
    /// The digits of the coefficient; none where the term has none.
    pub count: Seq<char>,
    /// Where the coefficient stands, or would stand.
    pub count_at: int,
    /// The name of the species.
    pub name: Seq<char>,
    /// The position behind the name.
    pub end: int,
}

/// One reaction as it stands in the text.
pub struct ReactionText {
    pub reactants: Seq<Term>,
    pub products: Seq<Term>,
    /// The literal of the rate constant, where the reaction gives one.
    pub rate: Option<Seq<char>>,
    /// The position behind the closing semicolon.
    pub end: int,
}

/// Why a text is not a network.
pub enum ParseFailure {
    /// A second declaration of the species with this name.
    DuplicateDefinition(Seq<char>),
    /// The text does not follow the grammar, or holds a number that cannot
    /// be taken, from this position on.
    MalformedInput(int),
}

/// A network as the grammar describes it: the species in the order of
/// their indices, each with its name and abundance, and the reactions.
pub struct Network<A> {
    pub names: Seq<Seq<char>>,
    pub species: Seq<A>,
    pub rxns: Seq<ReactionModel>,
}

/// The character `c` stands at `i`.
pub open spec fn stands_at(s: Seq<char>, i: int, c: char) -> bool {
    0 <= i < s.len() && s[i] == c
}

/// The declaration that starts at `i`, blanks aside.
pub open spec fn declaration_at(s: Seq<char>, i: int) -> Option<Declaration> {
    let a = spaces_end(s, i);
    match word_end(s, a) {
        None => None,
        Some(b) => {
            let c = spaces_end(s, b);
            if !stands_at(s, c, '=') {
                None
            } else {
                let d = spaces_end(s, c + 1);
                match number_end(s, d) {
                    None => None,
                    Some(e) => {
                        let f = spaces_end(s, e);
                        if stands_at(s, f, ';') {
                            Some(
                                Declaration {
                                    name: s.subrange(a, b),
                                    value: s.subrange(d, e),
                                    value_at: d,
                                    end: f + 1,
                                },
                            )
                        } else {
                            None
                        }
                    },
                }
            }
        },
    }
}

/// The declarations that follow one another from `i` on.
pub open spec fn declarations(s: Seq<char>, i: int) -> Seq<Declaration>
    decreases s.len() - i,
{
    match declaration_at(s, i) {
        Some(d) => if i < d.end <= s.len() {
            seq![d] + declarations(s, d.end)
        } else {
            Seq::empty()
        },
        None => Seq::empty(),
    }
}

/// The position behind the last of the declarations that follow one
/// another from `i` on.
pub open spec fn declarations_end(s: Seq<char>, i: int) -> int
    decreases s.len() - i,
{
    match declaration_at(s, i) {
        Some(d) => if i < d.end <= s.len() {
            declarations_end(s, d.end)
        } else {
            i
        },
        None => i,
    }
}

/// The term that starts at `i`, blanks aside.
pub open spec fn term_at(s: Seq<char>, i: int) -> Option<Term> {
    let a = spaces_end(s, i);
    let b = digits_end(s, a);
    let c = spaces_end(s, b);
    match word_end(s, c) {
        None => None,
        Some(d) => Some(Term { count: s.subrange(a, b), count_at: a, name: s.subrange(c, d), end: d }),
    }
}

/// The terms that follow a first one: each behind a plus sign.
pub open spec fn more_terms(s: Seq<char>, i: int) -> Seq<Term>
    decreases s.len() - i,
{
    let a = spaces_end(s, i);
    if stands_at(s, a, '+') {
        match term_at(s, a + 1) {
            Some(t) => if i < t.end <= s.len() {
                seq![t] + more_terms(s, t.end)
            } else {
                Seq::empty()
            },
            None => Seq::empty(),
        }
    } else {
        Seq::empty()
    }
}

/// The position behind the last of the terms that follow a first one.
pub open spec fn more_terms_end(s: Seq<char>, i: int) -> int
    decreases s.len() - i,
{
    let a = spaces_end(s, i);
    if stands_at(s, a, '+') {
        match term_at(s, a + 1) {
            Some(t) => if i < t.end <= s.len() {
                more_terms_end(s, t.end)
            } else {
                i
            },
            None => i,
        }
    } else {
        i
    }
}

/// The side of a reaction that starts at `i`: no term, or terms with plus
/// signs between them.
pub open spec fn side_at(s: Seq<char>, i: int) -> Seq<Term> {
    match term_at(s, i) {
        Some(t) => seq![t] + more_terms(s, t.end),
        None => Seq::empty(),
    }
}

/// The position behind the side that starts at `i`.
pub open spec fn side_end(s: Seq<char>, i: int) -> int {
    match term_at(s, i) {
        Some(t) => more_terms_end(s, t.end),
        None => i,
    }
}

/// The reaction that starts at `i`, blanks aside.
pub open spec fn reaction_at(s: Seq<char>, i: int) -> Option<ReactionText> {
    let a = spaces_end(s, side_end(s, i));
    if !(stands_at(s, a, '-') && stands_at(s, a + 1, '>')) {
        None
    } else {
        let b = spaces_end(s, side_end(s, a + 2));
        if stands_at(s, b, ':') {
            let c = spaces_end(s, b + 1);
            match number_end(s, c) {
                None => None,
                Some(d) => {
                    let e = spaces_end(s, d);
                    if stands_at(s, e, ';') {
                        Some(
                            ReactionText {
                                reactants: side_at(s, i),
                                products: side_at(s, a + 2),
                                rate: Some(s.subrange(c, d)),
                                end: e + 1,
                            },
                        )
                    } else {
                        None
                    }
                },
            }
        } else if stands_at(s, b, ';') {
            Some(
                ReactionText {
                    reactants: side_at(s, i),
                    products: side_at(s, a + 2),
                    rate: None,
                    end: b + 1,
                },
            )
        } else {
            None
        }
    }
}

/// The reactions that follow one another from `i` on.
pub open spec fn reactions(s: Seq<char>, i: int) -> Seq<ReactionText>
    decreases s.len() - i,
{
    match reaction_at(s, i) {
        Some(r) => if i < r.end <= s.len() {
            seq![r] + reactions(s, r.end)
        } else {
            Seq::empty()
        },
        None => Seq::empty(),
    }
}

/// The position behind the last of the reactions that follow one another
/// from `i` on.
pub open spec fn reactions_end(s: Seq<char>, i: int) -> int
    decreases s.len() - i,
{
    match reaction_at(s, i) {
        Some(r) => if i < r.end <= s.len() {
            reactions_end(s, r.end)
        } else {
            i
        },
        None => i,
    }
}

/// The index of the species called `name`, if there is one.
pub open spec fn position(names: Seq<Seq<char>>, name: Seq<char>) -> Option<int>
    decreases names.len(),
{
    if names.len() == 0 {
        None
    } else if names.last() == name {
        Some(names.len() - 1)
    } else {
        position(names.drop_last(), name)
    }
}

/// No name stands twice.
pub open spec fn distinct(names: Seq<Seq<char>>) -> bool {
    forall|i: int, j: int|
        0 <= i < j < names.len() ==> #[trigger] names[i] != #[trigger] names[j]
}

/// What `position` finds is an index of the name, and it finds one where
/// there is one.
pub proof fn lemma_position(names: Seq<Seq<char>>, name: Seq<char>)
    ensures
        match position(names, name) {
            Some(i) => 0 <= i < names.len() && names[i] == name,
            None => forall|i: int| 0 <= i < names.len() ==> #[trigger] names[i] != name,
        },
    decreases names.len(),
{
    if names.len() > 0 && names.last() != name {
        lemma_position(names.drop_last(), name);
        if position(names, name) is None {
            assert forall|i: int| 0 <= i < names.len() implies #[trigger] names[i] != name by {
                if i < names.len() - 1 {
                    assert(names.drop_last()[i] == names[i]);
                }
            }
        }
    }
}

/// Where declaring a part of the declarations fails, declaring all of them
/// fails in the same way.
pub proof fn lemma_declare_fails<T: Abundance>(decls: Seq<Declaration>, k: int)
    requires
        0 <= k <= decls.len(),
        declare::<T>(decls.take(k)) is Err,
    ensures
        declare::<T>(decls) == declare::<T>(decls.take(k)),
    decreases decls.len() - k,
{
    if k == decls.len() {
        assert(decls.take(k) =~= decls);
    } else {
        assert(decls.take(k + 1).drop_last() =~= decls.take(k));
        lemma_declare_fails::<T>(decls, k + 1);
    }
}

/// Where resolving a part of the terms fails, resolving all of them fails
/// in the same way.
pub proof fn lemma_resolve_fails(terms: Seq<Term>, names: Seq<Seq<char>>, k: int)
    requires
        0 <= k <= terms.len(),
        resolve(terms.take(k), names) is Err,
    ensures
        resolve(terms, names) == resolve(terms.take(k), names),
    decreases terms.len() - k,
{
    if k == terms.len() {
        assert(terms.take(k) =~= terms);
    } else {
        assert(terms.take(k + 1).drop_last() =~= terms.take(k));
        lemma_resolve_fails(terms, names, k + 1);
    }
}

/// Where building a part of the reactions fails, building all of them
/// fails in the same way.
pub proof fn lemma_build_fails(texts: Seq<ReactionText>, names: Seq<Seq<char>>, k: int)
    requires
        0 <= k <= texts.len(),
        build(texts.take(k), names) is Err,
    ensures
        build(texts, names) == build(texts.take(k), names),
    decreases texts.len() - k,
{
    if k == texts.len() {
        assert(texts.take(k) =~= texts);
    } else {
        assert(texts.take(k + 1).drop_last() =~= texts.take(k));
        lemma_build_fails(texts, names, k + 1);
    }
}

/// The species that the declarations declare, in their order, or the first
/// failure: a name declared before, or a literal that the abundance cannot
/// take.
pub open spec fn declare<T: Abundance>(decls: Seq<Declaration>) -> Result<
    Network<T::V>,
    ParseFailure,
>
    decreases decls.len(),
{
    if decls.len() == 0 {
        Ok(Network { names: Seq::empty(), species: Seq::empty(), rxns: Seq::empty() })
    } else {
        match declare::<T>(decls.drop_last()) {
            Err(e) => Err(e),
            Ok(n) => {
                let d = decls.last();
                if position(n.names, d.name) is Some {
                    Err(ParseFailure::DuplicateDefinition(d.name))
                } else {
                    match T::of_literal(d.value) {
                        None => Err(ParseFailure::MalformedInput(d.value_at)),
                        Some(v) => Ok(
                            Network {
                                names: n.names.push(d.name),
                                species: n.species.push(v),
                                rxns: n.rxns,
                            },
                        ),
                    }
                }
            },
        }
    }
}

/// One side of a reaction, resolved: the names known so far and the
/// coefficient of each species that the side names.
pub struct Side {
    pub names: Seq<Seq<char>>,
    pub counts: Map<usize, i32>,
}

/// Resolves the terms of a side in their order. A name not known yet gets
/// the next free index. Where a species stands twice, its last coefficient
/// counts. Fails at the first coefficient that does not fit.
pub open spec fn resolve(terms: Seq<Term>, names: Seq<Seq<char>>) -> Result<Side, ParseFailure>
    decreases terms.len(),
{
    if terms.len() == 0 {
        Ok(Side { names, counts: Map::empty() })
    } else {
        match resolve(terms.drop_last(), names) {
            Err(e) => Err(e),
            Ok(side) => {
                let t = terms.last();
                match count_value(t.count) {
                    None => Err(ParseFailure::MalformedInput(t.count_at)),
                    Some(n) => match position(side.names, t.name) {
                        Some(i) => Ok(
                            Side { names: side.names, counts: side.counts.insert(i as usize, n) },
                        ),
                        None => Ok(
                            Side {
                                names: side.names.push(t.name),
                                counts: side.counts.insert(side.names.len() as usize, n),
                            },
                        ),
                    },
                }
            },
        }
    }
}

/// The rate constant of a reaction that gives none.
pub open spec fn default_rate() -> Seq<char> {
    seq!['1']
}

/// The reactions of a text, resolved, and the names known behind the last
/// of them.
pub struct Built {
    pub names: Seq<Seq<char>>,
    pub rxns: Seq<ReactionModel>,
}

/// The reactions in their order, each resolved against the names known
/// when it starts.
pub open spec fn build(texts: Seq<ReactionText>, names: Seq<Seq<char>>) -> Result<
    Built,
    ParseFailure,
>
    decreases texts.len(),
{
    if texts.len() == 0 {
        Ok(Built { names, rxns: Seq::empty() })
    } else {
        match build(texts.drop_last(), names) {
            Err(e) => Err(e),
            Ok(n) => {
                let t = texts.last();
                match resolve(t.reactants, n.names) {
                    Err(e) => Err(e),
                    Ok(lhs) => match resolve(t.products, lhs.names) {
                        Err(e) => Err(e),
                        Ok(rhs) => Ok(
                            Built {
                                names: rhs.names,
                                rxns: n.rxns.push(
                                    ReactionModel {
                                        reactants: lhs.counts,
                                        products: rhs.counts,
                                        rate: match t.rate {
                                            Some(r) => r,
                                            None => default_rate(),
                                        },
                                    },
                                ),
                            },
                        ),
                    },
                }
            },
        }
    }
}

/// The network that a text describes, or why it describes none. The
/// declarations are taken first, then the reactions; what is left over must
/// be blank.
pub open spec fn network_of<T: Abundance>(s: Seq<char>) -> Result<Network<T::V>, ParseFailure> {
    match declare::<T>(declarations(s, 0)) {
        Err(e) => Err(e),
        Ok(declared) => {
            let p = declarations_end(s, 0);
            match build(reactions(s, p), declared.names) {
                Err(e) => Err(e),
                Ok(built) => {
                    let q = spaces_end(s, reactions_end(s, p));
                    if q < s.len() {
                        Err(ParseFailure::MalformedInput(q))
                    } else {
                        Ok(
                            Network {
                                names: built.names,
                                species: declared.species + Seq::new(
                                    (built.names.len() - declared.names.len()) as nat,
                                    |i: int| T::zero_value(),
                                ),
                                rxns: built.rxns,
                            },
                        )
                    }
                },
            }
        },
    }
}

} // verus!
