//! Reading a network from its text.

use crate::crn::Crn;
use crate::grammar::{
    build, declaration_at, declarations, declarations_end, declare, distinct, lemma_build_fails,
    lemma_declare_fails, lemma_position, lemma_resolve_fails, more_terms, more_terms_end,
    network_of, position, reaction_at, reactions, reactions_end, resolve, side_at, side_end,
    term_at, Declaration, ParseFailure, ReactionText, Term,
};
use crate::integer::{all_digits, read_count};
use crate::lex::{lemma_digits_end, skip_digits, skip_spaces, skip_word};
use crate::names::{name_table, names_get_by_right, names_insert, names_new, table_of};
use crate::number::{chars_of, is_number, lemma_number_slice, skip_number, Abundance, Number};
use crate::reaction::{Reaction, ReactionModel};
use crate::roundtrip::{lemma_read_is_printable, printable};
use crate::state::{in_range, State};
use bimap::BiHashMap;
use std::collections::HashMap;
use vstd::prelude::*;
use vstd::string::*;

verus! {

/// Errors that can occur while parsing a network.
#[derive(Debug, PartialEq, Eq)]
pub enum ParseError {
    /// The abundance of this species was declared twice.
    DuplicateDefinition(String),
    /// The text does not follow the grammar, or holds a number that cannot
    /// be taken, from this position on (counted in characters).
    MalformedInput(usize),
}

impl View for ParseError {
    type V = ParseFailure;

    open spec fn view(&self) -> ParseFailure {
        match self {
            ParseError::DuplicateDefinition(name) => ParseFailure::DuplicateDefinition(name@),
            ParseError::MalformedInput(at) => ParseFailure::MalformedInput(*at as int),
        }
    }
}

impl Clone for ParseError {
    fn clone(&self) -> (r: Self)
        ensures
            r@ == self@,
    {
        match self {
            ParseError::DuplicateDefinition(name) => ParseError::DuplicateDefinition(name.clone()),
            ParseError::MalformedInput(at) => ParseError::MalformedInput(*at),
        }
    }
}

/// Where a declaration stands in the text.
struct DeclarationSpan {
    name_from: usize,
    name_to: usize,
    value_from: usize,
    value_to: usize,
    end: usize,
}

impl DeclarationSpan {
    /// The declaration that stands there in `s`.
    spec fn of(self, s: Seq<char>) -> Declaration {
        Declaration {
            name: s.subrange(self.name_from as int, self.name_to as int),
            value: s.subrange(self.value_from as int, self.value_to as int),
            value_at: self.value_from as int,
            end: self.end as int,
        }
    }

    /// The parts stand in `s` in their order, and the value is a literal.
    spec fn ok(self, s: Seq<char>) -> bool {
        &&& self.name_from < self.name_to <= self.value_from < self.value_to < self.end <= s.len()
        &&& is_number(s.subrange(self.value_from as int, self.value_to as int))
    }
}

/// Where a term stands in the text.
struct TermSpan {
    count_from: usize,
    count_to: usize,
    name_from: usize,
    name_to: usize,
}

impl TermSpan {
    /// The term that stands there in `s`.
    spec fn of(self, s: Seq<char>) -> Term {
        Term {
            count: s.subrange(self.count_from as int, self.count_to as int),
            count_at: self.count_from as int,
            name: s.subrange(self.name_from as int, self.name_to as int),
            end: self.name_to as int,
        }
    }

    /// The parts stand in `s` in their order, and the coefficient is
    /// written in digits.
    spec fn ok(self, s: Seq<char>) -> bool {
        &&& self.count_from <= self.count_to <= self.name_from < self.name_to <= s.len()
        &&& all_digits(s.subrange(self.count_from as int, self.count_to as int))
    }
}

/// Where a reaction stands in the text.
struct ReactionSpan {
    reactants: Vec<TermSpan>,
    products: Vec<TermSpan>,
    rate: Option<(usize, usize)>,
    end: usize,
}

impl ReactionSpan {
    /// The reaction that stands there in `s`.
    spec fn of(self, s: Seq<char>) -> ReactionText {
        ReactionText {
            reactants: terms_of(self.reactants@, s),
            products: terms_of(self.products@, s),
            rate: match self.rate {
                Some(r) => Some(s.subrange(r.0 as int, r.1 as int)),
                None => None,
            },
            end: self.end as int,
        }
    }

    /// The terms of both sides are in order, and the rate constant, if
    /// there is one, is a literal.
    spec fn ok(self, s: Seq<char>) -> bool {
        &&& forall|i: int| 0 <= i < self.reactants@.len() ==> (#[trigger] self.reactants@[i]).ok(s)
        &&& forall|i: int| 0 <= i < self.products@.len() ==> (#[trigger] self.products@[i]).ok(s)
        &&& match self.rate {
            Some(r) => r.0 <= r.1 <= s.len() && is_number(s.subrange(r.0 as int, r.1 as int)),
            None => true,
        }
    }
}

/// The declarations that stand at the spans.
spec fn declarations_of(spans: Seq<DeclarationSpan>, s: Seq<char>) -> Seq<Declaration> {
    spans.map_values(|d: DeclarationSpan| d.of(s))
}

/// The terms that stand at the spans.
spec fn terms_of(spans: Seq<TermSpan>, s: Seq<char>) -> Seq<Term> {
    spans.map_values(|t: TermSpan| t.of(s))
}

/// The reactions that stand at the spans.
spec fn reactions_of(spans: Seq<ReactionSpan>, s: Seq<char>) -> Seq<ReactionText> {
    spans.map_values(|r: ReactionSpan| r.of(s))
}

/// Reads the declaration that starts at `from`.
fn read_declaration(input: &str, text: &[char], from: usize) -> (r: Option<DeclarationSpan>)
    requires
        text@ == input@,
        from <= text@.len(),
    ensures
        match r {
            Some(d) => declaration_at(text@, from as int) == Some(d.of(text@)) && d.ok(text@)
                && from < d.end,
            None => declaration_at(text@, from as int) is None,
        },
{
    let n = text.len();
    let a = skip_spaces(text, from);
    let b = match skip_word(text, a) {
        None => {
            return None;
        },
        Some(b) => b,
    };
    let c = skip_spaces(text, b);
    if !(c < n && text[c] == '=') {
        return None;
    }
    let d = skip_spaces(text, c + 1);
    let e = match skip_number(input, d) {
        None => {
            return None;
        },
        Some(e) => e,
    };
    let f = skip_spaces(text, e);
    if f < n && text[f] == ';' {
        proof {
            lemma_number_slice(text@, d as int);
        }
        Some(DeclarationSpan { name_from: a, name_to: b, value_from: d, value_to: e, end: f + 1 })
    } else {
        None
    }
}

/// Reads the declarations that follow one another from `from` on.
fn read_declarations(input: &str, text: &[char], from: usize) -> (r: (
    Vec<DeclarationSpan>,
    usize,
))
    requires
        text@ == input@,
        from <= text@.len(),
    ensures
        declarations_of(r.0@, text@) == declarations(text@, from as int),
        r.1 == declarations_end(text@, from as int),
        from <= r.1 <= text@.len(),
        forall|i: int| 0 <= i < r.0@.len() ==> (#[trigger] r.0@[i]).ok(text@),
{
    let mut out: Vec<DeclarationSpan> = Vec::new();
    let mut at: usize = from;
    proof {
        assert(declarations_of(out@, text@) + declarations(text@, at as int) =~= declarations(
            text@,
            from as int,
        ));
    }
    loop
        invariant
            text@ == input@,
            from <= at <= text@.len(),
            declarations(text@, from as int) == declarations_of(out@, text@) + declarations(
                text@,
                at as int,
            ),
            declarations_end(text@, from as int) == declarations_end(text@, at as int),
            forall|i: int| 0 <= i < out@.len() ==> (#[trigger] out@[i]).ok(text@),
        decreases text@.len() - at,
    {
        match read_declaration(input, text, at) {
            None => {
                proof {
                    assert(declarations_of(out@, text@) + Seq::<Declaration>::empty()
                        =~= declarations_of(out@, text@));
                }
                return (out, at);
            },
            Some(d) => {
                proof {
                    let before = declarations_of(out@, text@);
                    let rest = declarations(text@, d.end as int);
                    assert(declarations_of(out@.push(d), text@) =~= before.push(d.of(text@)));
                    assert(before + (seq![d.of(text@)] + rest) =~= before.push(d.of(text@)) + rest);
                }
                at = d.end;
                out.push(d);
            },
        }
    }
}

/// Reads the term that starts at `from`.
fn read_term(text: &[char], from: usize) -> (r: Option<TermSpan>)
    requires
        from <= text@.len(),
    ensures
        match r {
            Some(t) => term_at(text@, from as int) == Some(t.of(text@)) && t.ok(text@) && from
                < t.name_to,
            None => term_at(text@, from as int) is None,
        },
{
    let a = skip_spaces(text, from);
    let b = skip_digits(text, a);
    let c = skip_spaces(text, b);
    match skip_word(text, c) {
        None => None,
        Some(d) => {
            proof {
                lemma_digits_end(text@, a as int);
                let run = text@.subrange(a as int, b as int);
                assert forall|i: int| 0 <= i < run.len() implies crate::lex::is_digit(
                    #[trigger] run[i],
                ) by {
                    assert(run[i] == text@[a + i]);
                }
            }
            Some(TermSpan { count_from: a, count_to: b, name_from: c, name_to: d })
        },
    }
}

/// Reads the side of a reaction that starts at `from`.
fn read_side(text: &[char], from: usize) -> (r: (Vec<TermSpan>, usize))
    requires
        from <= text@.len(),
    ensures
        terms_of(r.0@, text@) == side_at(text@, from as int),
        r.1 == side_end(text@, from as int),
        from <= r.1 <= text@.len(),
        forall|i: int| 0 <= i < r.0@.len() ==> (#[trigger] r.0@[i]).ok(text@),
{
    let n = text.len();
    let mut out: Vec<TermSpan> = Vec::new();
    let first = match read_term(text, from) {
        None => {
            proof {
                assert(terms_of(out@, text@) =~= side_at(text@, from as int));
            }
            return (out, from);
        },
        Some(t) => t,
    };
    let mut at: usize = first.name_to;
    proof {
        assert(terms_of(out@.push(first), text@) =~= seq![first.of(text@)]);
    }
    out.push(first);
    loop
        invariant
            n == text@.len(),
            from <= at <= text@.len(),
            side_at(text@, from as int) == terms_of(out@, text@) + more_terms(text@, at as int),
            side_end(text@, from as int) == more_terms_end(text@, at as int),
            forall|i: int| 0 <= i < out@.len() ==> (#[trigger] out@[i]).ok(text@),
        decreases text@.len() - at,
    {
        let a = skip_spaces(text, at);
        if !(a < n && text[a] == '+') {
            proof {
                assert(terms_of(out@, text@) + Seq::<Term>::empty() =~= terms_of(out@, text@));
            }
            return (out, at);
        }
        match read_term(text, a + 1) {
            None => {
                proof {
                    assert(terms_of(out@, text@) + Seq::<Term>::empty() =~= terms_of(out@, text@));
                }
                return (out, at);
            },
            Some(t) => {
                proof {
                    let before = terms_of(out@, text@);
                    let rest = more_terms(text@, t.name_to as int);
                    assert(terms_of(out@.push(t), text@) =~= before.push(t.of(text@)));
                    assert(before + (seq![t.of(text@)] + rest) =~= before.push(t.of(text@)) + rest);
                }
                at = t.name_to;
                out.push(t);
            },
        }
    }
}

/// Reads the reaction that starts at `from`.
fn read_reaction(input: &str, text: &[char], from: usize) -> (r: Option<ReactionSpan>)
    requires
        text@ == input@,
        from <= text@.len(),
    ensures
        match r {
            Some(x) => reaction_at(text@, from as int) == Some(x.of(text@)) && x.ok(text@) && from
                < x.end <= text@.len(),
            None => reaction_at(text@, from as int) is None,
        },
{
    let n = text.len();
    let (reactants, lhs_end) = read_side(text, from);
    let a = skip_spaces(text, lhs_end);
    if !(a < n && text[a] == '-' && a + 1 < n && text[a + 1] == '>') {
        return None;
    }
    let (products, rhs_end) = read_side(text, a + 2);
    let b = skip_spaces(text, rhs_end);
    if b < n && text[b] == ':' {
        let c = skip_spaces(text, b + 1);
        match skip_number(input, c) {
            None => None,
            Some(d) => {
                let e = skip_spaces(text, d);
                if e < n && text[e] == ';' {
                    proof {
                        lemma_number_slice(text@, c as int);
                    }
                    Some(ReactionSpan { reactants, products, rate: Some((c, d)), end: e + 1 })
                } else {
                    None
                }
            },
        }
    } else if b < n && text[b] == ';' {
        Some(ReactionSpan { reactants, products, rate: None, end: b + 1 })
    } else {
        None
    }
}

/// Reads the reactions that follow one another from `from` on.
fn read_reactions(input: &str, text: &[char], from: usize) -> (r: (Vec<ReactionSpan>, usize))
    requires
        text@ == input@,
        from <= text@.len(),
    ensures
        reactions_of(r.0@, text@) == reactions(text@, from as int),
        r.1 == reactions_end(text@, from as int),
        from <= r.1 <= text@.len(),
        forall|i: int| 0 <= i < r.0@.len() ==> (#[trigger] r.0@[i]).ok(text@),
{
    let mut out: Vec<ReactionSpan> = Vec::new();
    let mut at: usize = from;
    proof {
        assert(reactions_of(out@, text@) + reactions(text@, at as int) =~= reactions(
            text@,
            from as int,
        ));
    }
    loop
        invariant
            text@ == input@,
            from <= at <= text@.len(),
            reactions(text@, from as int) == reactions_of(out@, text@) + reactions(
                text@,
                at as int,
            ),
            reactions_end(text@, from as int) == reactions_end(text@, at as int),
            forall|i: int| 0 <= i < out@.len() ==> (#[trigger] out@[i]).ok(text@),
        decreases text@.len() - at,
    {
        match read_reaction(input, text, at) {
            None => {
                proof {
                    assert(reactions_of(out@, text@) + Seq::<ReactionText>::empty()
                        =~= reactions_of(out@, text@));
                }
                return (out, at);
            },
            Some(x) => {
                proof {
                    let before = reactions_of(out@, text@);
                    let rest = reactions(text@, x.end as int);
                    assert(reactions_of(out@.push(x), text@) =~= before.push(x.of(text@)));
                    assert(before + (seq![x.of(text@)] + rest) =~= before.push(x.of(text@)) + rest);
                }
                at = x.end;
                out.push(x);
            },
        }
    }
}

/// The abundances as plain values.
spec fn values_of<T: Abundance>(species: Seq<T>) -> Seq<T::V> {
    species.map_values(|x: T| x@)
}

/// `n` times the abundance of an undeclared species.
spec fn zeros<T: Abundance>(n: int) -> Seq<T::V> {
    Seq::new(n as nat, |i: int| T::zero_value())
}

/// Declares the species in the order of their declarations.
fn take_declarations<T: Abundance>(input: &str, text: &[char], decls: &Vec<DeclarationSpan>) -> (r:
    Result<(BiHashMap<usize, String>, Vec<T>), ParseError>)
    requires
        text@ == input@,
        forall|i: int| 0 <= i < decls@.len() ==> (#[trigger] decls@[i]).ok(text@),
    ensures
        match declare::<T>(declarations_of(decls@, text@)) {
            Ok(n) => r is Ok && table_of(name_table(r->Ok_0.0), n.names) && distinct(n.names)
                && values_of(r->Ok_0.1@) == n.species && n.names.len() == n.species.len(),
            Err(e) => r is Err && r->Err_0@ == e,
        },
{
    let ghost all = declarations_of(decls@, text@);
    let mut names = names_new();
    let mut species: Vec<T> = Vec::new();
    let mut i: usize = 0;
    proof {
        assert(all.take(0) =~= Seq::<Declaration>::empty());
        assert(values_of(species@) =~= Seq::<T::V>::empty());
    }
    while i < decls.len()
        invariant
            0 <= i <= decls@.len(),
            text@ == input@,
            all == declarations_of(decls@, text@),
            forall|j: int| 0 <= j < decls@.len() ==> (#[trigger] decls@[j]).ok(text@),
            declare::<T>(all.take(i as int)) is Ok,
            table_of(name_table(names), declare::<T>(all.take(i as int))->Ok_0.names),
            distinct(declare::<T>(all.take(i as int))->Ok_0.names),
            values_of(species@) == declare::<T>(all.take(i as int))->Ok_0.species,
            species@.len() == declare::<T>(all.take(i as int))->Ok_0.names.len(),
        decreases decls@.len() - i,
    {
        let d = &decls[i];
        let ghost so_far = declare::<T>(all.take(i as int))->Ok_0;
        let ghost known = so_far.names;
        let name = input.substring_char(d.name_from, d.name_to);
        let value = input.substring_char(d.value_from, d.value_to);
        let index = species.len();
        proof {
            assert(decls@[i as int].ok(text@));
            assert(all.take(i + 1).drop_last() =~= all.take(i as int));
            assert(all.take(i + 1).last() == d.of(text@));
            lemma_position(known, name@);
        }
        match names_get_by_right(&names, name) {
            Some(k) => {
                proof {
                    assert(known[k as int] == name@);
                    lemma_declare_fails::<T>(all, i + 1);
                }
                return Err(ParseError::DuplicateDefinition(String::from_str(name)));
            },
            None => {
                proof {
                    if position(known, name@) is Some {
                        let k = position(known, name@).unwrap();
                        assert(0 <= k < index);
                        assert(name_table(names).contains_key(k as usize));
                        assert(name_table(names)[k as usize] == known[k]);
                    }
                }
            },
        }
        match T::from_literal(value) {
            None => {
                proof {
                    lemma_declare_fails::<T>(all, i + 1);
                }
                return Err(ParseError::MalformedInput(d.value_from));
            },
            Some(v) => {
                let ghost table = name_table(names);
                names_insert(&mut names, index, String::from_str(name));
                species.push(v);
                proof {
                    let gone = Set::new(|k: usize| table.contains_key(k) && table[k] == name@);
                    assert(gone =~= Set::<usize>::empty()) by {
                        assert forall|k: usize| !gone.contains(k) by {
                            if table.contains_key(k) {
                                assert(known[k as int] != name@);
                            }
                        }
                    }
                    assert(table.remove_keys(gone) =~= table);
                    assert(name_table(names) == table.insert(index, name@));
                    let next = declare::<T>(all.take(i + 1))->Ok_0;
                    assert(next.names == known.push(name@));
                    assert(values_of(species@) =~= so_far.species.push(v@));
                }
            },
        }
        i += 1;
    }
    proof {
        assert(all.take(i as int) =~= all);
    }
    Ok((names, species))
}

/// The coefficients of a side name species of the network, and none is
/// negative.
pub open spec fn counts_ok(counts: Map<usize, i32>, n: nat) -> bool {
    forall|k: usize| #[trigger] counts.contains_key(k) ==> k < n && counts[k] >= 0
}

/// Resolves the terms of one side in their order, and adds to the network
/// each species that a term is the first to name.
fn take_side<T: Abundance>(
    input: &str,
    text: &[char],
    terms: &Vec<TermSpan>,
    names: &mut BiHashMap<usize, String>,
    species: &mut Vec<T>,
    Ghost(known): Ghost<Seq<Seq<char>>>,
) -> (r: Result<HashMap<usize, i32>, ParseError>)
    requires
        text@ == input@,
        forall|i: int| 0 <= i < terms@.len() ==> (#[trigger] terms@[i]).ok(text@),
        table_of(name_table(*old(names)), known),
        distinct(known),
        old(species)@.len() == known.len(),
    ensures
        match resolve(terms_of(terms@, text@), known) {
            Ok(side) => {
                &&& r is Ok
                &&& r->Ok_0@ == side.counts
                &&& counts_ok(side.counts, side.names.len())
                &&& table_of(name_table(*final(names)), side.names)
                &&& distinct(side.names)
                &&& known.len() <= side.names.len()
                &&& final(species)@.len() == side.names.len()
                &&& values_of(final(species)@) == values_of(old(species)@) + zeros::<T>(
                    side.names.len() - known.len(),
                )
            },
            Err(e) => r is Err && r->Err_0@ == e,
        },
{
    let ghost all = terms_of(terms@, text@);
    let ghost first = values_of(species@);
    let mut counts: HashMap<usize, i32> = HashMap::new();
    let mut i: usize = 0;
    proof {
        assert(all.take(0) =~= Seq::<Term>::empty());
        assert(first + zeros::<T>(0) =~= first);
    }
    while i < terms.len()
        invariant
            0 <= i <= terms@.len(),
            text@ == input@,
            all == terms_of(terms@, text@),
            first == values_of(old(species)@),
            forall|j: int| 0 <= j < terms@.len() ==> (#[trigger] terms@[j]).ok(text@),
            resolve(all.take(i as int), known) is Ok,
            counts@ == resolve(all.take(i as int), known)->Ok_0.counts,
            counts_ok(counts@, resolve(all.take(i as int), known)->Ok_0.names.len()),
            table_of(name_table(*names), resolve(all.take(i as int), known)->Ok_0.names),
            distinct(resolve(all.take(i as int), known)->Ok_0.names),
            known.len() <= resolve(all.take(i as int), known)->Ok_0.names.len(),
            species@.len() == resolve(all.take(i as int), known)->Ok_0.names.len(),
            values_of(species@) == first + zeros::<T>(
                resolve(all.take(i as int), known)->Ok_0.names.len() - known.len(),
            ),
        decreases terms@.len() - i,
    {
        let t = &terms[i];
        let ghost side = resolve(all.take(i as int), known)->Ok_0;
        let index = species.len();
        proof {
            assert(terms@[i as int].ok(text@));
            assert(all.take(i + 1).drop_last() =~= all.take(i as int));
            assert(all.take(i + 1).last() == t.of(text@));
        }
        let count = match read_count(text, t.count_from, t.count_to) {
            None => {
                proof {
                    lemma_resolve_fails(all, known, i + 1);
                }
                return Err(ParseError::MalformedInput(t.count_from));
            },
            Some(n) => n,
        };
        let name = input.substring_char(t.name_from, t.name_to);
        proof {
            lemma_position(side.names, name@);
            crate::integer::lemma_digits_value_nonnegative(
                text@.subrange(t.count_from as int, t.count_to as int),
            );
        }
        match names_get_by_right(names, name) {
            Some(k) => {
                proof {
                    assert(side.names[k as int] == name@);
                    if position(side.names, name@) is Some {
                        let p = position(side.names, name@).unwrap();
                        if p < k {
                            assert(side.names[p] != side.names[k as int]);
                        } else if k < p {
                            assert(side.names[k as int] != side.names[p]);
                        }
                    }
                }
                let ghost old_counts = counts@;
                counts.insert(k, count);
                proof {
                    assert forall|j: usize| #[trigger] counts@.contains_key(j) implies j
                        < side.names.len() && counts@[j] >= 0 by {
                        if j != k {
                            assert(old_counts.contains_key(j));
                            assert(old_counts[j] >= 0);
                        }
                    }
                }
            },
            None => {
                proof {
                    if position(side.names, name@) is Some {
                        let p = position(side.names, name@).unwrap();
                        assert(0 <= p < index);
                        assert(name_table(*names).contains_key(p as usize));
                        assert(name_table(*names)[p as usize] == side.names[p]);
                    }
                }
                let ghost table = name_table(*names);
                let ghost before = values_of(species@);
                names_insert(names, index, String::from_str(name));
                species.push(T::zero());
                let ghost old_counts = counts@;
                counts.insert(index, count);
                proof {
                    assert forall|j: usize| #[trigger] counts@.contains_key(j) implies j
                        < side.names.len() + 1 && counts@[j] >= 0 by {
                        if j != index {
                            assert(old_counts.contains_key(j));
                            assert(old_counts[j] >= 0);
                        }
                    }
                    let gone = Set::new(|k: usize| table.contains_key(k) && table[k] == name@);
                    assert(gone =~= Set::<usize>::empty()) by {
                        assert forall|k: usize| !gone.contains(k) by {
                            if table.contains_key(k) {
                                assert(side.names[k as int] != name@);
                            }
                        }
                    }
                    assert(table.remove_keys(gone) =~= table);
                    assert(name_table(*names) == table.insert(index, name@));
                    let width = side.names.len() - known.len();
                    assert(values_of(species@) =~= before.push(T::zero_value()));
                    assert((first + zeros::<T>(width)).push(T::zero_value()) =~= first + zeros::<T>(
                        width + 1,
                    ));
                }
            },
        }
        i += 1;
    }
    proof {
        assert(all.take(i as int) =~= all);
    }
    Ok(counts)
}

/// The reactions as plain values.
spec fn models_of(rxns: Seq<Reaction>) -> Seq<ReactionModel> {
    rxns.map_values(|r: Reaction| r@)
}

/// Every reaction holds the net change of its sides and names species of
/// the network only.
spec fn reactions_ok(rxns: Seq<Reaction>, n: nat) -> bool {
    forall|i: int|
        0 <= i < rxns.len() ==> {
            &&& (#[trigger] rxns[i]).wf()
            &&& in_range(rxns[i].reactants@, n)
            &&& in_range(rxns[i].products@, n)
        }
}

/// Resolves the reactions in their order.
fn take_reactions<T: Abundance>(
    input: &str,
    text: &[char],
    spans: &Vec<ReactionSpan>,
    names: &mut BiHashMap<usize, String>,
    species: &mut Vec<T>,
    Ghost(known): Ghost<Seq<Seq<char>>>,
) -> (r: Result<Vec<Reaction>, ParseError>)
    requires
        text@ == input@,
        forall|i: int| 0 <= i < spans@.len() ==> (#[trigger] spans@[i]).ok(text@),
        table_of(name_table(*old(names)), known),
        distinct(known),
        old(species)@.len() == known.len(),
    ensures
        match build(reactions_of(spans@, text@), known) {
            Ok(built) => {
                &&& r is Ok
                &&& models_of(r->Ok_0@) == built.rxns
                &&& reactions_ok(r->Ok_0@, built.names.len())
                &&& table_of(name_table(*final(names)), built.names)
                &&& distinct(built.names)
                &&& known.len() <= built.names.len()
                &&& final(species)@.len() == built.names.len()
                &&& values_of(final(species)@) == values_of(old(species)@) + zeros::<T>(
                    built.names.len() - known.len(),
                )
            },
            Err(e) => r is Err && r->Err_0@ == e,
        },
{
    let ghost all = reactions_of(spans@, text@);
    let ghost first = values_of(species@);
    let mut out: Vec<Reaction> = Vec::new();
    let mut i: usize = 0;
    proof {
        assert(all.take(0) =~= Seq::<ReactionText>::empty());
        assert(first + zeros::<T>(0) =~= first);
        assert(models_of(out@) =~= Seq::<ReactionModel>::empty());
    }
    while i < spans.len()
        invariant
            0 <= i <= spans@.len(),
            text@ == input@,
            all == reactions_of(spans@, text@),
            first == values_of(old(species)@),
            forall|j: int| 0 <= j < spans@.len() ==> (#[trigger] spans@[j]).ok(text@),
            build(all.take(i as int), known) is Ok,
            models_of(out@) == build(all.take(i as int), known)->Ok_0.rxns,
            reactions_ok(out@, build(all.take(i as int), known)->Ok_0.names.len()),
            table_of(name_table(*names), build(all.take(i as int), known)->Ok_0.names),
            distinct(build(all.take(i as int), known)->Ok_0.names),
            known.len() <= build(all.take(i as int), known)->Ok_0.names.len(),
            species@.len() == build(all.take(i as int), known)->Ok_0.names.len(),
            values_of(species@) == first + zeros::<T>(
                build(all.take(i as int), known)->Ok_0.names.len() - known.len(),
            ),
        decreases spans@.len() - i,
    {
        let x = &spans[i];
        let ghost built = build(all.take(i as int), known)->Ok_0;
        proof {
            assert(spans@[i as int].ok(text@));
            assert(all.take(i + 1).drop_last() =~= all.take(i as int));
            assert(all.take(i + 1).last() == x.of(text@));
        }
        let reactants = match take_side::<T>(
            input,
            text,
            &x.reactants,
            names,
            species,
            Ghost(built.names),
        ) {
            Err(e) => {
                proof {
                    lemma_build_fails(all, known, i + 1);
                }
                return Err(e);
            },
            Ok(counts) => counts,
        };
        let ghost lhs = resolve(x.of(text@).reactants, built.names)->Ok_0;
        let products = match take_side::<T>(
            input,
            text,
            &x.products,
            names,
            species,
            Ghost(lhs.names),
        ) {
            Err(e) => {
                proof {
                    lemma_build_fails(all, known, i + 1);
                }
                return Err(e);
            },
            Ok(counts) => counts,
        };
        let ghost rhs = resolve(x.of(text@).products, lhs.names)->Ok_0;
        let rate = match x.rate {
            Some((from, to)) => Number::of(input.substring_char(from, to)),
            None => Number::one(),
        };
        let rxn = Reaction::new(reactants, products, rate);
        proof {
            let a = built.names.len() - known.len();
            let b = lhs.names.len() - built.names.len();
            let c = rhs.names.len() - lhs.names.len();
            assert((first + zeros::<T>(a)) + zeros::<T>(b) + zeros::<T>(c) =~= first + zeros::<T>(
                a + b + c,
            ));
            assert(models_of(out@.push(rxn)) =~= models_of(out@).push(rxn@));
            assert forall|j: int| 0 <= j < out@.push(rxn).len() implies {
                &&& (#[trigger] out@.push(rxn)[j]).wf()
                &&& in_range(out@.push(rxn)[j].reactants@, rhs.names.len())
                &&& in_range(out@.push(rxn)[j].products@, rhs.names.len())
            } by {
                if j < out@.len() {
                    assert(out@[j].wf());
                    assert(out@.push(rxn)[j] == out@[j]);
                    assert(in_range(out@[j].reactants@, built.names.len()));
                    assert(in_range(out@[j].products@, built.names.len()));
                } else {
                    assert(out@.push(rxn)[j] == rxn);
                    assert(in_range(rxn.reactants@, rhs.names.len())) by {
                        assert forall|s: usize| #[trigger]
                            rxn.reactants@.contains_key(s) implies s < rhs.names.len() by {
                        }
                    }
                    assert(in_range(rxn.products@, rhs.names.len())) by {
                        assert forall|s: usize| #[trigger]
                            rxn.products@.contains_key(s) implies s < rhs.names.len() by {
                        }
                    }
                }
            }
        }
        out.push(rxn);
        i += 1;
    }
    proof {
        assert(all.take(i as int) =~= all);
    }
    Ok(out)
}

impl<T: Abundance> Crn<T> {
    /// Reads a network from its text. The declarations give the species
    /// their indices, in their order; a species that only a reaction names
    /// follows them, with the abundance zero. Both states of the network
    /// hold the abundances read, at time 0.
    pub fn parse(input: &str) -> (r: Result<Crn<T>, ParseError>)
        ensures
            match network_of::<T>(input@) {
                Ok(n) => {
                    &&& r is Ok
                    &&& r->Ok_0.wf()
                    &&& table_of(name_table(r->Ok_0.names), n.names)
                    &&& r->Ok_0.network() == n
                    &&& r->Ok_0.state@ == r->Ok_0.init_state@
                    &&& r->Ok_0.state.time == 0
                    &&& printable::<T>(n)
                },
                Err(e) => r is Err && r->Err_0@ == e,
            },
    {
        let chars = chars_of(input);
        let text = chars.as_slice();
        let (decls, p) = read_declarations(input, text, 0);
        let (mut names, mut species) = match take_declarations::<T>(input, text, &decls) {
            Err(e) => {
                return Err(e);
            },
            Ok(pair) => pair,
        };
        let ghost declared = declare::<T>(declarations(text@, 0))->Ok_0;
        let (spans, behind) = read_reactions(input, text, p);
        let rxns = match take_reactions::<T>(
            input,
            text,
            &spans,
            &mut names,
            &mut species,
            Ghost(declared.names),
        ) {
            Err(e) => {
                return Err(e);
            },
            Ok(rxns) => rxns,
        };
        let ghost built = build(reactions(text@, p as int), declared.names)->Ok_0;
        let q = skip_spaces(text, behind);
        if q < text.len() {
            return Err(ParseError::MalformedInput(q));
        }
        let count = species.len();
        let state = State { species, time: 0 };
        let init_state = state.clone();
        let crn = Crn { rxns, state, init_state, names };
        proof {
            let n = network_of::<T>(input@)->Ok_0;
            assert(crn.init_state@.species.len() == crn.init_state.species@.len());
            assert(crn.state@.species.len() == crn.state.species@.len());
            assert(crn.count() == built.names.len());
            assert forall|i: int| 0 <= i < built.names.len() implies crn.names_seq()[i]
                == built.names[i] by {
                assert(name_table(crn.names)[i as usize] == built.names[i as usize as int]);
            }
            assert(crn.names_seq() =~= built.names);
            assert(crn.reactions() =~= built.rxns);
            lemma_read_is_printable::<T>(input@);
        }
        Ok(crn)
    }
}

} // verus!
