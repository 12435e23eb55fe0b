//! Writing a network and reading the text again gives the network back.

use crate::grammar::{
    build, declaration_at, declarations, declarations_end, declare, default_rate, distinct,
    lemma_position, more_terms, more_terms_end, network_of, position, reaction_at, reactions,
    reactions_end, resolve, side_at, side_end, stands_at, term_at, Built, Declaration, Network,
    ParseFailure, ReactionText, Side, Term,
};
use crate::integer::{all_digits, count_value, integer_text, is_sign, lemma_natural_text};
use crate::lex::{
    digits_end, is_digit, is_letter, is_space, is_word, is_word_char, lemma_digits_end,
    lemma_digits_run, lemma_spaces_end, lemma_spaces_run, lemma_word_chars_run, spaces_end,
    word_end,
};
use crate::number::{is_number, mantissa_end, number_end, Abundance};
use crate::reaction::ReactionModel;
use crate::text::{
    declaration_line, declaration_lines, entries_below, lemma_entries_below, network_text,
    plus_text, reaction_line, reaction_lines, side_text, term_text,
};
use vstd::prelude::*;

verus! {

/// The text `t` stands in `s` at `i`.
spec fn starts_at(s: Seq<char>, i: int, t: Seq<char>) -> bool {
    &&& 0 <= i
    &&& i + t.len() <= s.len()
    &&& forall|k: int| 0 <= k < t.len() ==> s[i + k] == #[trigger] t[k]
}

/// Two texts in a row stand at `i` where the first stands at `i` and the
/// second right behind it.
proof fn lemma_starts_at_concat(s: Seq<char>, i: int, a: Seq<char>, b: Seq<char>)
    ensures
        starts_at(s, i, a + b) <==> starts_at(s, i, a) && starts_at(s, i + a.len(), b),
{
    let ab = a + b;
    if starts_at(s, i, ab) {
        assert forall|k: int| 0 <= k < a.len() implies s[i + k] == #[trigger] a[k] by {
            assert(ab[k] == a[k]);
        }
        assert forall|k: int| 0 <= k < b.len() implies s[i + a.len() + k] == #[trigger] b[k] by {
            assert(ab[a.len() + k] == b[k]);
        }
    }
    if starts_at(s, i, a) && starts_at(s, i + a.len(), b) {
        assert forall|k: int| 0 <= k < ab.len() implies s[i + k] == #[trigger] ab[k] by {
            if k < a.len() {
                assert(ab[k] == a[k]);
            } else {
                assert(ab[k] == b[k - a.len()]);
            }
        }
    }
}

/// The character at `i` ends a token: the text ends there, or a character
/// stands there that no name and no number goes on with.
spec fn token_ends(s: Seq<char>, i: int) -> bool {
    i == s.len() || (0 <= i < s.len() && !is_word_char(s[i]) && s[i] != '.')
}

/// No blank stands at `i`.
proof fn lemma_no_blank(s: Seq<char>, i: int)
    requires
        i == s.len() || (0 <= i < s.len() && !is_space(s[i])),
    ensures
        spaces_end(s, i) == i,
{
}

/// One blank stands at `i`, and none behind it.
proof fn lemma_one_blank(s: Seq<char>, i: int)
    requires
        0 <= i < s.len(),
        is_space(s[i]),
        i + 1 == s.len() || !is_space(s[i + 1]),
    ensures
        spaces_end(s, i) == i + 1,
{
    lemma_no_blank(s, i + 1);
}

/// Blanks from `i` up to `j`, and none at `j`.
proof fn lemma_blanks(s: Seq<char>, i: int, j: int)
    requires
        0 <= i <= j <= s.len(),
        forall|k: int| i <= k < j ==> is_space(#[trigger] s[k]),
        j == s.len() || !is_space(s[j]),
    ensures
        spaces_end(s, i) == j,
{
    lemma_spaces_run(s, i, j);
}

/// A name that stands at `i`, with the end of a token behind it, is the
/// name that is read at `i`.
proof fn lemma_word_at(s: Seq<char>, i: int, w: Seq<char>)
    requires
        starts_at(s, i, w),
        is_word(w),
        token_ends(s, i + w.len()),
    ensures
        word_end(s, i) == Some(i + w.len()),
        s.subrange(i, i + w.len()) == w,
        !is_space(s[i]),
        !is_digit(s[i]),
{
    assert(s[i + 0] == w[0]);
    assert forall|j: int| i + 1 <= j < i + w.len() implies is_word_char(#[trigger] s[j]) by {
        assert(s[i + (j - i)] == w[j - i]);
    }
    lemma_word_chars_run(s, i + 1, i + w.len());
    assert(s.subrange(i, i + w.len()) =~= w);
}

/// Digits that stand at `i`, with no digit behind them, are the digits
/// that are read at `i`.
proof fn lemma_digits_at(s: Seq<char>, i: int, d: Seq<char>)
    requires
        starts_at(s, i, d),
        all_digits(d),
        i + d.len() == s.len() || !is_digit(s[i + d.len()]),
    ensures
        digits_end(s, i) == i + d.len(),
        s.subrange(i, i + d.len()) == d,
{
    assert forall|j: int| i <= j < i + d.len() implies is_digit(#[trigger] s[j]) by {
        assert(s[i + (j - i)] == d[j - i]);
    }
    lemma_digits_run(s, i, i + d.len());
    assert(s.subrange(i, i + d.len()) =~= d);
}

/// A run of digits inside a text that stands at `i` ends in `s` where it
/// ends in the text, if no digit stands behind the text.
proof fn lemma_digits_end_at(s: Seq<char>, i: int, v: Seq<char>, p: int)
    requires
        starts_at(s, i, v),
        0 <= p <= v.len(),
        i + v.len() == s.len() || !is_digit(s[i + v.len()]),
    ensures
        digits_end(s, i + p) == i + digits_end(v, p),
    decreases v.len() - p,
{
    if p < v.len() {
        assert(s[i + p] == v[p]);
        if is_digit(v[p]) {
            lemma_digits_end_at(s, i, v, p + 1);
        }
    }
}

/// A numeric literal starts with a sign, a digit or a point.
proof fn lemma_number_start(v: Seq<char>)
    requires
        is_number(v),
    ensures
        v.len() > 0,
        is_sign(v[0]) || is_digit(v[0]) || v[0] == '.',
        !is_space(v[0]),
        !is_letter(v[0]),
{
    lemma_digits_end(v, 0);
    if v.len() > 0 {
        lemma_digits_end(v, 1);
    }
}

/// A literal that stands at `i`, with the end of a token behind it, is the
/// literal that is read at `i`.
proof fn lemma_number_at(s: Seq<char>, i: int, v: Seq<char>)
    requires
        starts_at(s, i, v),
        is_number(v),
        token_ends(s, i + v.len()),
    ensures
        number_end(s, i) == Some(i + v.len()),
        s.subrange(i, i + v.len()) == v,
{
    lemma_number_start(v);
    crate::number::lemma_number_end(v, 0);
    let n = v.len() as int;
    assert(s[i + 0] == v[0]);
    let j = if is_sign(v[0]) {
        1int
    } else {
        0int
    };
    lemma_digits_end(v, j);
    let a = digits_end(v, j);
    lemma_digits_end_at(s, i, v, j);
    if a < n {
        lemma_digits_end(v, a + 1);
        lemma_digits_end_at(s, i, v, a + 1);
        assert(s[i + a] == v[a]);
    }
    if j < n {
        lemma_digits_end(v, j + 1);
        lemma_digits_end_at(s, i, v, j + 1);
        assert(s[i + j] == v[j]);
    }
    let m = mantissa_end(v, j).unwrap();
    assert(mantissa_end(s, i + j) == Some(i + m));
    if m < n {
        assert(s[i + m] == v[m]);
        lemma_digits_end(v, m + 1);
        lemma_digits_end_at(s, i, v, m + 1);
        if m + 1 < n {
            assert(s[i + (m + 1)] == v[m + 1]);
            lemma_digits_end(v, m + 2);
            lemma_digits_end_at(s, i, v, m + 2);
        }
    }
    assert(s.subrange(i, i + v.len()) =~= v);
}

/// A text that stands in `x` stands in `s` where `x` stands in `s`.
proof fn lemma_starts_at_inside(s: Seq<char>, j: int, x: Seq<char>, p: int, t: Seq<char>)
    requires
        starts_at(s, j, x),
        starts_at(x, p, t),
    ensures
        starts_at(s, j + p, t),
{
    assert forall|k: int| 0 <= k < t.len() implies s[j + p + k] == #[trigger] t[k] by {
        assert(x[p + k] == t[k]);
        assert(s[j + (p + k)] == x[p + k]);
    }
}

/// The digits that `to_text` writes for a coefficient: none for 1.
spec fn count_digits(count: i32) -> Seq<char> {
    if count == 1 {
        Seq::empty()
    } else {
        integer_text(count as int)
    }
}

/// The digits written for a coefficient that is not negative are digits,
/// and they are read as the coefficient.
proof fn lemma_count_digits(count: i32)
    requires
        count >= 0,
    ensures
        all_digits(count_digits(count)),
        count_value(count_digits(count)) == Some(count),
        term_text(Seq::empty(), count) == count_digits(count),
{
    if count != 1 {
        lemma_natural_text(count as nat);
        assert(term_text(Seq::empty(), count) =~= count_digits(count));
    } else {
        assert(term_text(Seq::empty(), count) =~= count_digits(count));
    }
}

/// A term that stands at `j`, behind blanks from `i` on and with the end of
/// a token behind it, is the term that is read at `i`.
proof fn lemma_term_at(s: Seq<char>, i: int, j: int, name: Seq<char>, count: i32)
    requires
        0 <= i <= j,
        forall|k: int| i <= k < j ==> is_space(#[trigger] s[k]),
        starts_at(s, j, term_text(name, count)),
        is_word(name),
        count >= 0,
        token_ends(s, j + term_text(name, count).len()),
    ensures
        term_at(s, i) == Some(
            Term {
                count: count_digits(count),
                count_at: j,
                name: name,
                end: j + term_text(name, count).len(),
            },
        ),
{
    let digits = count_digits(count);
    lemma_count_digits(count);
    assert(term_text(name, count) =~= digits + name);
    lemma_starts_at_concat(s, j, digits, name);
    let b = j + digits.len();
    lemma_word_at(s, b, name);
    if count == 1 {
        lemma_blanks(s, i, j);
        lemma_digits_at(s, j, digits);
    } else {
        lemma_natural_text(count as nat);
        assert(s[j + 0] == digits[0]);
        assert(is_digit(digits[0]));
        lemma_blanks(s, i, j);
        lemma_digits_at(s, j, digits);
    }
    lemma_no_blank(s, b);
    assert(s.subrange(j, b) =~= digits);
}

/// The pairs of a side can be written and read: each names a species with
/// a name, and no coefficient is negative.
spec fn side_ok(pairs: Seq<(usize, i32)>, names: Seq<Seq<char>>) -> bool {
    forall|k: int|
        0 <= k < pairs.len() ==> (#[trigger] pairs[k]).0 < names.len() && pairs[k].1 >= 0
            && is_word(names[pairs[k].0 as int])
}

/// The text of the pair with number `k`.
spec fn term_of(pairs: Seq<(usize, i32)>, names: Seq<Seq<char>>, k: int) -> Seq<char> {
    term_text(names[pairs[k].0 as int], pairs[k].1)
}

/// The text of the first `k + 1` pairs is that of the first `k`, a plus
/// sign where there are any, and the term of pair `k`.
proof fn lemma_side_text_step(pairs: Seq<(usize, i32)>, names: Seq<Seq<char>>, k: int)
    requires
        0 <= k < pairs.len(),
    ensures
        side_text(pairs.take(k + 1), names) == if k == 0 {
            term_of(pairs, names, k)
        } else {
            side_text(pairs.take(k), names) + plus_text() + term_of(pairs, names, k)
        },
{
    let t = pairs.take(k + 1);
    assert(t.drop_last() =~= pairs.take(k));
    assert(t.last() == pairs[k]);
    assert(t[0] == pairs[0]);
}

/// The text of the first `k` pairs stands at the start of the text of all.
proof fn lemma_side_text_prefix(pairs: Seq<(usize, i32)>, names: Seq<Seq<char>>, k: int)
    requires
        0 <= k <= pairs.len(),
    ensures
        starts_at(side_text(pairs, names), 0, side_text(pairs.take(k), names)),
    decreases pairs.len() - k,
{
    if k == pairs.len() {
        assert(pairs.take(k) =~= pairs);
    } else {
        lemma_side_text_prefix(pairs, names, k + 1);
        lemma_side_text_step(pairs, names, k);
        let whole = side_text(pairs, names);
        let a = side_text(pairs.take(k), names);
        if k == 0 {
            assert(a =~= Seq::<char>::empty());
        } else {
            let b = plus_text() + term_of(pairs, names, k);
            assert(side_text(pairs.take(k + 1), names) =~= a + b);
            lemma_starts_at_concat(whole, 0, a, b);
        }
    }
}

/// Where the term of pair `k` starts in the text of the pairs.
spec fn term_start(pairs: Seq<(usize, i32)>, names: Seq<Seq<char>>, k: int) -> int {
    if k == 0 {
        0
    } else {
        (side_text(pairs.take(k), names).len() + 3) as int
    }
}

/// In the text of the pairs, the term of pair `k` stands where it starts,
/// with a plus sign before it unless it is the first, and the text of the
/// first `k + 1` pairs ends behind it.
proof fn lemma_term_stands(pairs: Seq<(usize, i32)>, names: Seq<Seq<char>>, k: int)
    requires
        0 <= k < pairs.len(),
    ensures
        starts_at(side_text(pairs, names), term_start(pairs, names, k), term_of(pairs, names, k)),
        k > 0 ==> starts_at(
            side_text(pairs, names),
            side_text(pairs.take(k), names).len() as int,
            plus_text(),
        ),
        side_text(pairs.take(k + 1), names).len() == term_start(pairs, names, k) + term_of(
            pairs,
            names,
            k,
        ).len(),
{
    lemma_side_text_prefix(pairs, names, k + 1);
    lemma_side_text_step(pairs, names, k);
    let whole = side_text(pairs, names);
    if k > 0 {
        let a = side_text(pairs.take(k), names);
        let t = term_of(pairs, names, k);
        assert(side_text(pairs.take(k + 1), names) =~= a + (plus_text() + t));
        lemma_starts_at_concat(whole, 0, a, plus_text() + t);
        lemma_starts_at_concat(whole, a.len() as int, plus_text(), t);
    }
}

/// The terms are those of the pairs, in their order: each with the name of
/// its species and with digits that stand for its coefficient.
spec fn reads_as(terms: Seq<Term>, pairs: Seq<(usize, i32)>, names: Seq<Seq<char>>) -> bool {
    &&& terms.len() == pairs.len()
    &&& forall|k: int|
        0 <= k < terms.len() ==> (#[trigger] terms[k]).name == names[pairs[k].0 as int]
            && count_value(terms[k].count) == Some(pairs[k].1)
}

/// A plus sign between blanks at `from`, with a term behind it, is read as
/// a plus sign and that term.
proof fn lemma_plus_term(s: Seq<char>, from: int, name: Seq<char>, count: i32)
    requires
        starts_at(s, from, plus_text()),
        starts_at(s, from + 3, term_text(name, count)),
        is_word(name),
        count >= 0,
        token_ends(s, from + 3 + term_text(name, count).len()),
    ensures
        stands_at(s, spaces_end(s, from), '+'),
        term_at(s, spaces_end(s, from) + 1) == Some(
            Term {
                count: count_digits(count),
                count_at: from + 3,
                name: name,
                end: from + 3 + term_text(name, count).len(),
            },
        ),
{
    assert(s[from + 0] == plus_text()[0]);
    assert(s[from + 1] == plus_text()[1]);
    assert(s[from + 2] == plus_text()[2]);
    lemma_one_blank(s, from);
    assert forall|k: int| from + 2 <= k < from + 3 implies is_space(#[trigger] s[k]) by {}
    lemma_term_at(s, from + 2, from + 3, name, count);
}

/// A token ends behind the term of pair `k`, where the text of the pairs
/// stands at `j` with a blank behind it.
proof fn lemma_term_ends(
    s: Seq<char>,
    j: int,
    pairs: Seq<(usize, i32)>,
    names: Seq<Seq<char>>,
    k: int,
)
    requires
        starts_at(s, j, side_text(pairs, names)),
        0 <= k < pairs.len(),
        j + side_text(pairs, names).len() < s.len(),
        s[j + side_text(pairs, names).len()] == ' ',
    ensures
        token_ends(s, j + side_text(pairs.take(k + 1), names).len()),
        j + side_text(pairs.take(k + 1), names).len() <= j + side_text(pairs, names).len(),
{
    let whole = side_text(pairs, names);
    let end = j + side_text(pairs.take(k + 1), names).len();
    lemma_side_text_prefix(pairs, names, k + 1);
    if k + 1 < pairs.len() {
        lemma_term_stands(pairs, names, k + 1);
        lemma_starts_at_inside(s, j, whole, end - j, plus_text());
        assert(s[end + 0] == plus_text()[0]);
    } else {
        assert(pairs.take(k + 1) =~= pairs);
    }
}

/// Where the text of the pairs stands at `j` and a blank and then neither
/// a blank nor a plus sign follow it, the terms that are read behind the
/// first `k` are those of the other pairs, and they end where the text
/// ends.
proof fn lemma_more_terms(
    s: Seq<char>,
    j: int,
    pairs: Seq<(usize, i32)>,
    names: Seq<Seq<char>>,
    k: int,
)
    requires
        side_ok(pairs, names),
        starts_at(s, j, side_text(pairs, names)),
        1 <= k <= pairs.len(),
        j + side_text(pairs, names).len() + 1 < s.len(),
        s[j + side_text(pairs, names).len()] == ' ',
        !is_space(s[j + side_text(pairs, names).len() + 1]),
        s[j + side_text(pairs, names).len() + 1] != '+',
    ensures
        reads_as(more_terms(s, j + side_text(pairs.take(k), names).len()), pairs.skip(k), names),
        more_terms_end(s, j + side_text(pairs.take(k), names).len()) == j + side_text(
            pairs,
            names,
        ).len(),
    decreases pairs.len() - k,
{
    let whole = side_text(pairs, names);
    let e = j + whole.len();
    let from = j + side_text(pairs.take(k), names).len();
    if k == pairs.len() {
        assert(pairs.take(k) =~= pairs);
        lemma_one_blank(s, e);
        assert(pairs.skip(k) =~= Seq::<(usize, i32)>::empty());
    } else {
        let t = term_of(pairs, names, k);
        let name = names[pairs[k].0 as int];
        let end = from + 3 + t.len();
        assert(pairs[k].0 < names.len() && pairs[k].1 >= 0 && is_word(name));
        lemma_term_stands(pairs, names, k);
        lemma_starts_at_inside(s, j, whole, from - j, plus_text());
        lemma_starts_at_inside(s, j, whole, term_start(pairs, names, k), t);
        lemma_term_ends(s, j, pairs, names, k);
        lemma_plus_term(s, from, name, pairs[k].1);
        lemma_count_digits(pairs[k].1);
        lemma_more_terms(s, j, pairs, names, k + 1);
        let first = term_at(s, spaces_end(s, from) + 1).unwrap();
        let rest = more_terms(s, end);
        let all = more_terms(s, from);
        assert(all =~= seq![first] + rest);
        let others = pairs.skip(k);
        assert(others.len() == all.len());
        assert forall|m: int| 0 <= m < all.len() implies (#[trigger] all[m]).name
            == names[others[m].0 as int] && count_value(all[m].count) == Some(others[m].1) by {
            if m > 0 {
                assert(all[m] == rest[m - 1]);
                assert(others[m] == pairs.skip(k + 1)[m - 1]);
            } else {
                assert(all[0] == first);
                assert(others[0] == pairs[k]);
            }
        }
    }
}

/// Where the text of the pairs stands at `j`, behind blanks from `i` on,
/// and a blank and then a character that starts no term follow it, the
/// side that is read at `i` is that of the pairs.
proof fn lemma_side_at(
    s: Seq<char>,
    i: int,
    j: int,
    pairs: Seq<(usize, i32)>,
    names: Seq<Seq<char>>,
)
    requires
        side_ok(pairs, names),
        0 <= i <= j,
        forall|k: int| i <= k < j ==> is_space(#[trigger] s[k]),
        starts_at(s, j, side_text(pairs, names)),
        j + side_text(pairs, names).len() + 1 < s.len(),
        s[j + side_text(pairs, names).len()] == ' ',
        !is_space(s[j + side_text(pairs, names).len() + 1]),
        !is_word_char(s[j + side_text(pairs, names).len() + 1]),
        s[j + side_text(pairs, names).len() + 1] != '+',
    ensures
        reads_as(side_at(s, i), pairs, names),
        side_end(s, i) == if pairs.len() == 0 {
            i
        } else {
            j + side_text(pairs, names).len()
        },
{
    let whole = side_text(pairs, names);
    let e = j + whole.len();
    if pairs.len() == 0 {
        assert forall|k: int| i <= k < e + 1 implies is_space(#[trigger] s[k]) by {}
        lemma_blanks(s, i, e + 1);
        lemma_no_blank(s, e + 1);
    } else {
        lemma_term_stands(pairs, names, 0);
        let t = term_of(pairs, names, 0);
        lemma_starts_at_inside(s, j, whole, 0, t);
        let end = j + t.len();
        assert(end == j + side_text(pairs.take(1), names).len());
        lemma_term_ends(s, j, pairs, names, 0);
        assert(pairs[0].0 < names.len());
        lemma_term_at(s, i, j, names[pairs[0].0 as int], pairs[0].1);
        lemma_count_digits(pairs[0].1);
        lemma_more_terms(s, j, pairs, names, 1);
        let first = term_at(s, i).unwrap();
        let rest = more_terms(s, end);
        let all = side_at(s, i);
        assert(all =~= seq![first] + rest);
        assert forall|m: int| 0 <= m < all.len() implies (#[trigger] all[m]).name
            == names[pairs[m].0 as int] && count_value(all[m].count) == Some(pairs[m].1) by {
            if m > 0 {
                assert(all[m] == rest[m - 1]);
                assert(pairs[m] == pairs.skip(1)[m - 1]);
            }
        }
    }
}

/// The map that holds the pairs; of two pairs with one key, the later.
spec fn map_of(pairs: Seq<(usize, i32)>) -> Map<usize, i32>
    decreases pairs.len(),
{
    if pairs.len() == 0 {
        Map::empty()
    } else {
        map_of(pairs.drop_last()).insert(pairs.last().0, pairs.last().1)
    }
}

/// Terms that read as pairs over known names resolve to the map of the
/// pairs, and add no name.
proof fn lemma_resolve(terms: Seq<Term>, pairs: Seq<(usize, i32)>, names: Seq<Seq<char>>)
    requires
        reads_as(terms, pairs, names),
        distinct(names),
        forall|k: int| 0 <= k < pairs.len() ==> (#[trigger] pairs[k]).0 < names.len(),
    ensures
        resolve(terms, names) == Ok::<Side, ParseFailure>(Side { names, counts: map_of(pairs) }),
    decreases terms.len(),
{
    if terms.len() > 0 {
        let t0 = terms.drop_last();
        let rest = pairs.drop_last();
        assert forall|k: int| 0 <= k < t0.len() implies (#[trigger] t0[k]).name
            == names[rest[k].0 as int] && count_value(t0[k].count) == Some(rest[k].1) by {
            assert(t0[k] == terms[k]);
            assert(rest[k] == pairs[k]);
        }
        assert forall|k: int| 0 <= k < rest.len() implies (#[trigger] rest[k]).0 < names.len() by {
            assert(rest[k] == pairs[k]);
        }
        lemma_resolve(t0, rest, names);
        let t = terms.last();
        let key = pairs.last().0;
        assert(terms[terms.len() - 1].name == names[pairs[terms.len() - 1].0 as int]);
        assert(pairs[pairs.len() - 1].0 < names.len());
        lemma_position(names, t.name);
        if position(names, t.name) is Some {
            let i = position(names, t.name).unwrap();
            if i < key {
                assert(names[i] != names[key as int]);
            } else if key < i {
                assert(names[key as int] != names[i]);
            }
        } else {
            assert(names[key as int] != t.name);
        }
    }
}

/// The map of the pairs of a side below `n` holds what the side holds
/// below `n`.
proof fn lemma_map_of_entries(side: Map<usize, i32>, n: int)
    requires
        0 <= n <= usize::MAX + 1,
    ensures
        forall|k: usize|
            #[trigger] map_of(entries_below(side, n)).contains_key(k) <==> side.contains_key(k)
                && k < n,
        forall|k: usize|
            map_of(entries_below(side, n)).contains_key(k) ==> #[trigger] map_of(
                entries_below(side, n),
            )[k] == side[k],
    decreases n,
{
    let now = map_of(entries_below(side, n));
    if n > 0 {
        lemma_map_of_entries(side, n - 1);
        let before = entries_below(side, n - 1);
        let last = (n - 1) as usize;
        if side.contains_key(last) {
            assert(before.push((last, side[last])).drop_last() =~= before);
            assert(now == map_of(before).insert(last, side[last]));
        } else {
            assert(now == map_of(before));
        }
        assert forall|k: usize| #[trigger] now.contains_key(k) <==> side.contains_key(k) && k
            < n by {
            if k != last {
                assert(map_of(before).contains_key(k) <==> side.contains_key(k) && k < n - 1);
            }
        }
        assert forall|k: usize| now.contains_key(k) implies #[trigger] now[k] == side[k] by {
            if k != last {
                assert(map_of(before).contains_key(k));
            }
        }
    } else {
        assert(entries_below(side, n) =~= Seq::<(usize, i32)>::empty());
        assert(now =~= Map::<usize, i32>::empty());
    }
}

/// A reaction can be written and read: its rate constant is a literal,
/// and each side names species of the network, with coefficients that are
/// not negative.
pub open spec fn reaction_ok(rxn: ReactionModel, n: nat) -> bool {
    &&& is_number(rxn.rate)
    &&& forall|k: usize|
        #[trigger] rxn.reactants.contains_key(k) ==> k < n && rxn.reactants[k] >= 0
    &&& forall|k: usize| #[trigger] rxn.products.contains_key(k) ==> k < n && rxn.products[k] >= 0
}

/// A network can be written and read: it has a name and an abundance for
/// each species, the names are names and no two are the same, the
/// abundances can be written, and so can the reactions.
pub open spec fn printable<T: Abundance>(n: Network<T::V>) -> bool {
    &&& n.species.len() == n.names.len()
    &&& n.names.len() <= usize::MAX
    &&& distinct(n.names)
    &&& forall|i: int| 0 <= i < n.names.len() ==> is_word(#[trigger] n.names[i])
    &&& forall|i: int| 0 <= i < n.species.len() ==> T::writable(#[trigger] n.species[i])
    &&& forall|i: int| 0 <= i < n.rxns.len() ==> reaction_ok(#[trigger] n.rxns[i], n.names.len())
}

/// The pairs of a side of a reaction that can be written can be written.
proof fn lemma_side_ok(side: Map<usize, i32>, names: Seq<Seq<char>>)
    requires
        names.len() <= usize::MAX,
        forall|k: usize| #[trigger] side.contains_key(k) ==> k < names.len() && side[k] >= 0,
        forall|i: int| 0 <= i < names.len() ==> is_word(#[trigger] names[i]),
    ensures
        side_ok(entries_below(side, names.len() as int), names),
        map_of(entries_below(side, names.len() as int)) == side,
{
    let n = names.len() as int;
    let pairs = entries_below(side, n);
    lemma_entries_below(side, n);
    lemma_map_of_entries(side, n);
    assert forall|k: int| 0 <= k < pairs.len() implies (#[trigger] pairs[k]).0 < names.len()
        && pairs[k].1 >= 0 && is_word(names[pairs[k].0 as int]) by {
        assert(side.contains_key(pairs[k].0));
    }
    assert(map_of(pairs) =~= side);
}

/// What a reaction in the text says is what the reaction holds.
spec fn reaction_reads_as(text: ReactionText, rxn: ReactionModel, names: Seq<Seq<char>>) -> bool {
    &&& reads_as(text.reactants, entries_below(rxn.reactants, names.len() as int), names)
    &&& reads_as(text.products, entries_below(rxn.products, names.len() as int), names)
    &&& text.rate == Some(rxn.rate)
}

/// The line of a reaction that stands at `j`, behind blanks from `i` on,
/// is read at `i` as that reaction, up to the semicolon.
proof fn lemma_reaction_at(
    s: Seq<char>,
    i: int,
    j: int,
    rxn: ReactionModel,
    names: Seq<Seq<char>>,
)
    requires
        0 <= i <= j,
        forall|k: int| i <= k < j ==> is_space(#[trigger] s[k]),
        starts_at(s, j, reaction_line(rxn, names)),
        reaction_ok(rxn, names.len()),
        names.len() <= usize::MAX,
        forall|k: int| 0 <= k < names.len() ==> is_word(#[trigger] names[k]),
    ensures
        reaction_at(s, i) is Some,
        reaction_reads_as(reaction_at(s, i).unwrap(), rxn, names),
        reaction_at(s, i).unwrap().end == j + reaction_line(rxn, names).len() - 1,
        s[j + reaction_line(rxn, names).len() - 1] == '\n',
{
    let lhs = entries_below(rxn.reactants, names.len() as int);
    let rhs = entries_below(rxn.products, names.len() as int);
    lemma_side_ok(rxn.reactants, names);
    lemma_side_ok(rxn.products, names);
    let left = side_text(lhs, names);
    let right = side_text(rhs, names);
    let arrow = seq![' ', '-', '>', ' '];
    let colon = seq![' ', ':', ' '];
    let semi = seq![';', '\n'];
    let line = reaction_line(rxn, names);
    assert(line == left + arrow + right + colon + rxn.rate + semi);
    lemma_starts_at_concat(s, j, left + arrow + right + colon + rxn.rate, semi);
    lemma_starts_at_concat(s, j, left + arrow + right + colon, rxn.rate);
    lemma_starts_at_concat(s, j, left + arrow + right, colon);
    lemma_starts_at_concat(s, j, left + arrow, right);
    lemma_starts_at_concat(s, j, left, arrow);
    let p_arrow = j + left.len();
    let p_right = p_arrow + 4;
    let p_colon = p_right + right.len();
    let p_rate = p_colon + 3;
    let p_semi = p_rate + rxn.rate.len();
    assert(s[p_arrow + 0] == arrow[0] && s[p_arrow + 1] == arrow[1] && s[p_arrow + 2] == arrow[2]
        && s[p_arrow + 3] == arrow[3]);
    assert(s[p_colon + 0] == colon[0] && s[p_colon + 1] == colon[1] && s[p_colon + 2] == colon[2]);
    assert(s[p_semi + 0] == semi[0] && s[p_semi + 1] == semi[1]);
    lemma_number_start(rxn.rate);
    assert(s[p_rate + 0] == rxn.rate[0]);
    lemma_side_at(s, i, j, lhs, names);
    let a = p_arrow + 1;
    assert(spaces_end(s, side_end(s, i)) == a) by {
        if lhs.len() == 0 {
            assert(left =~= Seq::<char>::empty());
            assert forall|k: int| i <= k < a implies is_space(#[trigger] s[k]) by {}
            lemma_blanks(s, i, a);
        } else {
            lemma_one_blank(s, p_arrow);
        }
    }
    assert forall|k: int| a + 2 <= k < p_right implies is_space(#[trigger] s[k]) by {}
    lemma_side_at(s, a + 2, p_right, rhs, names);
    let b = p_colon + 1;
    assert(spaces_end(s, side_end(s, a + 2)) == b) by {
        if rhs.len() == 0 {
            assert(right =~= Seq::<char>::empty());
            assert forall|k: int| a + 2 <= k < b implies is_space(#[trigger] s[k]) by {}
            lemma_blanks(s, a + 2, b);
        } else {
            lemma_one_blank(s, p_colon);
        }
    }
    lemma_one_blank(s, b + 1);
    lemma_number_at(s, p_rate, rxn.rate);
    lemma_no_blank(s, p_semi);
}

/// A text stands at its own start.
proof fn lemma_starts_at_self(x: Seq<char>)
    ensures
        starts_at(x, 0, x),
{
}

/// What stands in a text stands in the text with more behind it.
proof fn lemma_starts_at_extend(a: Seq<char>, b: Seq<char>, p: int, t: Seq<char>)
    requires
        starts_at(a, p, t),
    ensures
        starts_at(a + b, p, t),
{
    assert forall|k: int| 0 <= k < t.len() implies (a + b)[p + k] == #[trigger] t[k] by {
        assert(a[p + k] == t[k]);
    }
}

/// In the lines of the first `m` reactions, the line of reaction `k`
/// stands behind the lines of the first `k`.
proof fn lemma_reaction_lines_stand(
    rxns: Seq<ReactionModel>,
    names: Seq<Seq<char>>,
    k: int,
    m: int,
)
    requires
        0 <= k < m <= rxns.len(),
    ensures
        starts_at(
            reaction_lines(rxns, names, m),
            reaction_lines(rxns, names, k).len() as int,
            reaction_line(rxns[k], names),
        ),
        reaction_lines(rxns, names, k + 1).len() == reaction_lines(rxns, names, k).len()
            + reaction_line(rxns[k], names).len(),
    decreases m,
{
    let before = reaction_lines(rxns, names, m - 1);
    let line = reaction_line(rxns[m - 1], names);
    if k == m - 1 {
        lemma_starts_at_self(before + line);
        lemma_starts_at_concat(before + line, 0, before, line);
    } else {
        lemma_reaction_lines_stand(rxns, names, k, m - 1);
        lemma_starts_at_extend(
            before,
            line,
            reaction_lines(rxns, names, k).len() as int,
            reaction_line(rxns[k], names),
        );
    }
}

/// The reactions in the text say what the reactions hold, one by one.
spec fn all_read_as(
    texts: Seq<ReactionText>,
    rxns: Seq<ReactionModel>,
    names: Seq<Seq<char>>,
) -> bool {
    &&& texts.len() == rxns.len()
    &&& forall|k: int|
        0 <= k < texts.len() ==> reaction_reads_as(#[trigger] texts[k], rxns[k], names)
}

/// Where the lines of the reactions stand at the end of the text, the
/// reactions that are read behind the first `k` lines are the other
/// reactions, and only blanks are left behind them.
proof fn lemma_reactions_read(
    s: Seq<char>,
    base: int,
    rxns: Seq<ReactionModel>,
    names: Seq<Seq<char>>,
    k: int,
    from: int,
)
    requires
        names.len() <= usize::MAX,
        forall|i: int| 0 <= i < names.len() ==> is_word(#[trigger] names[i]),
        forall|i: int| 0 <= i < rxns.len() ==> reaction_ok(#[trigger] rxns[i], names.len()),
        0 <= k <= rxns.len(),
        starts_at(s, base, reaction_lines(rxns, names, rxns.len() as int)),
        base + reaction_lines(rxns, names, rxns.len() as int).len() == s.len(),
        0 <= from <= base + reaction_lines(rxns, names, k).len(),
        forall|p: int|
            from <= p < base + reaction_lines(rxns, names, k).len() ==> is_space(#[trigger] s[p]),
    ensures
        all_read_as(reactions(s, from), rxns.skip(k), names),
        spaces_end(s, reactions_end(s, from)) == s.len(),
    decreases rxns.len() - k,
{
    let all = reaction_lines(rxns, names, rxns.len() as int);
    let j = base + reaction_lines(rxns, names, k).len();
    if k == rxns.len() {
        lemma_blanks(s, from, s.len() as int);
        assert(term_at(s, from) is None);
        assert(reaction_at(s, from) is None);
        assert(rxns.skip(k) =~= Seq::<ReactionModel>::empty());
    } else {
        lemma_reaction_lines_stand(rxns, names, k, rxns.len() as int);
        lemma_starts_at_inside(s, base, all, j - base, reaction_line(rxns[k], names));
        lemma_reaction_at(s, from, j, rxns[k], names);
        let first = reaction_at(s, from).unwrap();
        assert(reaction_line(rxns[k], names).len() >= 9);
        assert forall|p: int|
            first.end <= p < base + reaction_lines(rxns, names, k + 1).len() implies is_space(
            #[trigger] s[p],
        ) by {}
        lemma_reactions_read(s, base, rxns, names, k + 1, first.end);
        let rest = reactions(s, first.end);
        let texts = reactions(s, from);
        assert(texts =~= seq![first] + rest);
        let others = rxns.skip(k);
        assert forall|m: int| 0 <= m < texts.len() implies reaction_reads_as(
            #[trigger] texts[m],
            others[m],
            names,
        ) by {
            if m > 0 {
                assert(texts[m] == rest[m - 1]);
                assert(others[m] == rxns.skip(k + 1)[m - 1]);
            } else {
                assert(others[0] == rxns[k]);
            }
        }
    }
}

/// Reactions in the text that say what the reactions hold build those
/// reactions, and add no name.
proof fn lemma_build(texts: Seq<ReactionText>, rxns: Seq<ReactionModel>, names: Seq<Seq<char>>)
    requires
        all_read_as(texts, rxns, names),
        distinct(names),
        names.len() <= usize::MAX,
        forall|i: int| 0 <= i < names.len() ==> is_word(#[trigger] names[i]),
        forall|i: int| 0 <= i < rxns.len() ==> reaction_ok(#[trigger] rxns[i], names.len()),
    ensures
        build(texts, names) == Ok::<Built, ParseFailure>(Built { names, rxns }),
    decreases texts.len(),
{
    if texts.len() == 0 {
        assert(rxns =~= Seq::<ReactionModel>::empty());
    } else {
        let t0 = texts.drop_last();
        let r0 = rxns.drop_last();
        assert forall|k: int| 0 <= k < t0.len() implies reaction_reads_as(
            #[trigger] t0[k],
            r0[k],
            names,
        ) by {
            assert(t0[k] == texts[k]);
            assert(r0[k] == rxns[k]);
        }
        assert forall|i: int| 0 <= i < r0.len() implies reaction_ok(
            #[trigger] r0[i],
            names.len(),
        ) by {
            assert(r0[i] == rxns[i]);
        }
        lemma_build(t0, r0, names);
        let t = texts.last();
        let r = rxns.last();
        assert(reaction_reads_as(texts[texts.len() - 1], rxns[texts.len() - 1], names));
        assert(reaction_ok(rxns[rxns.len() - 1], names.len()));
        let lhs = entries_below(r.reactants, names.len() as int);
        let rhs = entries_below(r.products, names.len() as int);
        lemma_side_ok(r.reactants, names);
        lemma_side_ok(r.products, names);
        lemma_resolve(t.reactants, lhs, names);
        lemma_resolve(t.products, rhs, names);
        let made = ReactionModel { reactants: map_of(lhs), products: map_of(rhs), rate: r.rate };
        assert(made == r);
        assert(r0.push(r) =~= rxns);
    }
}

/// The line of a declaration that stands at `j`, behind blanks from `i`
/// on, is read at `i` as that declaration, up to the semicolon.
proof fn lemma_declaration_at(
    s: Seq<char>,
    i: int,
    j: int,
    name: Seq<char>,
    value: Seq<char>,
)
    requires
        0 <= i <= j,
        forall|k: int| i <= k < j ==> is_space(#[trigger] s[k]),
        starts_at(s, j, declaration_line(name, value)),
        is_word(name),
        is_number(value),
    ensures
        declaration_at(s, i) is Some,
        declaration_at(s, i).unwrap().name == name,
        declaration_at(s, i).unwrap().value == value,
        declaration_at(s, i).unwrap().end == j + declaration_line(name, value).len() - 1,
        s[j + declaration_line(name, value).len() - 1] == '\n',
{
    let equals = seq![' ', '=', ' '];
    let semi = seq![';', '\n'];
    assert(declaration_line(name, value) == name + equals + value + semi);
    lemma_starts_at_concat(s, j, name + equals + value, semi);
    lemma_starts_at_concat(s, j, name + equals, value);
    lemma_starts_at_concat(s, j, name, equals);
    let p_equals = j + name.len();
    let p_value = p_equals + 3;
    let p_semi = p_value + value.len();
    assert(s[p_equals + 0] == equals[0] && s[p_equals + 1] == equals[1] && s[p_equals + 2]
        == equals[2]);
    assert(s[p_semi + 0] == semi[0] && s[p_semi + 1] == semi[1]);
    lemma_number_start(value);
    assert(s[p_value + 0] == value[0]);
    lemma_word_at(s, j, name);
    lemma_blanks(s, i, j);
    lemma_one_blank(s, p_equals);
    lemma_one_blank(s, p_equals + 2);
    lemma_number_at(s, p_value, value);
    lemma_no_blank(s, p_semi);
}

/// In the lines of the first `m` declarations, the line of declaration
/// `k` stands behind the lines of the first `k`.
proof fn lemma_declaration_lines_stand<T: Abundance>(
    names: Seq<Seq<char>>,
    species: Seq<T::V>,
    k: int,
    m: int,
)
    requires
        0 <= k < m,
    ensures
        starts_at(
            declaration_lines::<T>(names, species, m),
            declaration_lines::<T>(names, species, k).len() as int,
            declaration_line(names[k], T::literal_of(species[k])),
        ),
        declaration_lines::<T>(names, species, k + 1).len() == declaration_lines::<T>(
            names,
            species,
            k,
        ).len() + declaration_line(names[k], T::literal_of(species[k])).len(),
    decreases m,
{
    let before = declaration_lines::<T>(names, species, m - 1);
    let line = declaration_line(names[m - 1], T::literal_of(species[m - 1]));
    if k == m - 1 {
        lemma_starts_at_self(before + line);
        lemma_starts_at_concat(before + line, 0, before, line);
    } else {
        lemma_declaration_lines_stand::<T>(names, species, k, m - 1);
        lemma_starts_at_extend(
            before,
            line,
            declaration_lines::<T>(names, species, k).len() as int,
            declaration_line(names[k], T::literal_of(species[k])),
        );
    }
}

/// The declarations in the text give the names their abundances, one by
/// one.
spec fn declarations_read_as<T: Abundance>(
    decls: Seq<Declaration>,
    names: Seq<Seq<char>>,
    species: Seq<T::V>,
) -> bool {
    &&& decls.len() == names.len()
    &&& decls.len() == species.len()
    &&& forall|k: int|
        0 <= k < decls.len() ==> (#[trigger] decls[k]).name == names[k] && decls[k].value
            == T::literal_of(species[k])
}

/// Where the lines of the declarations stand at the start of the text and
/// no declaration is read behind the last of them, the declarations that
/// are read behind the first `k` lines are the other declarations.
proof fn lemma_declarations_read<T: Abundance>(
    s: Seq<char>,
    names: Seq<Seq<char>>,
    species: Seq<T::V>,
    k: int,
    from: int,
)
    requires
        names.len() == species.len(),
        forall|i: int| 0 <= i < names.len() ==> is_word(#[trigger] names[i]),
        forall|i: int| 0 <= i < species.len() ==> is_number(T::literal_of(#[trigger] species[i])),
        0 <= k <= names.len(),
        starts_at(s, 0, declaration_lines::<T>(names, species, names.len() as int)),
        0 <= from <= declaration_lines::<T>(names, species, k).len(),
        forall|p: int|
            from <= p < declaration_lines::<T>(names, species, k).len() ==> is_space(
                #[trigger] s[p],
            ),
        k == names.len() ==> declaration_at(s, from) is None,
        k < names.len() ==> declaration_at(
            s,
            declaration_lines::<T>(names, species, names.len() as int).len() - 1,
        ) is None,
    ensures
        declarations_read_as::<T>(declarations(s, from), names.skip(k), species.skip(k)),
        declarations_end(s, from) == if k == names.len() {
            from
        } else {
            declaration_lines::<T>(names, species, names.len() as int).len() - 1
        },
    decreases names.len() - k,
{
    let count = names.len() as int;
    let all = declaration_lines::<T>(names, species, count);
    if k == count {
        assert(names.skip(k) =~= Seq::<Seq<char>>::empty());
        assert(species.skip(k) =~= Seq::<T::V>::empty());
    } else {
        let j = declaration_lines::<T>(names, species, k).len() as int;
        let line = declaration_line(names[k], T::literal_of(species[k]));
        lemma_declaration_lines_stand::<T>(names, species, k, count);
        lemma_starts_at_inside(s, 0, all, j, line);
        assert(is_number(T::literal_of(species[k])));
        lemma_declaration_at(s, from, j, names[k], T::literal_of(species[k]));
        let first = declaration_at(s, from).unwrap();
        assert(line.len() >= 5);
        assert forall|p: int|
            first.end <= p < declaration_lines::<T>(names, species, k + 1).len() implies is_space(
            #[trigger] s[p],
        ) by {}
        if k + 1 < count {
            lemma_declaration_lines_stand::<T>(names, species, k + 1, count);
        }
        lemma_declarations_read::<T>(s, names, species, k + 1, first.end);
        let rest = declarations(s, first.end);
        let decls = declarations(s, from);
        assert(decls =~= seq![first] + rest);
        let other_names = names.skip(k);
        let other_species = species.skip(k);
        assert forall|m: int| 0 <= m < decls.len() implies (#[trigger] decls[m]).name
            == other_names[m] && decls[m].value == T::literal_of(other_species[m]) by {
            if m > 0 {
                assert(decls[m] == rest[m - 1]);
                assert(other_names[m] == names.skip(k + 1)[m - 1]);
                assert(other_species[m] == species.skip(k + 1)[m - 1]);
            }
        }
    }
}

/// Declarations that give distinct names abundances that can be written
/// declare those species.
proof fn lemma_declare<T: Abundance>(
    decls: Seq<Declaration>,
    names: Seq<Seq<char>>,
    species: Seq<T::V>,
)
    requires
        declarations_read_as::<T>(decls, names, species),
        distinct(names),
        forall|i: int| 0 <= i < species.len() ==> T::writable(#[trigger] species[i]),
    ensures
        declare::<T>(decls) == Ok::<Network<T::V>, ParseFailure>(
            Network { names, species, rxns: Seq::empty() },
        ),
    decreases decls.len(),
{
    if decls.len() == 0 {
        assert(names =~= Seq::<Seq<char>>::empty());
        assert(species =~= Seq::<T::V>::empty());
    } else {
        let d0 = decls.drop_last();
        let n0 = names.drop_last();
        let s0 = species.drop_last();
        assert forall|k: int| 0 <= k < d0.len() implies (#[trigger] d0[k]).name == n0[k]
            && d0[k].value == T::literal_of(s0[k]) by {
            assert(d0[k] == decls[k]);
        }
        assert forall|i: int, j: int| 0 <= i < j < n0.len() implies #[trigger] n0[i]
            != #[trigger] n0[j] by {
            assert(names[i] != names[j]);
        }
        assert forall|i: int| 0 <= i < s0.len() implies T::writable(#[trigger] s0[i]) by {
            assert(s0[i] == species[i]);
        }
        lemma_declare::<T>(d0, n0, s0);
        let d = decls.last();
        let last = decls.len() - 1;
        assert(decls[last].name == names[last]);
        lemma_position(n0, d.name);
        if position(n0, d.name) is Some {
            let i = position(n0, d.name).unwrap();
            assert(names[i] != names[last]);
        }
        assert(T::writable(species[last]));
        T::lemma_write_then_read(species[last]);
        assert(n0.push(d.name) =~= names);
        assert(s0.push(species[last]) =~= species);
    }
}

/// No declaration is read where the lines of the reactions start.
proof fn lemma_no_declaration(
    s: Seq<char>,
    from: int,
    base: int,
    rxns: Seq<ReactionModel>,
    names: Seq<Seq<char>>,
)
    requires
        names.len() <= usize::MAX,
        forall|i: int| 0 <= i < names.len() ==> is_word(#[trigger] names[i]),
        forall|i: int| 0 <= i < rxns.len() ==> reaction_ok(#[trigger] rxns[i], names.len()),
        starts_at(s, base, reaction_lines(rxns, names, rxns.len() as int)),
        base + reaction_lines(rxns, names, rxns.len() as int).len() == s.len(),
        0 <= from <= base,
        forall|p: int| from <= p < base ==> is_space(#[trigger] s[p]),
    ensures
        declaration_at(s, from) is None,
{
    let all = reaction_lines(rxns, names, rxns.len() as int);
    if rxns.len() == 0 {
        lemma_blanks(s, from, s.len() as int);
    } else {
        let rxn = rxns[0];
        let line = reaction_line(rxn, names);
        lemma_reaction_lines_stand(rxns, names, 0, rxns.len() as int);
        lemma_starts_at_inside(s, base, all, 0, line);
        let lhs = entries_below(rxn.reactants, names.len() as int);
        let rhs = entries_below(rxn.products, names.len() as int);
        assert(reaction_ok(rxn, names.len()));
        lemma_side_ok(rxn.reactants, names);
        let left = side_text(lhs, names);
        let right = side_text(rhs, names);
        let arrow = seq![' ', '-', '>', ' '];
        let colon = seq![' ', ':', ' '];
        let semi = seq![';', '\n'];
        assert(line == left + arrow + right + colon + rxn.rate + semi);
        lemma_starts_at_concat(s, base, left + arrow + right + colon + rxn.rate, semi);
        lemma_starts_at_concat(s, base, left + arrow + right + colon, rxn.rate);
        lemma_starts_at_concat(s, base, left + arrow + right, colon);
        lemma_starts_at_concat(s, base, left + arrow, right);
        lemma_starts_at_concat(s, base, left, arrow);
        let p_arrow = base + left.len();
        assert(s[p_arrow + 0] == arrow[0] && s[p_arrow + 1] == arrow[1]);
        if lhs.len() == 0 {
            assert(left =~= Seq::<char>::empty());
            assert forall|p: int| from <= p < base + 1 implies is_space(#[trigger] s[p]) by {}
            lemma_blanks(s, from, base + 1);
        } else {
            let name = names[lhs[0].0 as int];
            let count = lhs[0].1;
            let term = term_of(lhs, names, 0);
            assert(lhs[0].0 < names.len() && count >= 0 && is_word(name));
            lemma_term_stands(lhs, names, 0);
            lemma_starts_at_inside(s, base, left, 0, term);
            lemma_term_ends(s, base, lhs, names, 0);
            lemma_count_digits(count);
            let digits = count_digits(count);
            assert(term =~= digits + name);
            lemma_starts_at_concat(s, base, digits, name);
            if count != 1 {
                lemma_natural_text(count as nat);
                assert(s[base + 0] == digits[0]);
                assert(is_digit(digits[0]));
                lemma_blanks(s, from, base);
            } else {
                lemma_word_at(s, base, name);
                lemma_blanks(s, from, base);
                let b = base + name.len();
                assert(b == base + side_text(lhs.take(1), names).len());
                if lhs.len() > 1 {
                    lemma_term_stands(lhs, names, 1);
                    lemma_starts_at_inside(s, base, left, b - base, plus_text());
                    assert(s[b + 0] == plus_text()[0]);
                    assert(s[b + 1] == plus_text()[1]);
                } else {
                    assert(lhs.take(1) =~= lhs);
                }
                lemma_one_blank(s, b);
            }
        }
    }
}

/// Where the lines of the declarations end in the text of a network.
spec fn head_len<T: Abundance>(n: Network<T::V>) -> int {
    declaration_lines::<T>(n.names, n.species, n.names.len() as int).len() as int
}

/// Where reading the declarations of the text of a network stops: at the
/// line feed of the last declaration.
spec fn head_stop<T: Abundance>(n: Network<T::V>) -> int {
    if n.names.len() == 0 {
        0
    } else {
        head_len::<T>(n) - 1
    }
}

/// The text of a network is the lines of its declarations and then the
/// lines of its reactions, and a line feed ends the declarations.
proof fn lemma_text_parts<T: Abundance>(n: Network<T::V>)
    requires
        n.species.len() == n.names.len(),
    ensures
        starts_at(
            network_text::<T>(n),
            0,
            declaration_lines::<T>(n.names, n.species, n.names.len() as int),
        ),
        starts_at(
            network_text::<T>(n),
            head_len::<T>(n),
            reaction_lines(n.rxns, n.names, n.rxns.len() as int),
        ),
        head_len::<T>(n) + reaction_lines(n.rxns, n.names, n.rxns.len() as int).len()
            == network_text::<T>(n).len(),
        0 <= head_stop::<T>(n) <= head_len::<T>(n),
        forall|p: int|
            head_stop::<T>(n) <= p < head_len::<T>(n) ==> is_space(
                #[trigger] network_text::<T>(n)[p],
            ),
{
    let count = n.names.len() as int;
    let head = declaration_lines::<T>(n.names, n.species, count);
    let tail = reaction_lines(n.rxns, n.names, n.rxns.len() as int);
    let s = network_text::<T>(n);
    assert(s == head + tail);
    lemma_starts_at_self(s);
    lemma_starts_at_concat(s, 0, head, tail);
    if count > 0 {
        let line = declaration_line(n.names[count - 1], T::literal_of(n.species[count - 1]));
        assert(head == declaration_lines::<T>(n.names, n.species, count - 1) + line);
        assert(line[line.len() - 1] == '\n');
        assert(head[head.len() - 1] == '\n');
        assert(s[head.len() - 1] == head[head.len() - 1]);
    }
}

/// Reading the declarations of the text of a network declares its species
/// and stops at the end of their lines.
proof fn lemma_declarations_of_text<T: Abundance>(n: Network<T::V>)
    requires
        printable::<T>(n),
    ensures
        declare::<T>(declarations(network_text::<T>(n), 0)) == Ok::<Network<T::V>, ParseFailure>(
            Network { names: n.names, species: n.species, rxns: Seq::empty() },
        ),
        declarations_end(network_text::<T>(n), 0) == head_stop::<T>(n),
{
    let s = network_text::<T>(n);
    lemma_text_parts::<T>(n);
    assert forall|i: int| 0 <= i < n.species.len() implies is_number(
        T::literal_of(#[trigger] n.species[i]),
    ) by {
        assert(T::writable(n.species[i]));
        T::lemma_write_then_read(n.species[i]);
    }
    lemma_no_declaration(s, head_stop::<T>(n), head_len::<T>(n), n.rxns, n.names);
    lemma_declarations_read::<T>(s, n.names, n.species, 0, 0);
    assert(n.names.skip(0) =~= n.names);
    assert(n.species.skip(0) =~= n.species);
    lemma_declare::<T>(declarations(s, 0), n.names, n.species);
}

/// Reading the reactions of the text of a network builds its reactions,
/// and leaves only blanks.
proof fn lemma_reactions_of_text<T: Abundance>(n: Network<T::V>)
    requires
        printable::<T>(n),
    ensures
        build(reactions(network_text::<T>(n), head_stop::<T>(n)), n.names) == Ok::<
            Built,
            ParseFailure,
        >(Built { names: n.names, rxns: n.rxns }),
        spaces_end(network_text::<T>(n), reactions_end(network_text::<T>(n), head_stop::<T>(n)))
            == network_text::<T>(n).len(),
{
    let s = network_text::<T>(n);
    lemma_text_parts::<T>(n);
    lemma_reactions_read(s, head_len::<T>(n), n.rxns, n.names, 0, head_stop::<T>(n));
    assert(n.rxns.skip(0) =~= n.rxns);
    lemma_build(reactions(s, head_stop::<T>(n)), n.rxns, n.names);
}

/// Law: the text written for a network that can be written is read back
/// as that network.
pub proof fn lemma_write_then_read<T: Abundance>(n: Network<T::V>)
    requires
        printable::<T>(n),
    ensures
        network_of::<T>(network_text::<T>(n)) == Ok::<Network<T::V>, ParseFailure>(n),
{
    lemma_declarations_of_text::<T>(n);
    lemma_reactions_of_text::<T>(n);
    let padded = n.species + Seq::new(0nat, |i: int| T::zero_value());
    assert(padded =~= n.species);
}

/// A declaration that is read names a species by a name and gives a
/// literal, and ends inside the text, behind where it starts.
proof fn lemma_declaration_sound(s: Seq<char>, i: int)
    requires
        0 <= i <= s.len(),
    ensures
        declaration_at(s, i) matches Some(d) ==> is_word(d.name) && is_number(d.value) && i < d.end
            <= s.len(),
{
    lemma_spaces_end(s, i);
    let a = spaces_end(s, i);
    crate::lex::lemma_word_end(s, a);
    if let Some(b) = word_end(s, a) {
        lemma_spaces_end(s, b);
        let c = spaces_end(s, b);
        if stands_at(s, c, '=') {
            lemma_spaces_end(s, c + 1);
            let d = spaces_end(s, c + 1);
            crate::number::lemma_number_end(s, d);
            if let Some(e) = number_end(s, d) {
                crate::number::lemma_number_slice(s, d);
                lemma_spaces_end(s, e);
            }
        }
    }
}

/// Every declaration that is read names a species by a name and gives a
/// literal.
proof fn lemma_declarations_sound(s: Seq<char>, i: int)
    requires
        0 <= i <= s.len(),
    ensures
        forall|k: int|
            0 <= k < declarations(s, i).len() ==> is_word((#[trigger] declarations(s, i)[k]).name)
                && is_number(declarations(s, i)[k].value),
    decreases s.len() - i,
{
    lemma_declaration_sound(s, i);
    if let Some(d) = declaration_at(s, i) {
        lemma_declarations_sound(s, d.end);
        let rest = declarations(s, d.end);
        let all = declarations(s, i);
        assert(all =~= seq![d] + rest);
        assert forall|k: int| 0 <= k < all.len() implies is_word((#[trigger] all[k]).name)
            && is_number(all[k].value) by {
            if k > 0 {
                assert(all[k] == rest[k - 1]);
            }
        }
    }
}

/// A term names a species by a name, and its coefficient is written in
/// digits.
spec fn term_sound(t: Term) -> bool {
    is_word(t.name) && all_digits(t.count)
}

/// A term that is read is sound and ends inside the text, behind where it
/// starts.
proof fn lemma_term_sound(s: Seq<char>, i: int)
    requires
        0 <= i <= s.len(),
    ensures
        term_at(s, i) matches Some(t) ==> term_sound(t) && i < t.end <= s.len(),
{
    lemma_spaces_end(s, i);
    let a = spaces_end(s, i);
    lemma_digits_end(s, a);
    let b = digits_end(s, a);
    lemma_spaces_end(s, b);
    let c = spaces_end(s, b);
    crate::lex::lemma_word_end(s, c);
    let run = s.subrange(a, b);
    assert forall|k: int| 0 <= k < run.len() implies is_digit(#[trigger] run[k]) by {
        assert(run[k] == s[a + k]);
    }
}

/// The terms that follow a first one are sound, and end inside the text.
proof fn lemma_more_terms_sound(s: Seq<char>, i: int)
    requires
        0 <= i <= s.len(),
    ensures
        forall|k: int| 0 <= k < more_terms(s, i).len() ==> term_sound(#[trigger] more_terms(s, i)[k]),
        i <= more_terms_end(s, i) <= s.len(),
    decreases s.len() - i,
{
    lemma_spaces_end(s, i);
    let a = spaces_end(s, i);
    if stands_at(s, a, '+') {
        lemma_term_sound(s, a + 1);
        if let Some(t) = term_at(s, a + 1) {
            lemma_more_terms_sound(s, t.end);
            let rest = more_terms(s, t.end);
            let all = more_terms(s, i);
            assert(all =~= seq![t] + rest);
            assert forall|k: int| 0 <= k < all.len() implies term_sound(#[trigger] all[k]) by {
                if k > 0 {
                    assert(all[k] == rest[k - 1]);
                }
            }
        }
    }
}

/// The terms of a side that is read are sound, and the side ends inside
/// the text.
proof fn lemma_side_sound(s: Seq<char>, i: int)
    requires
        0 <= i <= s.len(),
    ensures
        forall|k: int| 0 <= k < side_at(s, i).len() ==> term_sound(#[trigger] side_at(s, i)[k]),
        i <= side_end(s, i) <= s.len(),
{
    lemma_term_sound(s, i);
    if let Some(t) = term_at(s, i) {
        lemma_more_terms_sound(s, t.end);
        let rest = more_terms(s, t.end);
        let all = side_at(s, i);
        assert(all =~= seq![t] + rest);
        assert forall|k: int| 0 <= k < all.len() implies term_sound(#[trigger] all[k]) by {
            if k > 0 {
                assert(all[k] == rest[k - 1]);
            }
        }
    }
}

/// The terms of a reaction in the text are sound, and its rate constant,
/// if it gives one, is a literal.
spec fn text_sound(text: ReactionText) -> bool {
    &&& forall|k: int| 0 <= k < text.reactants.len() ==> term_sound(#[trigger] text.reactants[k])
    &&& forall|k: int| 0 <= k < text.products.len() ==> term_sound(#[trigger] text.products[k])
    &&& text.rate matches Some(r) ==> is_number(r)
}

/// A reaction that is read is sound and ends inside the text, behind where
/// it starts.
proof fn lemma_reaction_sound(s: Seq<char>, i: int)
    requires
        0 <= i <= s.len(),
    ensures
        reaction_at(s, i) matches Some(r) ==> text_sound(r) && i < r.end <= s.len(),
{
    lemma_side_sound(s, i);
    lemma_spaces_end(s, side_end(s, i));
    let a = spaces_end(s, side_end(s, i));
    if stands_at(s, a, '-') && stands_at(s, a + 1, '>') {
        lemma_side_sound(s, a + 2);
        lemma_spaces_end(s, side_end(s, a + 2));
        let b = spaces_end(s, side_end(s, a + 2));
        if stands_at(s, b, ':') {
            lemma_spaces_end(s, b + 1);
            let c = spaces_end(s, b + 1);
            crate::number::lemma_number_end(s, c);
            if let Some(d) = number_end(s, c) {
                crate::number::lemma_number_slice(s, c);
                lemma_spaces_end(s, d);
            }
        }
    }
}

/// Every reaction that is read is sound.
proof fn lemma_reactions_sound(s: Seq<char>, i: int)
    requires
        0 <= i <= s.len(),
    ensures
        forall|k: int| 0 <= k < reactions(s, i).len() ==> text_sound(#[trigger] reactions(s, i)[k]),
    decreases s.len() - i,
{
    lemma_reaction_sound(s, i);
    if let Some(r) = reaction_at(s, i) {
        lemma_reactions_sound(s, r.end);
        let rest = reactions(s, r.end);
        let all = reactions(s, i);
        assert(all =~= seq![r] + rest);
        assert forall|k: int| 0 <= k < all.len() implies text_sound(#[trigger] all[k]) by {
            if k > 0 {
                assert(all[k] == rest[k - 1]);
            }
        }
    }
}

/// The declared species have a name and an abundance each; the names are
/// names and no two are the same, and the abundances can be written.
proof fn lemma_declare_sound<T: Abundance>(decls: Seq<Declaration>)
    requires
        forall|k: int|
            0 <= k < decls.len() ==> is_word((#[trigger] decls[k]).name) && is_number(
                decls[k].value,
            ),
        declare::<T>(decls) is Ok,
    ensures
        declare::<T>(decls)->Ok_0.names.len() == declare::<T>(decls)->Ok_0.species.len(),
        declare::<T>(decls)->Ok_0.rxns.len() == 0,
        distinct(declare::<T>(decls)->Ok_0.names),
        forall|i: int|
            0 <= i < declare::<T>(decls)->Ok_0.names.len() ==> is_word(
                #[trigger] declare::<T>(decls)->Ok_0.names[i],
            ),
        forall|i: int|
            0 <= i < declare::<T>(decls)->Ok_0.species.len() ==> T::writable(
                #[trigger] declare::<T>(decls)->Ok_0.species[i],
            ),
    decreases decls.len(),
{
    if decls.len() > 0 {
        let d0 = decls.drop_last();
        assert forall|k: int| 0 <= k < d0.len() implies is_word((#[trigger] d0[k]).name)
            && is_number(d0[k].value) by {
            assert(d0[k] == decls[k]);
        }
        lemma_declare_sound::<T>(d0);
        let before = declare::<T>(d0)->Ok_0;
        let now = declare::<T>(decls)->Ok_0;
        let d = decls.last();
        assert(is_word(decls[decls.len() - 1].name));
        lemma_position(before.names, d.name);
        T::lemma_read_is_writable(d.value);
        assert forall|i: int, j: int| 0 <= i < j < now.names.len() implies #[trigger] now.names[i]
            != #[trigger] now.names[j] by {
            if j < before.names.len() {
                assert(before.names[i] != before.names[j]);
            }
        }
        assert forall|i: int| 0 <= i < now.names.len() implies is_word(#[trigger] now.names[i]) by {
            if i < before.names.len() {
                assert(is_word(before.names[i]));
            }
        }
        assert forall|i: int| 0 <= i < now.species.len() implies T::writable(
            #[trigger] now.species[i],
        ) by {
            if i < before.species.len() {
                assert(T::writable(before.species[i]));
            }
        }
    }
}

/// Resolving a side drops no name.
proof fn lemma_resolve_grows(terms: Seq<Term>, names: Seq<Seq<char>>)
    requires
        resolve(terms, names) is Ok,
    ensures
        names.len() <= resolve(terms, names)->Ok_0.names.len(),
    decreases terms.len(),
{
    if terms.len() > 0 {
        lemma_resolve_grows(terms.drop_last(), names);
    }
}

/// Building the reactions drops no name.
proof fn lemma_build_grows(texts: Seq<ReactionText>, names: Seq<Seq<char>>)
    requires
        build(texts, names) is Ok,
    ensures
        names.len() <= build(texts, names)->Ok_0.names.len(),
    decreases texts.len(),
{
    if texts.len() > 0 {
        lemma_build_grows(texts.drop_last(), names);
        let n = build(texts.drop_last(), names)->Ok_0;
        let t = texts.last();
        lemma_resolve_grows(t.reactants, n.names);
        lemma_resolve_grows(t.products, resolve(t.reactants, n.names)->Ok_0.names);
    }
}

/// The names are names, and no two are the same.
spec fn names_ok(names: Seq<Seq<char>>) -> bool {
    &&& names.len() <= usize::MAX
    &&& distinct(names)
    &&& forall|i: int| 0 <= i < names.len() ==> is_word(#[trigger] names[i])
}

/// A side resolved from sound terms keeps the names in order, and names
/// species of the network only, with coefficients that are not negative.
proof fn lemma_resolve_sound(terms: Seq<Term>, names: Seq<Seq<char>>)
    requires
        forall|k: int| 0 <= k < terms.len() ==> term_sound(#[trigger] terms[k]),
        distinct(names),
        forall|i: int| 0 <= i < names.len() ==> is_word(#[trigger] names[i]),
        resolve(terms, names) is Ok,
        resolve(terms, names)->Ok_0.names.len() <= usize::MAX,
    ensures
        names_ok(resolve(terms, names)->Ok_0.names),
        forall|k: usize|
            #[trigger] resolve(terms, names)->Ok_0.counts.contains_key(k) ==> k < resolve(
                terms,
                names,
            )->Ok_0.names.len() && resolve(terms, names)->Ok_0.counts[k] >= 0,
    decreases terms.len(),
{
    if terms.len() > 0 {
        let t0 = terms.drop_last();
        assert forall|k: int| 0 <= k < t0.len() implies term_sound(#[trigger] t0[k]) by {
            assert(t0[k] == terms[k]);
        }
        let before = resolve(t0, names)->Ok_0;
        let now = resolve(terms, names)->Ok_0;
        let t = terms.last();
        assert(term_sound(terms[terms.len() - 1]));
        assert(before.names.len() <= now.names.len());
        lemma_resolve_sound(t0, names);
        lemma_position(before.names, t.name);
        crate::integer::lemma_digits_value_nonnegative(t.count);
        let n = count_value(t.count).unwrap();
        assert(n >= 0);
        assert forall|i: int, j: int| 0 <= i < j < now.names.len() implies #[trigger] now.names[i]
            != #[trigger] now.names[j] by {
            if j < before.names.len() {
                assert(before.names[i] != before.names[j]);
            }
        }
        assert forall|i: int| 0 <= i < now.names.len() implies is_word(#[trigger] now.names[i]) by {
            if i < before.names.len() {
                assert(is_word(before.names[i]));
            }
        }
        assert forall|k: usize| #[trigger] now.counts.contains_key(k) implies k < now.names.len()
            && now.counts[k] >= 0 by {
            if before.counts.contains_key(k) {
                assert(k < before.names.len() && before.counts[k] >= 0);
            }
        }
    }
}

/// Reactions built from sound texts can be written, over names that are
/// names and distinct.
proof fn lemma_build_sound(texts: Seq<ReactionText>, names: Seq<Seq<char>>)
    requires
        forall|k: int| 0 <= k < texts.len() ==> text_sound(#[trigger] texts[k]),
        distinct(names),
        forall|i: int| 0 <= i < names.len() ==> is_word(#[trigger] names[i]),
        build(texts, names) is Ok,
        build(texts, names)->Ok_0.names.len() <= usize::MAX,
    ensures
        names_ok(build(texts, names)->Ok_0.names),
        build(texts, names)->Ok_0.rxns.len() == texts.len(),
        forall|i: int|
            0 <= i < texts.len() ==> reaction_ok(
                #[trigger] build(texts, names)->Ok_0.rxns[i],
                build(texts, names)->Ok_0.names.len(),
            ),
    decreases texts.len(),
{
    if texts.len() > 0 {
        let t0 = texts.drop_last();
        assert forall|k: int| 0 <= k < t0.len() implies text_sound(#[trigger] t0[k]) by {
            assert(t0[k] == texts[k]);
        }
        let before = build(t0, names)->Ok_0;
        let now = build(texts, names)->Ok_0;
        let t = texts.last();
        assert(text_sound(texts[texts.len() - 1]));
        let lhs = resolve(t.reactants, before.names)->Ok_0;
        let rhs = resolve(t.products, lhs.names)->Ok_0;
        lemma_resolve_grows(t.reactants, before.names);
        lemma_resolve_grows(t.products, lhs.names);
        lemma_build_sound(t0, names);
        lemma_resolve_sound(t.reactants, before.names);
        lemma_resolve_sound(t.products, lhs.names);
        crate::number::lemma_integer_is_number(1);
        assert(integer_text(1) =~= default_rate());
        let made = now.rxns[texts.len() - 1];
        assert(made.reactants == lhs.counts);
        assert(made.products == rhs.counts);
        assert forall|i: int| 0 <= i < texts.len() implies reaction_ok(
            #[trigger] now.rxns[i],
            now.names.len(),
        ) by {
            if i < texts.len() - 1 {
                assert(now.rxns[i] == before.rxns[i]);
                assert(reaction_ok(before.rxns[i], before.names.len()));
            }
        }
    }
}

/// Law: a network that is read from a text can be written.
pub proof fn lemma_read_is_printable<T: Abundance>(text: Seq<char>)
    requires
        network_of::<T>(text) is Ok,
        network_of::<T>(text)->Ok_0.names.len() <= usize::MAX,
    ensures
        printable::<T>(network_of::<T>(text)->Ok_0),
{
    let n = network_of::<T>(text)->Ok_0;
    let decls = declarations(text, 0);
    lemma_declarations_sound(text, 0);
    lemma_declare_sound::<T>(decls);
    let declared = declare::<T>(decls)->Ok_0;
    let p = declarations_end(text, 0);
    lemma_declarations_end(text, 0);
    lemma_reactions_sound(text, p);
    let texts = reactions(text, p);
    lemma_build_grows(texts, declared.names);
    lemma_build_sound(texts, declared.names);
    T::lemma_zero_is_writable();
    assert forall|i: int| 0 <= i < n.species.len() implies T::writable(#[trigger] n.species[i]) by {
        if i < declared.species.len() {
            assert(n.species[i] == declared.species[i]);
        }
    }
}

/// The declarations end inside the text.
proof fn lemma_declarations_end(s: Seq<char>, i: int)
    requires
        0 <= i <= s.len(),
    ensures
        i <= declarations_end(s, i) <= s.len(),
    decreases s.len() - i,
{
    lemma_declaration_sound(s, i);
    if let Some(d) = declaration_at(s, i) {
        lemma_declarations_end(s, d.end);
    }
}

/// Law: reading a text, writing the network and reading what was written
/// gives the network that the first reading gave: the same species with
/// the same names and abundances, and the same reactions.
pub proof fn lemma_round_trip<T: Abundance>(text: Seq<char>)
    requires
        network_of::<T>(text) is Ok,
        network_of::<T>(text)->Ok_0.names.len() <= usize::MAX,
    ensures
        network_of::<T>(network_text::<T>(network_of::<T>(text)->Ok_0)) == network_of::<T>(text),
{
    lemma_read_is_printable::<T>(text);
    lemma_write_then_read::<T>(network_of::<T>(text)->Ok_0);
}

} // verus!
