//! Character classes and maximal runs of characters: the lowest layer of the
//! network grammar.

use vstd::prelude::*;

verus! {

/// Blank characters: space, tab, line feed and carriage return.
pub open spec fn is_space(c: char) -> bool {
    c == ' ' || c == '\t' || c == '\n' || c == '\r'
}

/// The ten decimal digits.
pub open spec fn is_digit(c: char) -> bool {
    '0' <= c <= '9'
}

/// The letters of the Latin alphabet, in either case.
pub open spec fn is_letter(c: char) -> bool {
    ('a' <= c <= 'z') || ('A' <= c <= 'Z')
}

/// Letters and digits: what a species name may continue with.
pub open spec fn is_word_char(c: char) -> bool {
    is_letter(c) || is_digit(c)
}

/// The position of the first character at or after `i` that is not blank,
/// or the end of `s`.
pub open spec fn spaces_end(s: Seq<char>, i: int) -> int
    decreases s.len() - i,
{
    if 0 <= i < s.len() && is_space(s[i]) {
        spaces_end(s, i + 1)
    } else {
        i
    }
}

/// The position of the first character at or after `i` that is not a digit,
/// or the end of `s`.
pub open spec fn digits_end(s: Seq<char>, i: int) -> int
    decreases s.len() - i,
{
    if 0 <= i < s.len() && is_digit(s[i]) {
        digits_end(s, i + 1)
    } else {
        i
    }
}

/// The position of the first character at or after `i` that is neither a
/// letter nor a digit, or the end of `s`.
pub open spec fn word_chars_end(s: Seq<char>, i: int) -> int
    decreases s.len() - i,
{
    if 0 <= i < s.len() && is_word_char(s[i]) {
        word_chars_end(s, i + 1)
    } else {
        i
    }
}

/// Where the species name that starts at `i` ends: a letter, then letters
/// and digits. `None` where no letter stands at `i`.
pub open spec fn word_end(s: Seq<char>, i: int) -> Option<int> {
    if 0 <= i < s.len() && is_letter(s[i]) {
        Some(word_chars_end(s, i + 1))
    } else {
        None
    }
}

/// A species name: a letter followed by letters and digits, and nothing else.
pub open spec fn is_word(s: Seq<char>) -> bool {
    &&& s.len() > 0
    &&& is_letter(s[0])
    &&& forall|i: int| 0 < i < s.len() ==> is_word_char(#[trigger] s[i])
}

/// A run of blanks ends inside the text, at a character that is not blank or
/// at the end, and everything it passes over is blank.
pub proof fn lemma_spaces_end(s: Seq<char>, i: int)
    requires
        0 <= i <= s.len(),
    ensures
        i <= spaces_end(s, i) <= s.len(),
        forall|j: int| i <= j < spaces_end(s, i) ==> is_space(#[trigger] s[j]),
        spaces_end(s, i) < s.len() ==> !is_space(s[spaces_end(s, i)]),
    decreases s.len() - i,
{
    if i < s.len() && is_space(s[i]) {
        lemma_spaces_end(s, i + 1);
    }
}

/// A run of digits ends inside the text, at a character that is not a digit
/// or at the end, and everything it passes over is a digit.
pub proof fn lemma_digits_end(s: Seq<char>, i: int)
    requires
        0 <= i <= s.len(),
    ensures
        i <= digits_end(s, i) <= s.len(),
        forall|j: int| i <= j < digits_end(s, i) ==> is_digit(#[trigger] s[j]),
        digits_end(s, i) < s.len() ==> !is_digit(s[digits_end(s, i)]),
    decreases s.len() - i,
{
    if i < s.len() && is_digit(s[i]) {
        lemma_digits_end(s, i + 1);
    }
}

/// A run of letters and digits ends inside the text, at a character that is
/// neither or at the end, and everything it passes over is one of them.
pub proof fn lemma_word_chars_end(s: Seq<char>, i: int)
    requires
        0 <= i <= s.len(),
    ensures
        i <= word_chars_end(s, i) <= s.len(),
        forall|j: int| i <= j < word_chars_end(s, i) ==> is_word_char(#[trigger] s[j]),
        word_chars_end(s, i) < s.len() ==> !is_word_char(s[word_chars_end(s, i)]),
    decreases s.len() - i,
{
    if i < s.len() && is_word_char(s[i]) {
        lemma_word_chars_end(s, i + 1);
    }
}

/// What `word_end` finds is a species name.
pub proof fn lemma_word_end(s: Seq<char>, i: int)
    requires
        0 <= i <= s.len(),
    ensures
        word_end(s, i) matches Some(e) ==> i < e <= s.len() && is_word(s.subrange(i, e)),
{
    if i < s.len() && is_letter(s[i]) {
        lemma_word_chars_end(s, i + 1);
        let e = word_chars_end(s, i + 1);
        let w = s.subrange(i, e);
        assert forall|j: int| 0 < j < w.len() implies is_word_char(#[trigger] w[j]) by {
            assert(w[j] == s[i + j]);
        }
    }
}

/// A run of blanks ends at `e` where everything from `i` up to `e` is blank
/// and `e` holds no blank.
pub proof fn lemma_spaces_run(s: Seq<char>, i: int, e: int)
    requires
        0 <= i <= e <= s.len(),
        forall|j: int| i <= j < e ==> is_space(#[trigger] s[j]),
        e < s.len() ==> !is_space(s[e]),
    ensures
        spaces_end(s, i) == e,
    decreases e - i,
{
    if i < e {
        lemma_spaces_run(s, i + 1, e);
    }
}

/// A run of digits ends at `e` where everything from `i` up to `e` is a
/// digit and `e` holds none.
pub proof fn lemma_digits_run(s: Seq<char>, i: int, e: int)
    requires
        0 <= i <= e <= s.len(),
        forall|j: int| i <= j < e ==> is_digit(#[trigger] s[j]),
        e < s.len() ==> !is_digit(s[e]),
    ensures
        digits_end(s, i) == e,
    decreases e - i,
{
    if i < e {
        lemma_digits_run(s, i + 1, e);
    }
}

/// A run of letters and digits ends at `e` where everything from `i` up to
/// `e` is one of them and `e` holds neither.
pub proof fn lemma_word_chars_run(s: Seq<char>, i: int, e: int)
    requires
        0 <= i <= e <= s.len(),
        forall|j: int| i <= j < e ==> is_word_char(#[trigger] s[j]),
        e < s.len() ==> !is_word_char(s[e]),
    ensures
        word_chars_end(s, i) == e,
    decreases e - i,
{
    if i < e {
        lemma_word_chars_run(s, i + 1, e);
    }
}

/// A run of digits inside a slice of the text ends where the run ends in
/// the text, or at the end of the slice if that comes first.
pub proof fn lemma_digits_end_within(s: Seq<char>, lo: int, hi: int, p: int)
    requires
        0 <= lo <= p <= hi <= s.len(),
    ensures
        digits_end(s.subrange(lo, hi), p - lo) == (if digits_end(s, p) < hi {
            digits_end(s, p)
        } else {
            hi
        }) - lo,
    decreases hi - p,
{
    let t = s.subrange(lo, hi);
    lemma_digits_end(s, p);
    if p < hi {
        assert(t[p - lo] == s[p]);
        if is_digit(s[p]) {
            lemma_digits_end_within(s, lo, hi, p + 1);
        }
    }
}

/// Whether the character is a blank.
pub fn space(c: char) -> (r: bool)
    ensures
        r == is_space(c),
{
    c == ' ' || c == '\t' || c == '\n' || c == '\r'
}

/// Whether the character is a decimal digit.
pub fn digit(c: char) -> (r: bool)
    ensures
        r == is_digit(c),
{
    '0' <= c && c <= '9'
}

/// Whether the character is a letter.
pub fn letter(c: char) -> (r: bool)
    ensures
        r == is_letter(c),
{
    ('a' <= c && c <= 'z') || ('A' <= c && c <= 'Z')
}

/// Skips the blanks that start at `from`.
pub fn skip_spaces(text: &[char], from: usize) -> (r: usize)
    requires
        from <= text@.len(),
    ensures
        r == spaces_end(text@, from as int),
        from <= r <= text@.len(),
{
    let mut i: usize = from;
    while i < text.len() && space(text[i])
        invariant
            from <= i <= text@.len(),
            spaces_end(text@, from as int) == spaces_end(text@, i as int),
        decreases text@.len() - i,
    {
        i += 1;
    }
    i
}

/// Skips the digits that start at `from`.
pub fn skip_digits(text: &[char], from: usize) -> (r: usize)
    requires
        from <= text@.len(),
    ensures
        r == digits_end(text@, from as int),
        from <= r <= text@.len(),
{
    let mut i: usize = from;
    while i < text.len() && digit(text[i])
        invariant
            from <= i <= text@.len(),
            digits_end(text@, from as int) == digits_end(text@, i as int),
        decreases text@.len() - i,
    {
        i += 1;
    }
    i
}

/// Reads the species name that starts at `from`, and returns where it ends.
pub fn skip_word(text: &[char], from: usize) -> (r: Option<usize>)
    requires
        from <= text@.len(),
    ensures
        match r {
            Some(e) => word_end(text@, from as int) == Some(e as int) && from < e <= text@.len(),
            None => word_end(text@, from as int) is None,
        },
{
    if from < text.len() && letter(text[from]) {
        let mut i: usize = from + 1;
        while i < text.len() && (letter(text[i]) || digit(text[i]))
            invariant
                from < i <= text@.len(),
                word_chars_end(text@, from + 1) == word_chars_end(text@, i as int),
            decreases text@.len() - i,
        {
            i += 1;
        }
        Some(i)
    } else {
        None
    }
}

} // verus!
