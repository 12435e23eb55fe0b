//! Numeric literals, kept as they are written, and the two kinds of
//! abundance that a network can hold.

use crate::integer::{
    integer_text, integer_value, is_sign, lemma_integer_text, lemma_natural_text, natural_text,
    read_i32, write_i32,
};
use crate::lex::{
    digits_end, is_digit, lemma_digits_end, lemma_digits_end_within, lemma_digits_run, skip_digits,
};
use nom::number::complete::recognize_float;
use vstd::prelude::*;
use vstd::string::*;

verus! {

/// Where the mantissa that starts at `i` ends: digits with an optional
/// point and more digits behind them, or a point with digits behind it.
pub open spec fn mantissa_end(s: Seq<char>, i: int) -> Option<int> {
    let a = digits_end(s, i);
    if a > i {
        if a < s.len() && s[a] == '.' {
            Some(digits_end(s, a + 1))
        } else {
            Some(a)
        }
    } else if 0 <= i < s.len() && s[i] == '.' && digits_end(s, i + 1) > i + 1 {
        Some(digits_end(s, i + 1))
    } else {
        None
    }
}

/// Where the literal whose mantissa ends at `m` ends: behind the exponent,
/// if an `e` or `E` stands at `m`. An exponent needs at least one digit.
pub open spec fn exponent_end(s: Seq<char>, m: int) -> Option<int> {
    if 0 <= m < s.len() && (s[m] == 'e' || s[m] == 'E') {
        let k = if m + 1 < s.len() && is_sign(s[m + 1]) {
            m + 2
        } else {
            m + 1
        };
        if digits_end(s, k) > k {
            Some(digits_end(s, k))
        } else {
            None
        }
    } else {
        Some(m)
    }
}

/// Where the numeric literal that starts at `i` ends: an optional sign, a
/// mantissa and an optional exponent. `None` where none starts at `i`.
pub open spec fn number_end(s: Seq<char>, i: int) -> Option<int> {
    let j = if 0 <= i < s.len() && is_sign(s[i]) {
        i + 1
    } else {
        i
    };
    match mantissa_end(s, j) {
        Some(m) => exponent_end(s, m),
        None => None,
    }
}

/// The whole of `s` is one numeric literal.
pub open spec fn is_number(s: Seq<char>) -> bool {
    number_end(s, 0) == Some(s.len() as int)
}

/// A literal ends inside the text, behind where it starts.
pub proof fn lemma_number_end(s: Seq<char>, i: int)
    requires
        0 <= i <= s.len(),
    ensures
        number_end(s, i) matches Some(e) ==> i < e <= s.len(),
{
    let j = if i < s.len() && is_sign(s[i]) {
        i + 1
    } else {
        i
    };
    lemma_digits_end(s, j);
    let a = digits_end(s, j);
    if a < s.len() {
        lemma_digits_end(s, a + 1);
    }
    if j < s.len() {
        lemma_digits_end(s, j + 1);
    }
    if let Some(m) = mantissa_end(s, j) {
        if m < s.len() {
            lemma_digits_end(s, m + 1);
            if m + 1 < s.len() {
                lemma_digits_end(s, m + 2);
            }
        }
    }
}

/// What `number_end` passes over is a numeric literal.
pub proof fn lemma_number_slice(s: Seq<char>, i: int)
    requires
        0 <= i <= s.len(),
        number_end(s, i) is Some,
    ensures
        is_number(s.subrange(i, number_end(s, i).unwrap())),
{
    lemma_number_end(s, i);
    let e = number_end(s, i).unwrap();
    let t = s.subrange(i, e);
    let j = if i < s.len() && is_sign(s[i]) {
        i + 1
    } else {
        i
    };
    assert(t[0] == s[i]);
    lemma_digits_end(s, j);
    let a = digits_end(s, j);
    if a < s.len() {
        lemma_digits_end(s, a + 1);
    }
    if j < s.len() {
        lemma_digits_end(s, j + 1);
    }
    let m = mantissa_end(s, j).unwrap();
    if m < s.len() {
        lemma_digits_end(s, m + 1);
        if m + 1 < s.len() {
            lemma_digits_end(s, m + 2);
        }
    }
    assert(j <= a <= m <= e);
    lemma_digits_end_within(s, i, e, j);
    if a > j {
        if a < s.len() && s[a] == '.' {
            assert(t[a - i] == s[a]);
            lemma_digits_end_within(s, i, e, a + 1);
        } else if a < e {
            assert(t[a - i] == s[a]);
        }
    } else {
        assert(t[j - i] == s[j]);
        lemma_digits_end_within(s, i, e, j + 1);
    }
    assert(mantissa_end(t, j - i) == Some(m - i));
    if m < s.len() && (s[m] == 'e' || s[m] == 'E') {
        assert(t[m - i] == s[m]);
        let k = if m + 1 < s.len() && is_sign(s[m + 1]) {
            m + 2
        } else {
            m + 1
        };
        assert(t[m + 1 - i] == s[m + 1]);
        lemma_digits_end_within(s, i, e, k);
    }
}

/// An integer in decimal notation is a numeric literal.
pub proof fn lemma_integer_is_number(v: int)
    ensures
        is_number(integer_text(v)),
{
    let t = integer_text(v);
    if v < 0 {
        lemma_natural_text((-v) as nat);
        let b = natural_text((-v) as nat);
        assert forall|j: int| 1 <= j < t.len() implies is_digit(#[trigger] t[j]) by {
            assert(t[j] == b[j - 1]);
        }
        lemma_digits_run(t, 1, t.len() as int);
    } else {
        lemma_natural_text(v as nat);
        lemma_digits_run(t, 0, t.len() as int);
    }
}

/// The literal that starts at `i` is the literal at the start of what
/// stands in the text from `i` on.
pub proof fn lemma_number_end_tail(s: Seq<char>, i: int)
    requires
        0 <= i <= s.len(),
    ensures
        number_end(s, i) == match number_end(s.subrange(i, s.len() as int), 0) {
            Some(e) => Some(i + e),
            None => None,
        },
{
    let n = s.len() as int;
    let t = s.subrange(i, n);
    let j = if i < n && is_sign(s[i]) {
        i + 1
    } else {
        i
    };
    if i < n {
        assert(t[0] == s[i]);
    }
    lemma_digits_end(s, j);
    lemma_digits_end_within(s, i, n, j);
    let a = digits_end(s, j);
    if a < n {
        assert(t[a - i] == s[a]);
        lemma_digits_end(s, a + 1);
        lemma_digits_end_within(s, i, n, a + 1);
    }
    if j < n {
        assert(t[j - i] == s[j]);
        lemma_digits_end(s, j + 1);
        lemma_digits_end_within(s, i, n, j + 1);
    }
    if let Some(m) = mantissa_end(s, j) {
        assert(mantissa_end(t, j - i) == Some(m - i));
        if m < n {
            assert(t[m - i] == s[m]);
            lemma_digits_end(s, m + 1);
            lemma_digits_end_within(s, i, n, m + 1);
            if m + 1 < n {
                assert(t[m + 1 - i] == s[m + 1]);
                lemma_digits_end(s, m + 2);
                lemma_digits_end_within(s, i, n, m + 2);
            }
        }
    } else {
        assert(mantissa_end(t, j - i) is None);
    }
}

/// `nom::number::complete::recognize_float`: the length of the numeric
/// literal that the text starts with, or `None` where it starts with none.
/// A literal is an optional sign, then digits with an optional point and
/// more digits behind them, or a point and digits, then an optional
/// exponent: `e` or `E`, an optional sign, and at least one digit.
#[verifier::external_body]
fn literal_len(text: &str) -> (r: Option<usize>)
    ensures
        r is Some ==> number_end(text@, 0) == Some(r.unwrap() as int),
        r is None ==> number_end(text@, 0) is None,
{
    match recognize_float::<&str, nom::error::Error<&str>>(text) {
        Ok((_, literal)) => Some(literal.len()),
        Err(_) => None,
    }
}

/// Reads the numeric literal that starts at the character with the number
/// `from`, and returns where it ends.
pub fn skip_number(text: &str, from: usize) -> (r: Option<usize>)
    requires
        from <= text@.len(),
    ensures
        match r {
            Some(e) => number_end(text@, from as int) == Some(e as int) && from < e <= text@.len(),
            None => number_end(text@, from as int) is None,
        },
{
    let n = text.unicode_len();
    let tail = text.substring_char(from, n);
    proof {
        lemma_number_end(text@, from as int);
        lemma_number_end_tail(text@, from as int);
    }
    match literal_len(tail) {
        Some(len) => Some(from + len),
        None => None,
    }
}

/// Copies the characters of a text into a vector.
pub fn chars_of(text: &str) -> (r: Vec<char>)
    ensures
        r@ == text@,
{
    let mut out: Vec<char> = Vec::new();
    for c in it: text.chars()
        invariant
            out@ == it.seq().take(it.index()),
            it.seq() == text@,
    {
        out.push(c);
    }
    out
}

/// A numeric literal exactly as written. The library never rounds it: it
/// hands the text on, and whoever computes with reals converts it.
#[derive(Debug, PartialEq, Eq)]
pub struct Number {
    text: String,
}

impl View for Number {
    type V = Seq<char>;

    closed spec fn view(&self) -> Seq<char> {
        self.text@
    }
}

impl Number {
    #[verifier::type_invariant]
    /// The text is a numeric literal.
    spec fn well_formed(self) -> bool {
        is_number(self.text@)
    }

    /// Takes `text` as a literal if the whole of it is one.
    pub fn new(text: &str) -> (r: Option<Number>)
        ensures
            match r {
                Some(n) => is_number(text@) && n@ == text@,
                None => !is_number(text@),
            },
    {
        match literal_len(text) {
            Some(len) => {
                if len == text.unicode_len() {
                    Some(Number { text: String::from_str(text) })
                } else {
                    None
                }
            },
            None => None,
        }
    }

    /// Takes `text`, which is a literal, as one.
    pub(crate) fn of(text: &str) -> (r: Number)
        requires
            is_number(text@),
        ensures
            r@ == text@,
    {
        Number { text: String::from_str(text) }
    }

    /// The literal `1`: the rate of a reaction that names none.
    pub fn one() -> (r: Number)
        ensures
            r@ == seq!['1'],
    {
        proof {
            reveal_strlit("1");
            lemma_integer_is_number(1);
            assert(integer_text(1) =~= seq!['1']);
        }
        let text = String::from_str("1");
        assert(text@ =~= seq!['1']);
        Number { text }
    }

    /// The literal `0`.
    pub fn zero() -> (r: Number)
        ensures
            r@ == seq!['0'],
    {
        proof {
            reveal_strlit("0");
            lemma_integer_is_number(0);
            assert(integer_text(0) =~= seq!['0']);
        }
        let text = String::from_str("0");
        assert(text@ =~= seq!['0']);
        Number { text }
    }

    /// The integer `v` in decimal notation.
    pub fn from_i32(v: i32) -> (r: Number)
        ensures
            r@ == integer_text(v as int),
    {
        proof {
            lemma_integer_is_number(v as int);
        }
        Number { text: write_i32(v) }
    }

    /// The literal's text.
    pub fn as_str(&self) -> (r: &str)
        ensures
            r@ == self@,
            is_number(r@),
    {
        proof {
            use_type_invariant(self);
        }
        self.text.as_str()
    }

    /// The integer that the literal stands for, where it is written as one
    /// (a sign and digits, no point and no exponent) and fits in 32 bits.
    pub fn to_i32(&self) -> (r: Option<i32>)
        ensures
            r == i32_of_literal(self@),
    {
        let chars = chars_of(self.text.as_str());
        read_i32(chars.as_slice())
    }
}

impl Clone for Number {
    fn clone(&self) -> (r: Self)
        ensures
            r@ == self@,
    {
        proof {
            use_type_invariant(self);
        }
        Number { text: self.text.clone() }
    }
}

/// The 32-bit integer that a literal stands for, if it is written as an
/// integer and fits.
pub open spec fn i32_of_literal(text: Seq<char>) -> Option<i32> {
    match integer_value(text) {
        Some(v) => if i32::MIN <= v <= i32::MAX {
            Some(v as i32)
        } else {
            None
        },
        None => None,
    }
}

/// What a network can hold as the abundance of a species: a value that a
/// numeric literal can be read as and that can be written as one.
pub trait Abundance: Sized + View {
    /// The value that a literal stands for, if it stands for one.
    spec fn of_literal(text: Seq<char>) -> Option<Self::V>;

    /// The literal that stands for a value.
    spec fn literal_of(v: Self::V) -> Seq<char>;

    /// The abundance of a species that no declaration names.
    spec fn zero_value() -> Self::V;

    /// The values that come back unchanged when written and read again.
    spec fn writable(v: Self::V) -> bool;

    /// Reads a literal.
    fn from_literal(text: &str) -> (r: Option<Self>)
        ensures
            match r {
                Some(x) => Self::of_literal(text@) == Some(x@),
                None => Self::of_literal(text@) is None,
            },
    ;

    /// The abundance of a species that no declaration names.
    fn zero() -> (r: Self)
        ensures
            r@ == Self::zero_value(),
    ;

    /// Writes the value as a literal.
    fn to_literal(&self) -> (r: String)
        ensures
            r@ == Self::literal_of(self@),
    ;

    /// A copy of the value.
    fn duplicate(&self) -> (r: Self)
        ensures
            r@ == self@,
    ;

    /// What is read from a literal is writable.
    proof fn lemma_read_is_writable(text: Seq<char>)
        ensures
            Self::of_literal(text) matches Some(v) ==> Self::writable(v),
    ;

    /// The abundance of an undeclared species is writable.
    proof fn lemma_zero_is_writable()
        ensures
            Self::writable(Self::zero_value()),
    ;

    /// A writable value is written as a literal, and reading that literal
    /// gives the value back.
    proof fn lemma_write_then_read(v: Self::V)
        requires
            Self::writable(v),
        ensures
            is_number(Self::literal_of(v)),
            Self::of_literal(Self::literal_of(v)) == Some(v),
    ;
}

impl Abundance for i32 {
    open spec fn of_literal(text: Seq<char>) -> Option<i32> {
        i32_of_literal(text)
    }

    open spec fn literal_of(v: i32) -> Seq<char> {
        integer_text(v as int)
    }

    open spec fn zero_value() -> i32 {
        0i32
    }

    open spec fn writable(v: i32) -> bool {
        true
    }

    fn from_literal(text: &str) -> (r: Option<i32>) {
        let chars = chars_of(text);
        read_i32(chars.as_slice())
    }

    fn zero() -> (r: i32) {
        0
    }

    fn to_literal(&self) -> (r: String) {
        write_i32(*self)
    }

    fn duplicate(&self) -> (r: i32) {
        *self
    }

    proof fn lemma_read_is_writable(text: Seq<char>) {
    }

    proof fn lemma_zero_is_writable() {
    }

    proof fn lemma_write_then_read(v: i32) {
        lemma_integer_is_number(v as int);
        lemma_integer_text(v as int);
    }
}

impl Abundance for Number {
    open spec fn of_literal(text: Seq<char>) -> Option<Seq<char>> {
        if is_number(text) {
            Some(text)
        } else {
            None
        }
    }

    open spec fn literal_of(v: Seq<char>) -> Seq<char> {
        v
    }

    open spec fn zero_value() -> Seq<char> {
        seq!['0']
    }

    open spec fn writable(v: Seq<char>) -> bool {
        is_number(v)
    }

    fn from_literal(text: &str) -> (r: Option<Number>) {
        Number::new(text)
    }

    fn zero() -> (r: Number) {
        Number::zero()
    }

    fn to_literal(&self) -> (r: String) {
        String::from_str(self.as_str())
    }

    fn duplicate(&self) -> (r: Number) {
        self.clone()
    }

    proof fn lemma_read_is_writable(text: Seq<char>) {
    }

    proof fn lemma_zero_is_writable() {
        lemma_integer_is_number(0);
        assert(integer_text(0) =~= seq!['0']);
    }

    proof fn lemma_write_then_read(v: Seq<char>) {
    }
}

} // verus!
