//! Decimal notation for integers: reading a run of digits or a signed
//! integer, and writing an integer out again.

use crate::lex::{is_digit, lemma_digits_end, skip_digits};
use vstd::prelude::*;
use vstd::string::*;

verus! {

/// A plus or a minus.
pub open spec fn is_sign(c: char) -> bool {
    c == '+' || c == '-'
}

/// Every character of `s` is a decimal digit.
pub open spec fn all_digits(s: Seq<char>) -> bool {
    forall|i: int| 0 <= i < s.len() ==> is_digit(#[trigger] s[i])
}

/// The number that one digit stands for.
pub open spec fn digit_value(c: char) -> int {
    c as int - 48
}

/// The digit that stands for `d`, for `d` from 0 to 9.
pub open spec fn digit_char(d: int) -> char {
    (d + 48) as char
}

/// The number that a run of digits stands for; the empty run stands for 0.
pub open spec fn digits_value(s: Seq<char>) -> int
    decreases s.len(),
{
    if s.len() == 0 {
        0
    } else {
        digits_value(s.drop_last()) * 10 + digit_value(s.last())
    }
}

/// The number that a signed integer stands for: an optional sign, then at
/// least one digit, and nothing else.
pub open spec fn integer_value(s: Seq<char>) -> Option<int> {
    let signed = s.len() > 0 && is_sign(s[0]);
    let body = if signed {
        s.drop_first()
    } else {
        s
    };
    if body.len() > 0 && all_digits(body) {
        if signed && s[0] == '-' {
            Some(-digits_value(body))
        } else {
            Some(digits_value(body))
        }
    } else {
        None
    }
}

/// The stoichiometric coefficient that the digits before a species name
/// stand for: 1 where there are none, and nothing where the number does not
/// fit.
pub open spec fn count_value(digits: Seq<char>) -> Option<i32> {
    if digits.len() == 0 {
        Some(1i32)
    } else if digits_value(digits) <= i32::MAX {
        Some(digits_value(digits) as i32)
    } else {
        None
    }
}

/// The digits of a natural number, without leading zeros.
pub open spec fn natural_text(n: nat) -> Seq<char>
    decreases n,
{
    if n < 10 {
        seq![digit_char(n as int)]
    } else {
        natural_text(n / 10).push(digit_char((n % 10) as int))
    }
}

/// An integer in decimal notation, with a minus sign where it is negative.
pub open spec fn integer_text(v: int) -> Seq<char> {
    if v < 0 {
        seq!['-'] + natural_text((-v) as nat)
    } else {
        natural_text(v as nat)
    }
}

/// A run of digits stands for a number that is not negative, and a longer
/// run does not stand for a smaller one.
pub proof fn lemma_digits_value_prefix(s: Seq<char>, k: int)
    requires
        all_digits(s),
        0 <= k <= s.len(),
    ensures
        0 <= digits_value(s.take(k)) <= digits_value(s),
    decreases s.len() - k,
{
    if k == s.len() {
        assert(s.take(k) =~= s);
        lemma_digits_value_nonnegative(s);
    } else {
        lemma_digits_value_prefix(s, k + 1);
        let t = s.take(k + 1);
        assert(t.drop_last() =~= s.take(k));
        assert(t.last() == s[k]);
        assert(is_digit(s[k]));
        lemma_digits_value_nonnegative(s.take(k));
    }
}

/// A run of digits stands for a number that is not negative.
pub proof fn lemma_digits_value_nonnegative(s: Seq<char>)
    requires
        all_digits(s),
    ensures
        0 <= digits_value(s),
    decreases s.len(),
{
    if s.len() > 0 {
        let t = s.drop_last();
        assert forall|i: int| 0 <= i < t.len() implies is_digit(#[trigger] t[i]) by {
            assert(t[i] == s[i]);
        }
        lemma_digits_value_nonnegative(t);
        assert(is_digit(s.last()));
    }
}

/// What `natural_text` writes is a run of digits that stands for the number
/// written, and it does not start with a sign.
pub proof fn lemma_natural_text(n: nat)
    ensures
        natural_text(n).len() > 0,
        all_digits(natural_text(n)),
        digits_value(natural_text(n)) == n,
    decreases n,
{
    if n < 10 {
        let t = natural_text(n);
        assert(t.drop_last() =~= Seq::<char>::empty());
        assert(digits_value(t.drop_last()) == 0);
    } else {
        lemma_natural_text(n / 10);
        let t = natural_text(n);
        let p = natural_text(n / 10);
        assert(t.drop_last() =~= p);
        assert(t.last() == digit_char((n % 10) as int));
        assert forall|i: int| 0 <= i < t.len() implies is_digit(#[trigger] t[i]) by {
            if i < p.len() {
                assert(t[i] == p[i]);
            }
        }
    }
}

/// Writing an integer and reading it back gives the integer.
pub proof fn lemma_integer_text(v: int)
    ensures
        integer_value(integer_text(v)) == Some(v),
{
    let t = integer_text(v);
    if v < 0 {
        let b = natural_text((-v) as nat);
        lemma_natural_text((-v) as nat);
        assert(t[0] == '-');
        assert(t.drop_first() =~= b);
    } else {
        lemma_natural_text(v as nat);
        assert(is_digit(t[0]));
    }
}

/// The value of the digits at `from..to`, or `None` where it is above `cap`.
pub fn read_digits(text: &[char], from: usize, to: usize, cap: u64) -> (r: Option<u64>)
    requires
        from <= to <= text@.len(),
        all_digits(text@.subrange(from as int, to as int)),
        cap <= 0xffff_ffff_ffff,
    ensures
        0 <= digits_value(text@.subrange(from as int, to as int)),
        r == if digits_value(text@.subrange(from as int, to as int)) <= cap {
            Some(digits_value(text@.subrange(from as int, to as int)) as u64)
        } else {
            None
        },
{
    let ghost run = text@.subrange(from as int, to as int);
    let mut acc: u64 = 0;
    let mut i: usize = from;
    proof {
        assert(run.take(0) =~= Seq::<char>::empty());
        lemma_digits_value_nonnegative(run);
    }
    while i < to
        invariant
            from <= i <= to <= text@.len(),
            run == text@.subrange(from as int, to as int),
            all_digits(run),
            acc == digits_value(run.take(i - from)),
            acc <= cap <= 0xffff_ffff_ffff,
        decreases to - i,
    {
        let c = text[i];
        proof {
            let t = run.take(i - from + 1);
            assert(t.drop_last() =~= run.take(i - from));
            assert(t.last() == run[i - from]);
            assert(run[i - from] == c);
            assert(is_digit(run[i - from]));
            lemma_digits_value_prefix(run, i - from + 1);
        }
        let d: u64 = (c as u32 - '0' as u32) as u64;
        let next: u64 = acc * 10 + d;
        if next > cap {
            return None;
        }
        acc = next;
        i += 1;
    }
    proof {
        assert(run.take(to - from) =~= run);
    }
    Some(acc)
}

/// Reads a signed integer that fits in 32 bits.
pub fn read_i32(text: &[char]) -> (r: Option<i32>)
    ensures
        r == match integer_value(text@) {
            Some(v) => if i32::MIN <= v <= i32::MAX {
                Some(v as i32)
            } else {
                None
            },
            None => None,
        },
{
    let n = text.len();
    let signed = n > 0 && (text[0] == '+' || text[0] == '-');
    let start: usize = if signed {
        1
    } else {
        0
    };
    let ghost body = text@.subrange(start as int, n as int);
    proof {
        if signed {
            assert(body =~= text@.drop_first());
        } else {
            assert(body =~= text@);
        }
    }
    if start == n {
        return None;
    }
    let end = skip_digits(text, start);
    proof {
        lemma_digits_end(text@, start as int);
        if end == n {
            assert forall|i: int| 0 <= i < body.len() implies is_digit(#[trigger] body[i]) by {
                assert(body[i] == text@[start + i]);
            }
        } else {
            assert(body[end - start] == text@[end as int]);
        }
    }
    if end != n {
        return None;
    }
    let negative = signed && text[0] == '-';
    match read_digits(text, start, n, 0x8000_0000) {
        None => None,
        Some(v) => {
            if negative {
                Some((0 - (v as i64)) as i32)
            } else if v <= 0x7fff_ffff {
                Some(v as i32)
            } else {
                None
            }
        },
    }
}

/// Reads the coefficient written at `from..to`: digits only, possibly none.
pub fn read_count(text: &[char], from: usize, to: usize) -> (r: Option<i32>)
    requires
        from <= to <= text@.len(),
        all_digits(text@.subrange(from as int, to as int)),
    ensures
        r == count_value(text@.subrange(from as int, to as int)),
{
    if from == to {
        Some(1)
    } else {
        match read_digits(text, from, to, 0x7fff_ffff) {
            None => None,
            Some(v) => Some(v as i32),
        }
    }
}

/// The one-character text of a digit.
fn digit_str(d: u8) -> (r: &'static str)
    requires
        d < 10,
    ensures
        r@ == seq![digit_char(d as int)],
{
    proof {
        reveal_strlit("0");
        reveal_strlit("1");
        reveal_strlit("2");
        reveal_strlit("3");
        reveal_strlit("4");
        reveal_strlit("5");
        reveal_strlit("6");
        reveal_strlit("7");
        reveal_strlit("8");
        reveal_strlit("9");
    }
    let r = match d {
        0 => "0",
        1 => "1",
        2 => "2",
        3 => "3",
        4 => "4",
        5 => "5",
        6 => "6",
        7 => "7",
        8 => "8",
        _ => "9",
    };
    assert(r@ =~= seq![digit_char(d as int)]);
    r
}

/// Writes a natural number in decimal notation.
pub fn write_natural(n: u64) -> (r: String)
    ensures
        r@ == natural_text(n as nat),
    decreases n,
{
    if n < 10 {
        String::from_str(digit_str(n as u8))
    } else {
        let mut s = write_natural(n / 10);
        s.append(digit_str((n % 10) as u8));
        s
    }
}

/// Writes an integer in decimal notation.
pub fn write_i32(v: i32) -> (r: String)
    ensures
        r@ == integer_text(v as int),
{
    if v < 0 {
        proof {
            reveal_strlit("-");
        }
        let mut s = String::from_str("-");
        let m: u64 = (0 - (v as i64)) as u64;
        let digits = write_natural(m);
        s.append(digits.as_str());
        assert(s@ =~= seq!['-'] + natural_text((-v) as nat));
        s
    } else {
        write_natural(v as u64)
    }
}

} // verus!
