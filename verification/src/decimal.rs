//! Decimal text of integers.

use crate::chars::{chars_of, code_of};
use vstd::prelude::*;

verus! {

/// The character of a digit below ten.
pub open spec fn digit_char(d: int) -> char {
    (48 + d) as char
}

/// The decimal digits of a natural number, without leading zeros.
pub open spec fn digits(n: nat) -> Seq<char>
    decreases n,
{
    if n < 10 {
        seq![digit_char(n as int)]
    } else {
        digits(n / 10).push(digit_char((n % 10) as int))
    }
}

/// The decimal text of an integer.
pub open spec fn integer_text(i: int) -> Seq<char> {
    if i < 0 {
        seq!['-'] + digits((-i) as nat)
    } else {
        digits(i as nat)
    }
}

pub open spec fn is_digit(ch: char) -> bool {
    48 <= ch as int <= 57
}

/// All of `s` are digits, and there is at least one.
pub open spec fn all_digits(s: Seq<char>) -> bool {
    s.len() > 0 && forall|i: int| 0 <= i < s.len() ==> is_digit(#[trigger] s[i])
}

/// The number that digits spell.
pub open spec fn digits_value(s: Seq<char>) -> int
    decreases s.len(),
{
    if s.len() == 0 {
        0
    } else {
        digits_value(s.drop_last()) * 10 + (s.last() as int - 48)
    }
}

/// The integer that a text spells: an optional sign, then digits.
pub open spec fn parsed_integer(s: Seq<char>) -> Option<int> {
    if s.len() > 0 && s[0] == '-' && all_digits(s.skip(1)) {
        Some(-digits_value(s.skip(1)))
    } else if s.len() > 0 && s[0] == '+' && all_digits(s.skip(1)) {
        Some(digits_value(s.skip(1)))
    } else if all_digits(s) {
        Some(digits_value(s))
    } else {
        None
    }
}

/// The integer that a text spells where it fits in 64 bits with a sign.
pub open spec fn parsed_i64(s: Seq<char>) -> Option<i64> {
    match parsed_integer(s) {
        Some(v) => if i64::MIN <= v <= i64::MAX {
            Some(v as i64)
        } else {
            None
        },
        None => None,
    }
}

proof fn digits_spell(n: nat)
    ensures
        all_digits(digits(n)),
        digits_value(digits(n)) == n,
    decreases n,
{
    if n >= 10 {
        digits_spell(n / 10);
        assert(digits(n).drop_last() == digits(n / 10));
        assert forall|i: int| 0 <= i < digits(n).len() implies is_digit(#[trigger] digits(n)[i]) by {
            if i < digits(n).len() - 1 {
                assert(digits(n)[i] == digits(n / 10)[i]);
            }
        }
    } else {
        assert(digits(n).drop_last() == Seq::<char>::empty());
        assert(digits_value(Seq::<char>::empty()) == 0);
    }
}

/// The digits of a number spell it: they are decimal digits, the last is the rest by ten and the
/// others spell the tenth, and only zero begins with a zero.
pub proof fn digits_spell_the_number(n: nat)
    ensures
        digits(n).len() > 0,
        forall|i: int| 0 <= i < digits(n).len() ==> '0' <= #[trigger] digits(n)[i] && digits(n)[i] <= '9',
        digits(n).last() as int == 48 + n % 10,
        n >= 10 ==> digits(n).drop_last() == digits(n / 10),
        n < 10 ==> digits(n).len() == 1,
        n > 0 ==> digits(n)[0] != '0',
    decreases n,
{
    digits_spell(n);
    assert forall|i: int| 0 <= i < digits(n).len() implies '0' <= #[trigger] digits(n)[i] && digits(n)[i] <= '9' by {
        assert(is_digit(digits(n)[i]));
    }
    if n >= 10 {
        digits_spell_the_number(n / 10);
        assert(digits(n).drop_last() == digits(n / 10));
    }
}

/// Reading the decimal text of an integer gives the integer back.
pub proof fn parse_reads_integer_text(i: i64)
    ensures
        parsed_i64(integer_text(i as int)) == Some(i),
{
    let s = integer_text(i as int);
    if i < 0 {
        digits_spell((-i) as nat);
        assert(s.skip(1) == digits((-i) as nat));
    } else {
        digits_spell(i as nat);
        assert(is_digit(s[0]));
    }
}

/// The character of a digit below ten.
fn digit_of(d: u64) -> (out: char)
    requires
        d < 10,
    ensures
        out == digit_char(d as int),
{
    if d == 0 { '0' } else if d == 1 { '1' } else if d == 2 { '2' } else if d == 3 { '3' }
    else if d == 4 { '4' } else if d == 5 { '5' } else if d == 6 { '6' } else if d == 7 { '7' }
    else if d == 8 { '8' } else { '9' }
}

/// The decimal text of an unsigned integer.
pub fn decimal_u64(n: u64) -> (out: String)
    ensures
        out@ == digits(n as nat),
    decreases n,
{
    let mut out = if n < 10 { String::new() } else { decimal_u64(n / 10) };
    out.push(digit_of(n % 10));
    proof {
        if n < 10 {
            assert(out@ == seq![digit_char(n as int)]);
        }
    }
    out
}

/// The decimal text of a length.
pub fn decimal_usize(n: usize) -> (out: String)
    ensures
        out@ == digits(n as nat),
{
    decimal_u64(n as u64)
}

/// The decimal text of an integer.
pub fn decimal_i64(i: i64) -> (out: String)
    ensures
        out@ == integer_text(i as int),
{
    if i >= 0 {
        return decimal_u64(i as u64);
    }
    let magnitude: u64 = (-(i as i128)) as u64;
    let mut out = String::new();
    out.push('-');
    out.append(decimal_u64(magnitude).as_str());
    out
}

/// The integer that digits from `from` on spell, where it is at most two to the power 63.
fn read_digits(chars: &Vec<char>, from: usize) -> (out: Option<u64>)
    requires
        from <= chars.len(),
    ensures
        match out {
            Some(v) => all_digits(chars@.skip(from as int)) && digits_value(chars@.skip(from as int)) == v
                && v <= 0x8000_0000_0000_0000,
            None => !all_digits(chars@.skip(from as int)) || digits_value(chars@.skip(from as int)) > 0x8000_0000_0000_0000,
        },
{
    let ghost s = chars@.skip(from as int);
    if from == chars.len() {
        return None;
    }
    let mut value: u64 = 0;
    let mut i: usize = from;
    assert(s.take(0) == Seq::<char>::empty());
    while i < chars.len()
        invariant
            from <= i <= chars.len(),
            s == chars@.skip(from as int),
            value == digits_value(s.take(i - from)),
            value <= 0x8000_0000_0000_0000,
            forall|k: int| 0 <= k < i - from ==> is_digit(#[trigger] s[k]),
        decreases chars.len() - i,
    {
        let code: u32 = code_of(chars[i]);
        assert(s[i - from] == chars@[i as int]);
        if code < 48 || code > 57 {
            assert(!is_digit(s[i - from]));
            return None;
        }
        let d: u64 = (code - 48) as u64;
        proof {
            assert(s.take(i - from + 1).drop_last() == s.take(i - from));
            assert(s.take(i - from + 1).last() == chars@[i as int]);
        }
        if value > 922337203685477580 || value * 10 + d > 0x8000_0000_0000_0000 {
            proof {
                digits_value_grows(s, i - from + 1);
            }
            return None;
        }
        value = value * 10 + d;
        i = i + 1;
    }
    assert(s.take(s.len() as int) == s);
    Some(value)
}

/// A prefix of digits spells no more than the whole.
proof fn digits_value_grows(s: Seq<char>, k: int)
    requires
        0 <= k <= s.len(),
    ensures
        all_digits(s) ==> 0 <= digits_value(s.take(k)) <= digits_value(s),
    decreases s.len() - k, s.len(),
{
    if all_digits(s) {
        if k == s.len() {
            assert(s.take(k) == s);
            digits_value_nonnegative(s);
        } else {
            digits_value_nonnegative(s.take(k));
            let t = s.take(k + 1);
            assert(t.drop_last() == s.take(k));
            assert(is_digit(s[k]));
            assert(t.last() == s[k]);
            digits_value_grows(s, k + 1);
        }
    }
}

proof fn digits_value_nonnegative(s: Seq<char>)
    requires
        forall|i: int| 0 <= i < s.len() ==> is_digit(#[trigger] s[i]),
    ensures
        digits_value(s) >= 0,
    decreases s.len(),
{
    if s.len() > 0 {
        assert(is_digit(s[s.len() - 1]));
        assert forall|i: int| 0 <= i < s.drop_last().len() implies is_digit(#[trigger] s.drop_last()[i]) by {
            assert(s.drop_last()[i] == s[i]);
        }
        digits_value_nonnegative(s.drop_last());
    }
}

/// Digits are read as the number they spell, a sign before them as its sign, and nothing else is a
/// number.
pub proof fn signs_are_read(s: Seq<char>)
    ensures
        all_digits(s) ==> parsed_integer(s) == Some(digits_value(s)),
        all_digits(s) ==> parsed_integer(seq!['+'] + s) == Some(digits_value(s)),
        all_digits(s) ==> parsed_integer(seq!['-'] + s) == Some(-digits_value(s)),
        s.len() > 0 && !(48 <= s.last() as int <= 57) ==> parsed_integer(s) is None,
        forall|i: int| 0 < i < s.len() && !(48 <= (#[trigger] s[i]) as int <= 57) ==> parsed_integer(s) is None,
        s.len() > 0 && s[0] != '+' && s[0] != '-' && !(48 <= s[0] as int <= 57) ==> parsed_integer(s) is None,
        parsed_integer(Seq::empty()) is None,
{
    assert((seq!['+'] + s).skip(1) == s);
    assert((seq!['-'] + s).skip(1) == s);
    if all_digits(s) {
        assert(is_digit(s[0]));
        assert(!is_digit((seq!['+'] + s)[0]));
        assert(!is_digit((seq!['-'] + s)[0]));
    }
    assert forall|i: int| 0 < i < s.len() && !(48 <= (#[trigger] s[i]) as int <= 57) implies parsed_integer(s) is None by {
        assert(s.skip(1)[i - 1] == s[i]);
        assert(!all_digits(s.skip(1)));
        assert(!all_digits(s));
    }
    if s.len() > 0 && !(48 <= s.last() as int <= 57) {
        assert(s[s.len() - 1] == s.last());
        if s.len() == 1 {
            assert(s.skip(1).len() == 0);
        }
    }
}

/// Reads an integer: an optional sign and digits, nothing else, within 64 bits.
pub fn parse_i64(text: &str) -> (out: Option<i64>)
    ensures
        out == parsed_i64(text@),
        text@.len() == 0 ==> out is None,
        forall|i: i64| text@ == #[trigger] integer_text(i as int) ==> out == Some(i),
{
    proof {
        assert forall|i: i64| text@ == #[trigger] integer_text(i as int) implies parsed_i64(text@) == Some(i) by {
            parse_reads_integer_text(i);
        }
    }
    let chars = chars_of(text);
    if chars.len() == 0 {
        return None;
    }
    let signed = chars[0] == '-' || chars[0] == '+';
    let from: usize = if signed { 1 } else { 0 };
    proof {
        assert(chars@.skip(0) == chars@);
        if signed {
            assert(!is_digit(text@[0]));
        }
    }
    match read_digits(&chars, from) {
        None => {
            proof {
                if all_digits(text@.skip(from as int)) {
                    digits_value_nonnegative(text@.skip(from as int));
                }
            }
            None
        },
        Some(v) => if chars[0] == '-' {
            Some((-(v as i128)) as i64)
        } else if v <= 0x7fff_ffff_ffff_ffff {
            Some(v as i64)
        } else {
            None
        },
    }
}

} // verus!
