//! Integers in decimal and hexadecimal.

use crate::text::chars_of;
use vstd::prelude::*;
use vstd::string::StringExecFns;

verus! {

/// The character of the digit `d` in base ten or, in lower case, sixteen.
pub open spec fn digit_char(d: nat) -> char {
    if d < 10 {
        (0x30 + d) as char
    } else {
        (0x57 + d) as char
    }
}

/// `n` in decimal, without leading zeros.
pub open spec fn decimal(n: nat) -> Seq<char>
    decreases n,
{
    if n < 10 {
        seq![digit_char(n)]
    } else {
        decimal(n / 10).push(digit_char(n % 10))
    }
}

/// `n` in lower-case hexadecimal, without leading zeros.
pub open spec fn hexadecimal(n: nat) -> Seq<char>
    decreases n,
{
    if n < 16 {
        seq![digit_char(n)]
    } else {
        hexadecimal(n / 16).push(digit_char(n % 16))
    }
}

fn digit_str(d: u64) -> (r: &'static str)
    requires
        d < 16,
    ensures
        r@ == seq![digit_char(d as nat)],
{
    proof {
        reveal_strlit("0");
        reveal_strlit("1");
        reveal_strlit("2");
        reveal_strlit("3");
        reveal_strlit("4");
        reveal_strlit("5");
        reveal_strlit("6");
        reveal_strlit("7");
        reveal_strlit("8");
        reveal_strlit("9");
        reveal_strlit("a");
        reveal_strlit("b");
        reveal_strlit("c");
        reveal_strlit("d");
        reveal_strlit("e");
        reveal_strlit("f");
    }
    match d {
        0 => "0",
        1 => "1",
        2 => "2",
        3 => "3",
        4 => "4",
        5 => "5",
        6 => "6",
        7 => "7",
        8 => "8",
        9 => "9",
        10 => "a",
        11 => "b",
        12 => "c",
        13 => "d",
        14 => "e",
        _ => "f",
    }
}

/// Appends `n` in decimal.
pub(crate) fn push_decimal(out: &mut String, n: u64)
    ensures
        final(out)@ == old(out)@ + decimal(n as nat),
    decreases n,
{
    if n < 10 {
        out.append(digit_str(n));
    } else {
        push_decimal(out, n / 10);
        out.append(digit_str(n % 10));
        assert(out@ =~= old(out)@ + decimal(n as nat));
    }
}

/// Appends `n` in lower-case hexadecimal.
pub(crate) fn push_hexadecimal(out: &mut String, n: u64)
    ensures
        final(out)@ == old(out)@ + hexadecimal(n as nat),
    decreases n,
{
    if n < 16 {
        out.append(digit_str(n));
    } else {
        push_hexadecimal(out, n / 16);
        out.append(digit_str(n % 16));
        assert(out@ =~= old(out)@ + hexadecimal(n as nat));
    }
}

/// Whether `c` is one of the digits `0` to `9`.
pub open spec fn is_digit(c: char) -> bool {
    '0' <= c <= '9'
}

/// The number that a string of digits writes in decimal.
pub open spec fn digits_value(s: Seq<char>) -> nat
    decreases s.len(),
{
    if s.len() == 0 {
        0
    } else {
        (digits_value(s.drop_last()) * 10 + (s.last() as u32 - 0x30)) as nat
    }
}

/// Whether every character is a digit.
pub open spec fn all_digits(s: Seq<char>) -> bool {
    forall|i: int| 0 <= i < s.len() ==> is_digit(#[trigger] s[i])
}

/// `s` without the one `+` that it may start with.
pub open spec fn unsigned_part(s: Seq<char>) -> Seq<char> {
    if s.len() > 0 && s[0] == '+' {
        s.drop_first()
    } else {
        s
    }
}

/// The number that `s` writes: an optional `+`, then one digit or more, with a
/// value of at most 64 bits.
pub open spec fn parse_u64(s: Seq<char>) -> Option<u64> {
    let digits = unsigned_part(s);
    if digits.len() > 0 && all_digits(digits) && digits_value(digits) <= u64::MAX {
        Some(digits_value(digits) as u64)
    } else {
        None
    }
}

proof fn lemma_digits_value_grows(s: Seq<char>, k: int)
    requires
        0 <= k <= s.len(),
        all_digits(s),
    ensures
        digits_value(s.take(k)) <= digits_value(s),
    decreases s.len(),
{
    if k < s.len() {
        assert(all_digits(s.drop_last()));
        lemma_digits_value_grows(s.drop_last(), k);
        assert(s.drop_last().take(k) =~= s.take(k));
        assert(is_digit(s[s.len() - 1]));
    } else {
        assert(s.take(k) =~= s);
    }
}

/// Reads an unsigned integer.
pub(crate) fn read_u64(s: &str) -> (r: Option<u64>)
    ensures
        r == parse_u64(s@),
{
    let v = chars_of(s);
    let from: usize = if v.len() > 0 && v[0] == '+' {
        1
    } else {
        0
    };
    let n = v.len();
    let ghost digits = unsigned_part(s@);
    assert(digits =~= s@.skip(from as int));
    if from == n {
        return None;
    }
    let mut value: u64 = 0;
    let mut i: usize = from;
    while i < n
        invariant
            v@ == s@,
            n == v@.len(),
            from <= i <= n,
            digits == s@.skip(from as int),
            digits == unsigned_part(s@),
            forall|j: int| 0 <= j < i - from ==> is_digit(#[trigger] digits[j]),
            value == digits_value(digits.take(i - from)),
        decreases n - i,
    {
        let c = v[i];
        assert(digits[i - from] == c);
        if c < '0' || c > '9' {
            assert(!is_digit(digits[i - from]));
            return None;
        }
        let d: u64 = (c as u32 - 0x30) as u64;
        proof {
            let k = i - from;
            assert(digits.take(k + 1).drop_last() =~= digits.take(k));
            assert(digits_value(digits.take(k + 1)) == digits_value(digits.take(k)) * 10 + d);
            if all_digits(digits) {
                lemma_digits_value_grows(digits, k + 1);
            }
        }
        if value > (u64::MAX - d) / 10 {
            return None;
        }
        value = value * 10 + d;
        i = i + 1;
    }
    assert(digits.take(n - from) =~= digits);
    Some(value)
}

/// What a string of digits writes: nothing is zero, and a further digit makes
/// ten times as much and adds its own value.
pub proof fn law_digits_value(s: Seq<char>, c: char)
    requires
        0x30 <= c as int <= 0x39,
    ensures
        digits_value(Seq::<char>::empty()) == 0,
        digits_value(s.push(c)) == 10 * digits_value(s) + (c as int - 0x30),
{
    assert(s.push(c).drop_last() =~= s);
}

/// A text reads as a number if and only if it is one digit or more, with or
/// without one `+` in front, of a value that fits; it reads as that value.
pub proof fn law_parse_u64(s: Seq<char>)
    ensures
        s.len() > 0 && s[0] != '+' && (forall|i: int|
            0 <= i < s.len() ==> 0x30 <= (#[trigger] s[i]) as int <= 0x39) && digits_value(s)
            <= u64::MAX ==> parse_u64(s) == Some(digits_value(s) as u64),
        s.len() == 0 || (exists|i: int|
            0 <= i < s.len() && (i > 0 || s[0] != '+') && !(0x30 <= (#[trigger] s[i]) as int
                <= 0x39)) ==> parse_u64(s) is None,
        s.len() > 0 && s[0] != '+' && digits_value(s) > u64::MAX ==> parse_u64(s) is None,
        s.len() > 0 && s[0] != '+' ==> parse_u64(seq!['+'] + s) == parse_u64(s),
        parse_u64(seq!['+']) is None,
        parse_u64(seq!['+', '+'] + s) is None,
{
    assert((seq!['+'] + s).drop_first() =~= s);
    assert(seq!['+'].drop_first() =~= Seq::<char>::empty());
    let twice = (seq!['+', '+'] + s).drop_first();
    assert(twice[0] == '+');
    assert(!is_digit(twice[0]));
    if s.len() > 0 && exists|i: int|
        0 <= i < s.len() && (i > 0 || s[0] != '+') && !(0x30 <= (#[trigger] s[i]) as int <= 0x39) {
        let i = choose|i: int|
            0 <= i < s.len() && (i > 0 || s[0] != '+') && !(0x30 <= (#[trigger] s[i]) as int
                <= 0x39);
        let digits = unsigned_part(s);
        if s[0] == '+' {
            assert(digits[i - 1] == s[i]);
            assert(!is_digit(digits[i - 1]));
        } else {
            assert(!is_digit(digits[i]));
        }
    }
}

/// A numeral is made of digits, has the value of its number, and starts with a
/// zero only where it is nothing but that zero.
pub proof fn law_decimal(n: nat)
    ensures
        decimal(n).len() > 0,
        forall|i: int| 0 <= i < decimal(n).len() ==> 0x30 <= (#[trigger] decimal(n)[i]) as int
            <= 0x39,
        digits_value(decimal(n)) == n,
        decimal(n).len() > 1 <==> n >= 10,
        n >= 10 ==> decimal(n)[0] != '0',
    decreases n,
{
    lemma_decimal_digits(n);
    assert forall|i: int| 0 <= i < decimal(n).len() implies 0x30 <= (#[trigger] decimal(n)[i]) as int
        <= 0x39 by {
        assert(is_digit(decimal(n)[i]));
    }
    if n >= 10 {
        law_decimal(n / 10);
        assert(decimal(n)[0] == decimal(n / 10)[0]);
    }
}

/// The hexadecimal numeral of a byte: one of sixteen characters below 16, and
/// two of them from 16 up.
pub proof fn law_hexadecimal_byte(b: u8)
    ensures
        b < 16 ==> hexadecimal(b as nat) == seq!["0123456789abcdef"@[b as int]],
        b >= 16 ==> hexadecimal(b as nat) == seq![
            "0123456789abcdef"@[b as int / 16],
            "0123456789abcdef"@[b as int % 16],
        ],
{
    reveal_strlit("0123456789abcdef");
    reveal_with_fuel(hexadecimal, 3);
    if b >= 16 {
        assert(hexadecimal(b as nat) =~= seq![
            digit_char(b as nat / 16),
            digit_char(b as nat % 16),
        ]);
    }
}

/// A number in decimal reads as that number.
pub proof fn law_decimal_roundtrip(n: u64)
    ensures
        parse_u64(decimal(n as nat)) == Some(n),
{
    lemma_decimal_digits(n as nat);
}

/// A decimal numeral is made of digits, at least one of them, and has the
/// value of its number.
pub(crate) proof fn lemma_decimal_digits(n: nat)
    ensures
        decimal(n).len() > 0,
        all_digits(decimal(n)),
        digits_value(decimal(n)) == n,
    decreases n,
{
    if n < 10 {
        let s = decimal(n);
        assert(s.drop_last() =~= Seq::empty());
        assert(digits_value(s.drop_last()) == 0);
    } else {
        lemma_decimal_digits(n / 10);
        let s = decimal(n);
        assert(s.drop_last() =~= decimal(n / 10));
    }
}

} // verus!
