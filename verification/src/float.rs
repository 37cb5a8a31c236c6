//! The texts that write a floating-point number, and the products of such
//! numbers.

use crate::double::{
    are_digits, digits_product, double_product, lemma_large_decimal, lemma_leading_digit,
    lemma_small_decimal, lemma_ten_positive, lemma_value_concat, lemma_value_zero,
    lemma_zero_product, law_whole_products, saturated, ten, value_of, FACTOR_MAX, TWO_53,
};
use crate::number::{
    all_digits, decimal, digits_value, is_digit, lemma_decimal_digits, parse_u64, unsigned_part,
};
use crate::text::{chars_of, str_eq};
use vstd::prelude::*;
use vstd::string::StrSliceExecFns;

verus! {

/// The first place of `c` in `s`, or the length of `s`.
pub open spec fn place(s: Seq<char>, c: char) -> int
    decreases s.len(),
{
    if s.len() == 0 || s[0] == c {
        0
    } else {
        1 + place(s.drop_first(), c)
    }
}

/// `s` without the one sign that it may start with.
pub open spec fn without_sign(s: Seq<char>) -> Seq<char> {
    if s.len() > 0 && (s[0] == '+' || s[0] == '-') {
        s.drop_first()
    } else {
        s
    }
}

/// Whether `s` is one digit or more.
pub open spec fn is_digits(s: Seq<char>) -> bool {
    s.len() > 0 && all_digits(s)
}

/// `s` without the first point in it.
pub open spec fn point_free(s: Seq<char>) -> Seq<char> {
    let j = place(s, '.');
    if j < s.len() {
        s.take(j) + s.skip(j + 1)
    } else {
        s
    }
}

/// The number of characters behind the first point in `s`.
pub open spec fn fraction_len(s: Seq<char>) -> int {
    let j = place(s, '.');
    if j < s.len() {
        s.len() - j - 1
    } else {
        0
    }
}

/// Whether `s` is nothing, or an `e` and an integer with or without a sign.
pub open spec fn is_exponent(s: Seq<char>) -> bool {
    s.len() == 0 || (s[0] == 'e' && is_digits(without_sign(s.drop_first())))
}

/// The integer in an exponent.
pub open spec fn exponent_value(s: Seq<char>) -> int {
    if s.len() == 0 {
        0
    } else {
        let size = digits_value(without_sign(s.drop_first())) as int;
        if s.len() > 1 && s[1] == '-' {
            -size
        } else {
            size
        }
    }
}

/// Whether `s` is a decimal number: digits, at least one, with at most one
/// point among or beside them, and at most one exponent behind them.
pub open spec fn is_decimal(s: Seq<char>) -> bool {
    let k = place(s, 'e');
    is_digits(point_free(s.take(k))) && is_exponent(s.skip(k))
}

/// Whether `s`, in lower case, writes a floating-point number: a decimal
/// number, an infinity, or not-a-number, each with or without a sign.
pub open spec fn is_float(s: Seq<char>) -> bool {
    let t = without_sign(s);
    t == "inf"@ || t == "infinity"@ || t == "nan"@ || is_decimal(t)
}

/// The whole part of the product of a decimal number and `factor`, in double
/// precision.
pub open spec fn decimal_product(s: Seq<char>, factor: nat) -> nat {
    let k = place(s, 'e');
    let digits = digits_value(point_free(s.take(k)));
    let power = exponent_value(s.skip(k)) - fraction_len(s.take(k));
    if power >= 0 {
        double_product(digits * ten(power as nat), 1, factor)
    } else {
        double_product(digits, ten((-power) as nat), factor)
    }
}

/// The product of a floating-point number and `factor` as an unsigned integer:
/// without its fraction, and within the bounds of the type.  Not-a-number
/// gives zero.
pub open spec fn float_product(s: Seq<char>, factor: nat) -> u64 {
    let t = without_sign(s);
    if s.len() > 0 && s[0] == '-' {
        0
    } else if t == "nan"@ {
        0
    } else if t == "inf"@ || t == "infinity"@ {
        u64::MAX
    } else {
        saturated(decimal_product(t, factor))
    }
}

proof fn lemma_place(s: Seq<char>, c: char, k: int)
    requires
        0 <= k <= s.len(),
        k < s.len() ==> s[k] == c,
        forall|j: int| 0 <= j < k ==> s[j] != c,
    ensures
        place(s, c) == k,
    decreases s.len(),
{
    if k > 0 {
        lemma_place(s.drop_first(), c, k - 1);
    }
}

/// The first place of `c` before `to`, or `to`.
fn find_char(v: &Vec<char>, to: usize, c: char) -> (r: usize)
    requires
        to <= v@.len(),
    ensures
        r == place(v@.take(to as int), c),
        r <= to,
{
    let mut i: usize = 0;
    while i < to && v[i] != c
        invariant
            i <= to <= v@.len(),
            forall|j: int| 0 <= j < i ==> v@[j] != c,
        decreases to - i,
    {
        i = i + 1;
    }
    proof {
        lemma_place(v@.take(to as int), c, i as int);
    }
    i
}

/// The digits that digit characters stand for.
pub open spec fn digits_of(s: Seq<char>) -> Seq<u8> {
    Seq::new(s.len(), |i: int| (s[i] as u32 - 0x30) as u8)
}

proof fn lemma_digits_of(s: Seq<char>)
    requires
        all_digits(s),
    ensures
        are_digits(digits_of(s)),
        value_of(digits_of(s)) == digits_value(s),
    decreases s.len(),
{
    assert forall|i: int| 0 <= i < s.len() implies #[trigger] digits_of(s)[i] < 10 by {
        assert(is_digit(s[i]));
    }
    if s.len() > 0 {
        let init = s.drop_last();
        assert forall|i: int| 0 <= i < init.len() implies is_digit(#[trigger] init[i]) by {
            assert(is_digit(s[i]));
        }
        lemma_digits_of(init);
        assert(digits_of(s).drop_last() =~= digits_of(init));
        assert(is_digit(s[s.len() - 1]));
    }
}

/// The digits of a mantissa of `k` characters with its point at place `j`, if
/// they are digits and there is one.
fn mantissa_digits(v: &Vec<char>, k: usize, j: usize) -> (r: Option<Vec<u8>>)
    requires
        j <= k <= v@.len(),
        j == place(v@.take(k as int), '.'),
    ensures
        match r {
            Some(d) => is_digits(point_free(v@.take(k as int))) && d@ == digits_of(
                point_free(v@.take(k as int)),
            ),
            None => !is_digits(point_free(v@.take(k as int))),
        },
{
    let ghost m = v@.take(k as int);
    let ghost free = point_free(m);
    let mut out: Vec<u8> = Vec::new();
    let mut i: usize = 0;
    while i < k
        invariant
            i <= k <= v@.len(),
            j <= k,
            j == place(m, '.'),
            m == v@.take(k as int),
            free == point_free(m),
            out@.len() == (if i <= j {
                i as int
            } else {
                i - 1
            }),
            forall|l: int| 0 <= l < out@.len() ==> is_digit(#[trigger] free[l]),
            forall|l: int| 0 <= l < out@.len() ==> #[trigger] out@[l] == digits_of(free)[l],
        decreases k - i,
    {
        if i != j {
            let c = v[i];
            assert(free[out@.len() as int] == c);
            if c < '0' || c > '9' {
                assert(!is_digit(free[out@.len() as int]));
                return None;
            }
            out.push((c as u32 - 0x30) as u8);
        }
        i = i + 1;
    }
    assert(out@.len() == free.len());
    if out.len() == 0 {
        return None;
    }
    assert(out@ =~= digits_of(free));
    Some(out)
}

/// No exponent is read beyond this size.
const EXPONENT_CAP: u128 = 0x40_0000_0000_0000_0000;

/// The integer in the exponent from place `k` on, if it is one: whether it is
/// negative, and its size, up to a limit.
fn read_exponent(v: &Vec<char>, k: usize) -> (r: Option<(bool, u128)>)
    requires
        k <= v@.len(),
    ensures
        match r {
            Some((negative, size)) => {
                &&& is_exponent(v@.skip(k as int))
                &&& size <= EXPONENT_CAP
                &&& size < EXPONENT_CAP ==> exponent_value(v@.skip(k as int)) == (if negative {
                    -size
                } else {
                    size as int
                })
                &&& size == EXPONENT_CAP ==> (if negative {
                    exponent_value(v@.skip(k as int)) <= -size
                } else {
                    exponent_value(v@.skip(k as int)) >= size
                })
            },
            None => !is_exponent(v@.skip(k as int)),
        },
{
    let n = v.len();
    if k == n {
        return Some((false, 0));
    }
    let ghost x = v@.skip(k as int);
    if v[k] != 'e' {
        return None;
    }
    let signed = k + 1 < n && (v[k + 1] == '+' || v[k + 1] == '-');
    let negative = k + 1 < n && v[k + 1] == '-';
    let from: usize = if signed {
        k + 2
    } else {
        k + 1
    };
    let ghost digits = without_sign(x.drop_first());
    assert(digits =~= v@.skip(from as int));
    if from == n {
        return None;
    }
    let mut size: u128 = 0;
    let mut i: usize = from;
    assert(digits.take(0) =~= Seq::empty());
    while i < n
        invariant
            from <= i <= n == v@.len(),
            digits == v@.skip(from as int),
            forall|j: int| 0 <= j < i - from ==> is_digit(#[trigger] digits[j]),
            size <= EXPONENT_CAP,
            size < EXPONENT_CAP ==> size == digits_value(digits.take(i - from)),
            size == EXPONENT_CAP ==> size <= digits_value(digits.take(i - from)),
            x == v@.skip(k as int),
            digits == without_sign(x.drop_first()),
            k < from,
        decreases n - i,
    {
        let c = v[i];
        assert(digits[i - from] == c);
        if c < '0' || c > '9' {
            assert(!is_digit(digits[i - from]));
            return None;
        }
        let d: u128 = (c as u32 - 0x30) as u128;
        assert(digits.take(i - from + 1).drop_last() =~= digits.take(i - from));
        size = size * 10 + d;
        if size > EXPONENT_CAP {
            size = EXPONENT_CAP;
        }
        i = i + 1;
    }
    assert(digits.take(n - from) =~= digits);
    Some((negative, size))
}

fn first_nonzero(d: &Vec<u8>) -> (r: usize)
    ensures
        r <= d@.len(),
        r < d@.len() ==> d@[r as int] != 0,
        forall|i: int| 0 <= i < r ==> #[trigger] d@[i] == 0,
{
    let mut i: usize = 0;
    while i < d.len() && d[i] == 0
        invariant
            i <= d@.len(),
            forall|j: int| 0 <= j < i ==> #[trigger] d@[j] == 0,
        decreases d@.len() - i,
    {
        i = i + 1;
    }
    i
}

/// Appends `n` zeros.
fn push_zeros(d: &mut Vec<u8>, n: usize)
    requires
        are_digits(old(d)@),
        n <= 64,
    ensures
        are_digits(final(d)@),
        final(d)@.len() == old(d)@.len() + n,
        value_of(final(d)@) == value_of(old(d)@) * ten(n as nat),
{
    let mut i: usize = 0;
    assert(value_of(d@) * 1 == value_of(d@));
    while i < n
        invariant
            i <= n,
            are_digits(d@),
            d@.len() == old(d)@.len() + i,
            value_of(d@) == value_of(old(d)@) * ten(i as nat),
        decreases n - i,
    {
        let ghost before = d@;
        d.push(0);
        proof {
            assert(d@.drop_last() =~= before);
            let v = value_of(old(d)@);
            let t = ten(i as nat);
            assert((v * t) * 10 == v * (10 * t)) by (nonlinear_arith);
            assert(ten((i + 1) as nat) == 10 * t);
        }
        i = i + 1;
    }
}

/// The product of `factor` and the number that `digits` write with a point
/// `pos` places behind their start, where the first digit is near the point.
fn placed_product(digits: Vec<u8>, pos: i128, factor: u64) -> (r: u64)
    requires
        are_digits(digits@),
        -64 <= pos <= digits@.len() + 64,
        1 <= factor <= FACTOR_MAX,
    ensures
        r == saturated(
            if pos >= digits@.len() {
                double_product(
                    value_of(digits@) * ten((pos - digits@.len()) as nat),
                    1,
                    factor as nat,
                )
            } else {
                double_product(
                    value_of(digits@),
                    ten((digits@.len() - pos) as nat),
                    factor as nat,
                )
            },
        ),
{
    let n = digits.len();
    let mut all: Vec<u8> = Vec::new();
    if pos < 0 {
        push_zeros(&mut all, (-pos) as usize);
        let ghost zeros = all@;
        let mut tail = digits;
        all.append(&mut tail);
        proof {
            assert(value_of(Seq::<u8>::empty()) == 0);
            assert(0 * ten((-pos) as nat) == 0);
            lemma_value_concat(zeros, digits@);
            assert(0 * ten(digits@.len()) == 0);
            assert forall|i: int| 0 <= i < all@.len() implies #[trigger] all@[i] < 10 by {
                if i < zeros.len() {
                    assert(zeros[i] < 10);
                } else {
                    assert(digits@[i - zeros.len()] < 10);
                }
            }
        }
        digits_product(&all, 0, factor)
    } else if pos > n as i128 {
        let extra = (pos - n as i128) as usize;
        let mut all = digits;
        push_zeros(&mut all, extra);
        let end = all.len();
        assert(ten(0) == 1);
        digits_product(&all, end, factor)
    } else {
        assert(value_of(digits@) * 1 == value_of(digits@));
        assert(ten(0) == 1);
        digits_product(&digits, pos as usize, factor)
    }
}

/// The product of `factor` and the decimal number that `v` writes, if it
/// writes one.
fn scaled_decimal(v: &Vec<char>, factor: u64) -> (r: Option<u64>)
    requires
        1 <= factor <= FACTOR_MAX,
    ensures
        match r {
            Some(product) => is_decimal(v@) && product == saturated(
                decimal_product(v@, factor as nat),
            ),
            None => !is_decimal(v@),
        },
{
    let n = v.len();
    let k = find_char(v, n, 'e');
    assert(v@.take(n as int) =~= v@);
    let j = find_char(v, k, '.');
    let ghost m = v@.take(k as int);
    let ghost exponent = exponent_value(v@.skip(k as int));
    let digits = match mantissa_digits(v, k, j) {
        Some(digits) => digits,
        None => return None,
    };
    let (negative, size) = match read_exponent(v, k) {
        Some(found) => found,
        None => return None,
    };
    let len = digits.len();
    let ghost d = value_of(digits@);
    let ghost power = exponent - fraction_len(m);
    proof {
        lemma_digits_of(point_free(m));
        assert(j + fraction_len(m) == len);
    }
    let lead = first_nonzero(&digits);
    if lead == len {
        proof {
            lemma_value_zero(digits@);
            assert(0 * ten(power as nat) == 0);
            lemma_zero_product(1, factor as nat);
            lemma_ten_positive((-power) as nat);
            lemma_zero_product(ten((-power) as nat), factor as nat);
        }
        return Some(0);
    }
    proof {
        lemma_leading_digit(digits@, lead as int);
    }
    let pos: i128 = if negative {
        j as i128 - size as i128
    } else {
        j as i128 + size as i128
    };
    if pos - lead as i128 > 20 {
        proof {
            let a = (len - lead - 1) as nat;
            assert(power >= pos - len);
            if power >= 0 {
                assert(ten(0) == 1);
                lemma_large_decimal(d, a, power as nat, 0, factor as nat);
            } else {
                assert(ten(0) == 1);
                assert(d * 1 == d);
                lemma_large_decimal(d, a, 0, (-power) as nat, factor as nat);
            }
        }
        return Some(u64::MAX);
    }
    if pos - (lead as i128) < -9 {
        proof {
            assert(power <= pos - len);
            lemma_small_decimal(d, (len - lead) as nat, (-power) as nat, factor as nat);
        }
        return Some(0);
    }
    assert(size < EXPONENT_CAP);
    assert(power == pos - len);
    Some(placed_product(digits, pos, factor))
}

/// The product of a floating-point number, written in lower case, and
/// `factor`; nothing where `s` writes no number.
pub fn scaled_float(s: &str, factor: u64) -> (r: Option<u64>)
    requires
        1 <= factor <= FACTOR_MAX,
    ensures
        r == (if is_float(s@) {
            Some(float_product(s@, factor as nat))
        } else {
            None
        }),
{
    let whole = chars_of(s);
    let negative = whole.len() > 0 && whole[0] == '-';
    let from: usize = if negative || (whole.len() > 0 && whole[0] == '+') {
        1
    } else {
        0
    };
    let t = s.substring_char(from, whole.len());
    assert(t@ =~= without_sign(s@));
    proof {
        reveal_strlit("nan");
        reveal_strlit("inf");
        reveal_strlit("infinity");
    }
    if str_eq(t, "nan") {
        return Some(0);
    }
    if str_eq(t, "inf") || str_eq(t, "infinity") {
        return Some(
            if negative {
                0
            } else {
                u64::MAX
            },
        );
    }
    let v = chars_of(t);
    match scaled_decimal(&v, factor) {
        Some(product) => Some(
            if negative {
                0
            } else {
                product
            },
        ),
        None => None,
    }
}

/// A `+` in front changes nothing, a `-` makes the product zero, and there is no
/// second sign.
pub proof fn law_float_signs(t: Seq<char>, factor: nat)
    ensures
        t.len() == 0 || (t[0] != '+' && t[0] != '-') ==> {
            &&& is_float(seq!['+'] + t) == is_float(t)
            &&& is_float(seq!['-'] + t) == is_float(t)
            &&& float_product(seq!['+'] + t, factor) == float_product(t, factor)
            &&& float_product(seq!['-'] + t, factor) == 0
        },
        t.len() > 0 && (t[0] == '+' || t[0] == '-') ==> !is_float(seq!['+'] + t) && !is_float(
            seq!['-'] + t,
        ),
        !is_float(Seq::<char>::empty()),
{
    assert((seq!['+'] + t).drop_first() =~= t);
    assert((seq!['-'] + t).drop_first() =~= t);
    reveal_strlit("nan");
    reveal_strlit("inf");
    reveal_strlit("infinity");
    if t.len() > 0 && (t[0] == '+' || t[0] == '-') {
        assert("nan"@[0] == 'n' && "inf"@[0] == 'i' && "infinity"@[0] == 'i');
        if is_decimal(t) {
            let k = place(t, 'e');
            lemma_place_found(t, 'e');
            let m = t.take(k);
            lemma_place_found(m, '.');
            let free = point_free(m);
            assert(k > 0);
            assert(m[0] == t[0]);
            assert(place(m, '.') > 0);
            assert(free[0] == t[0]);
            assert(!is_digit(free[0]));
        }
    }
    let none = Seq::<char>::empty();
    assert(none.take(place(none, 'e')) =~= none);
}

/// An infinity gives the largest integer, and not-a-number gives zero.
pub proof fn law_float_specials(factor: nat)
    ensures
        is_float("inf"@),
        is_float("infinity"@),
        is_float("nan"@),
        float_product("inf"@, factor) == 0xFFFF_FFFF_FFFF_FFFF,
        float_product("infinity"@, factor) == 0xFFFF_FFFF_FFFF_FFFF,
        float_product("nan"@, factor) == 0,
{
    reveal_strlit("nan");
    reveal_strlit("inf");
    reveal_strlit("infinity");
    assert("nan"@[0] == 'n' && "inf"@[0] == 'i' && "infinity"@[0] == 'i');
}

proof fn lemma_place_found(s: Seq<char>, c: char)
    ensures
        0 <= place(s, c) <= s.len(),
        place(s, c) < s.len() ==> s[place(s, c)] == c,
        forall|j: int| 0 <= j < place(s, c) ==> #[trigger] s[j] != c,
    decreases s.len(),
{
    if s.len() > 0 && s[0] != c {
        let rest = s.drop_first();
        lemma_place_found(rest, c);
        assert forall|j: int| 0 <= j < place(s, c) implies #[trigger] s[j] != c by {
            if j > 0 {
                assert(rest[j - 1] == s[j]);
            }
        }
    }
}

/// Digits before and behind a point, at least one of them, and behind an `e` a
/// power of ten with or without a sign: that writes a number, and the product
/// is that of the digits, with the point moved behind the last of them, and of
/// the power of ten that is left.
pub proof fn law_float_decimals(
    whole: Seq<char>,
    point: Seq<char>,
    fraction: Seq<char>,
    e: Seq<char>,
    sign: Seq<char>,
    exponent: Seq<char>,
    factor: nat,
)
    requires
        forall|i: int| 0 <= i < whole.len() ==> 0x30 <= (#[trigger] whole[i]) as int <= 0x39,
        forall|i: int| 0 <= i < fraction.len() ==> 0x30 <= (#[trigger] fraction[i]) as int <= 0x39,
        forall|i: int| 0 <= i < exponent.len() ==> 0x30 <= (#[trigger] exponent[i]) as int <= 0x39,
        whole.len() + fraction.len() > 0,
        point == seq!['.'] || (point.len() == 0 && fraction.len() == 0),
        (e == seq!['e'] && exponent.len() > 0 && (sign.len() == 0 || sign == seq!['+'] || sign
            == seq!['-'])) || (e.len() == 0 && sign.len() == 0 && exponent.len() == 0),
    ensures
        is_float(whole + point + fraction + e + sign + exponent),
        ({
            let digits = digits_value(whole + fraction);
            let size = digits_value(exponent) as int;
            let power = (if sign == seq!['-'] {
                -size
            } else {
                size
            }) - fraction.len();
            float_product(whole + point + fraction + e + sign + exponent, factor) == saturated(
                if power >= 0 {
                    double_product(digits * ten(power as nat), 1, factor)
                } else {
                    double_product(digits, ten((-power) as nat), factor)
                },
            )
        }),
{
    let m = whole + point + fraction;
    let tail = e + sign + exponent;
    let t = whole + point + fraction + e + sign + exponent;
    assert(t =~= m + tail);
    assert(m.len() > 0);
    assert(m[0] == t[0]);
    if whole.len() > 0 {
        assert(m[0] == whole[0]);
    } else {
        assert(m[0] == '.');
    }
    assert(without_sign(t) == t);
    reveal_strlit("nan");
    reveal_strlit("inf");
    reveal_strlit("infinity");
    assert("nan"@[0] == 'n' && "inf"@[0] == 'i' && "infinity"@[0] == 'i');
    assert forall|j: int| 0 <= j < m.len() implies m[j] != 'e' by {
        if j < whole.len() {
            assert(m[j] == whole[j]);
        } else if j >= whole.len() + point.len() {
            assert(m[j] == fraction[j - whole.len() - point.len()]);
        }
    }
    assert forall|j: int| 0 <= j < m.len() implies t[j] != 'e' by {
        assert(t[j] == m[j]);
    }
    if e.len() > 0 {
        assert(t[m.len() as int] == e[0]);
    }
    lemma_place(t, 'e', m.len() as int);
    assert(t.take(m.len() as int) =~= m);
    assert(t.skip(m.len() as int) =~= tail);
    assert forall|j: int| 0 <= j < whole.len() implies m[j] != '.' by {
        assert(m[j] == whole[j]);
    }
    if point.len() > 0 {
        assert(m[whole.len() as int] == point[0]);
    }
    lemma_place(m, '.', whole.len() as int);
    let free = point_free(m);
    assert(free =~= whole + fraction);
    assert forall|i: int| 0 <= i < free.len() implies is_digit(#[trigger] free[i]) by {
        if i < whole.len() {
            assert(free[i] == whole[i]);
        } else {
            assert(free[i] == fraction[i - whole.len()]);
        }
    }
    assert(fraction_len(m) == fraction.len());
    lemma_exponent_part(e, sign, exponent);
}

proof fn lemma_exponent_part(e: Seq<char>, sign: Seq<char>, exponent: Seq<char>)
    requires
        forall|i: int| 0 <= i < exponent.len() ==> 0x30 <= (#[trigger] exponent[i]) as int <= 0x39,
        (e == seq!['e'] && exponent.len() > 0 && (sign.len() == 0 || sign == seq!['+'] || sign
            == seq!['-'])) || (e.len() == 0 && sign.len() == 0 && exponent.len() == 0),
    ensures
        is_exponent(e + sign + exponent),
        exponent_value(e + sign + exponent) == (if sign == seq!['-'] {
            -(digits_value(exponent) as int)
        } else {
            digits_value(exponent) as int
        }),
{
    let x = e + sign + exponent;
    if e.len() > 0 {
        let rest = x.drop_first();
        assert(rest =~= sign + exponent);
        if sign.len() > 0 {
            assert(rest[0] == sign[0]);
            assert(x[1] == sign[0]);
            assert(rest.drop_first() =~= exponent);
        } else {
            assert(rest =~= exponent);
            assert(x[1] == exponent[0]);
        }
        assert(without_sign(rest) == exponent);
        assert forall|i: int| 0 <= i < exponent.len() implies is_digit(#[trigger] exponent[i]) by {
            assert(0x30 <= exponent[i] as int <= 0x39);
        }
    } else {
        assert(sign =~= Seq::<char>::empty());
        assert(sign.len() != seq!['-'].len());
    }
}

/// Nothing else writes a decimal number: every text that does is made of these
/// parts.
pub proof fn law_float_parts(s: Seq<char>) -> (r: (
    Seq<char>,
    Seq<char>,
    Seq<char>,
    Seq<char>,
    Seq<char>,
    Seq<char>,
))
    requires
        is_float(s),
        s.len() > 0 ==> s[0] != '+' && s[0] != '-',
        s != "inf"@,
        s != "infinity"@,
        s != "nan"@,
    ensures
        ({
            let (whole, point, fraction, e, sign, exponent) = r;
            &&& s == whole + point + fraction + e + sign + exponent
            &&& forall|i: int| 0 <= i < whole.len() ==> 0x30 <= (#[trigger] whole[i]) as int <= 0x39
            &&& forall|i: int|
                0 <= i < fraction.len() ==> 0x30 <= (#[trigger] fraction[i]) as int <= 0x39
            &&& forall|i: int|
                0 <= i < exponent.len() ==> 0x30 <= (#[trigger] exponent[i]) as int <= 0x39
            &&& whole.len() + fraction.len() > 0
            &&& point == seq!['.'] || (point.len() == 0 && fraction.len() == 0)
            &&& (e == seq!['e'] && exponent.len() > 0 && (sign.len() == 0 || sign == seq!['+']
                || sign == seq!['-'])) || (e.len() == 0 && sign.len() == 0 && exponent.len() == 0)
        }),
{
    let none = Seq::<char>::empty();
    assert(without_sign(s) == s);
    lemma_place_found(s, 'e');
    let k = place(s, 'e');
    let m = s.take(k);
    let x = s.skip(k);
    lemma_place_found(m, '.');
    let j = place(m, '.');
    let free = point_free(m);
    let whole = m.take(j);
    let pointed = j < m.len();
    let point = if pointed {
        seq!['.']
    } else {
        none
    };
    let fraction = if pointed {
        m.skip(j + 1)
    } else {
        none
    };
    assert(m =~= whole + point + fraction);
    assert(free =~= whole + fraction);
    assert forall|i: int| 0 <= i < whole.len() implies 0x30 <= (#[trigger] whole[i]) as int
        <= 0x39 by {
        assert(free[i] == whole[i]);
        assert(is_digit(free[i]));
    }
    assert forall|i: int| 0 <= i < fraction.len() implies 0x30 <= (#[trigger] fraction[i]) as int
        <= 0x39 by {
        assert(free[whole.len() + i] == fraction[i]);
        assert(is_digit(free[whole.len() + i]));
    }
    if x.len() == 0 {
        assert(s =~= whole + point + fraction + none + none + none);
        (whole, point, fraction, none, none, none)
    } else {
        let rest = x.drop_first();
        let signed = rest[0] == '+' || rest[0] == '-';
        let exponent = without_sign(rest);
        let sign = if signed {
            rest.take(1)
        } else {
            none
        };
        assert(rest =~= sign + exponent);
        assert(x =~= seq!['e'] + rest);
        assert forall|i: int| 0 <= i < exponent.len() implies 0x30 <= (#[trigger] exponent[i]) as int
            <= 0x39 by {
            assert(is_digit(exponent[i]));
        }
        if signed {
            assert(sign =~= seq![rest[0]]);
        }
        assert(s =~= whole + point + fraction + seq!['e'] + sign + exponent);
        (whole, point, fraction, seq!['e'], sign, exponent)
    }
}

/// Every unsigned integer, with or without a `+`, writes a floating-point
/// number too.
pub proof fn law_integers_are_floats(s: Seq<char>)
    requires
        parse_u64(s) is Some,
    ensures
        is_float(s),
{
    let t = without_sign(s);
    let d = unsigned_part(s);
    if s[0] == '-' {
        assert(is_digit(d[0]));
    }
    assert(t == d);
    assert forall|j: int| 0 <= j < t.len() implies t[j] != 'e' && t[j] != '.' by {
        assert(is_digit(t[j]));
    }
    lemma_place(t, 'e', t.len() as int);
    lemma_place(t, '.', t.len() as int);
    assert(t.take(t.len() as int) =~= t);
}

/// An integer in decimal is a floating-point number, and its product with
/// `factor` is the product of the integers as long as that is below `2^53`.
pub proof fn law_integer_products(n: nat, factor: nat)
    requires
        n * factor < TWO_53,
        factor >= 1,
    ensures
        is_float(decimal(n)),
        float_product(decimal(n), factor) == n * factor,
{
    let t = decimal(n);
    lemma_decimal_digits(n);
    assert(is_digit(t[0]));
    assert forall|j: int| 0 <= j < t.len() implies t[j] != 'e' && t[j] != '.' by {
        assert(is_digit(t[j]));
    }
    lemma_place(t, 'e', t.len() as int);
    lemma_place(t, '.', t.len() as int);
    assert(t.take(t.len() as int) =~= t);
    reveal_strlit("nan");
    reveal_strlit("inf");
    reveal_strlit("infinity");
    assert("nan"@[0] == 'n' && "inf"@[0] == 'i' && "infinity"@[0] == 'i');
    assert(ten(0) == 1);
    assert(n * 1 == n);
    law_whole_products(n, factor);
}

} // verus!
