//! The product of a decimal number and an integer, as double precision gives
//! it: the number is rounded to 53 significant bits, the product is rounded
//! again, and the fraction is dropped.
//!
//! Everything here is integer arithmetic.  A number is a fraction `p / q`, and
//! a rounded number is held in units of `1 / 2^84`.  That holds every double
//! from `2^-31` up exactly.  Numbers below that give products below one with
//! any factor up to `10^9`, so nothing is left of them in the end.

use vstd::arithmetic::div_mod::{lemma_fundamental_div_mod, lemma_fundamental_div_mod_converse};
use vstd::arithmetic::power::pow;
use vstd::arithmetic::power2::{lemma2_to64, lemma_pow2_unfold, pow2};
use vstd::prelude::*;

verus! {

/// Two to the power of 53.
pub const TWO_53: u64 = 0x20_0000_0000_0000;

/// The largest factor.
pub const FACTOR_MAX: u64 = 1_000_000_000;

/// Ten to the power of `n`.
pub open spec fn ten(n: nat) -> nat
    decreases n,
{
    if n == 0 {
        1
    } else {
        10 * ten((n - 1) as nat)
    }
}

/// Two to the power of `n`.
pub open spec fn two(n: nat) -> nat
    decreases n,
{
    if n == 0 {
        1
    } else {
        2 * two((n - 1) as nat)
    }
}

/// The integer nearest to `p / q`; of two that are equally near, the even one.
pub open spec fn half_even(p: nat, q: nat) -> nat {
    let floor = p / q;
    let rest = p % q;
    if 2 * rest < q {
        floor
    } else if 2 * rest > q {
        floor + 1
    } else {
        floor + floor % 2
    }
}

/// `p / q`, from `2^52` up, rounded to 53 significant bits; below that, to an
/// integer.
pub open spec fn round53(p: nat, q: nat) -> nat
    decreases p - q,
{
    if q == 0 || p < q * TWO_53 {
        half_even(p, q)
    } else {
        2 * round53(p, 2 * q)
    }
}

/// The whole part of the product of `p / q` and `factor`, in double precision.
pub open spec fn double_product(p: nat, q: nat, factor: nat) -> nat {
    round53(round53(p * two(84), q) * factor, 1) / two(84)
}

/// `n` as a 64-bit integer, or the largest of these.
pub open spec fn saturated(n: nat) -> u64 {
    if n <= u64::MAX {
        n as u64
    } else {
        u64::MAX
    }
}

/// The number that digits write in decimal.
pub open spec fn value_of(digits: Seq<u8>) -> nat
    decreases digits.len(),
{
    if digits.len() == 0 {
        0
    } else {
        value_of(digits.drop_last()) * 10 + digits.last() as nat
    }
}

/// Whether every element is a decimal digit.
pub open spec fn are_digits(digits: Seq<u8>) -> bool {
    forall|i: int| 0 <= i < digits.len() ==> #[trigger] digits[i] < 10
}

proof fn lemma_ten_add(a: nat, b: nat)
    ensures
        ten(a + b) == ten(a) * ten(b),
        ten(a) > 0,
    decreases a,
{
    if a > 0 {
        lemma_ten_add((a - 1) as nat, b);
        let x = ten((a - 1) as nat);
        let y = ten(b);
        assert(10 * (x * y) == (10 * x) * y) by (nonlinear_arith);
        assert(((a - 1) as nat + b) as nat == (a + b - 1) as nat);
    } else {
        assert(1 * ten(b) == ten(b));
    }
}

proof fn lemma_two_add(a: nat, b: nat)
    ensures
        two(a + b) == two(a) * two(b),
        two(a) > 0,
    decreases a,
{
    if a > 0 {
        lemma_two_add((a - 1) as nat, b);
        let x = two((a - 1) as nat);
        let y = two(b);
        assert(2 * (x * y) == (2 * x) * y) by (nonlinear_arith);
        assert(((a - 1) as nat + b) as nat == (a + b - 1) as nat);
    } else {
        assert(1 * two(b) == two(b));
    }
}

proof fn lemma_half_even_scaled(p: nat, q: nat)
    requires
        q > 0,
    ensures
        half_even(2 * p, 2 * q) == half_even(p, q),
{
    lemma_fundamental_div_mod(p as int, q as int);
    let f = (p / q) as int;
    let r = (p % q) as int;
    assert(2 * p == f * (2 * q) + 2 * r) by (nonlinear_arith)
        requires
            p == q * f + r,
    ;
    lemma_fundamental_div_mod_converse(2 * p as int, 2 * q as int, f, 2 * r);
}

proof fn lemma_round53_scaled(p: nat, q: nat)
    requires
        q > 0,
    ensures
        round53(2 * p, 2 * q) == round53(p, q),
    decreases p - q,
{
    if p < q * TWO_53 {
        lemma_half_even_scaled(p, q);
    } else {
        lemma_round53_scaled(p, 2 * q);
    }
}

proof fn lemma_round53_shift(n: nat, q: nat, j: nat)
    requires
        q > 0,
        2 * n >= q * TWO_53,
    ensures
        round53(n * two(j), q) == two(j) * round53(n, q),
    decreases j,
{
    if j > 0 {
        let i = (j - 1) as nat;
        lemma_round53_shift(n, q, i);
        lemma_two_add(i, 0);
        let t = two(i);
        let r = round53(n, q);
        assert(n * (2 * t) == 2 * (n * t)) by (nonlinear_arith);
        assert(n * t >= n) by (nonlinear_arith)
            requires
                t >= 1,
        ;
        assert(2 * (t * r) == (2 * t) * r) by (nonlinear_arith);
        lemma_round53_scaled(n * t, q);
        assert(two(j) == 2 * t);
    } else {
        assert(n * 1 == n);
        assert(1 * round53(n, q) == round53(n, q));
    }
}

proof fn lemma_round53_unit(n: nat, q: nat, s: nat)
    requires
        q > 0,
        n < q * TWO_53 * two(s),
        s > 0 ==> n >= q * TWO_53 * two((s - 1) as nat),
    ensures
        round53(n, q) == two(s) * half_even(n, q * two(s)),
    decreases s,
{
    if s > 0 {
        let i = (s - 1) as nat;
        lemma_two_add(i, 0);
        let t = two(i);
        assert(q * TWO_53 * t >= q * TWO_53) by (nonlinear_arith)
            requires
                t >= 1,
        ;
        assert(q * TWO_53 * (2 * t) == (2 * q) * TWO_53 * t) by (nonlinear_arith);
        if i > 0 {
            let u = two((i - 1) as nat);
            assert(q * TWO_53 * (2 * u) == (2 * q) * TWO_53 * u) by (nonlinear_arith);
        }
        lemma_round53_unit(n, 2 * q, i);
        assert((2 * q) * t == q * (2 * t)) by (nonlinear_arith);
        let h = half_even(n, q * (2 * t));
        assert(2 * (t * h) == (2 * t) * h) by (nonlinear_arith);
        assert(two(s) == 2 * t);
    } else {
        assert(two(0) == 1);
        assert(q * 1 == q);
        assert(q * TWO_53 * 1 == q * TWO_53);
        assert(1 * half_even(n, q) == half_even(n, q));
    }
}

proof fn lemma_half_even_upper(p: nat, q: nat)
    requires
        q > 0,
    ensures
        half_even(p, q) * q <= 2 * p,
        half_even(p, q) <= p / q + 1,
        half_even(p, q) >= p / q,
{
    lemma_fundamental_div_mod(p as int, q as int);
    let f = (p / q) as int;
    let r = (p % q) as int;
    assert(f * q <= p && (2 * r >= q ==> (f + 1) * q <= 2 * p)) by (nonlinear_arith)
        requires
            p == q * f + r,
            r >= 0,
            f >= 0,
            q > 0,
    ;
}

proof fn lemma_round53_upper(p: nat, q: nat)
    requires
        q > 0,
    ensures
        round53(p, q) * q <= 2 * p,
    decreases p - q,
{
    if p < q * TWO_53 {
        lemma_half_even_upper(p, q);
    } else {
        lemma_round53_upper(p, 2 * q);
        let r = round53(p, 2 * q);
        assert((2 * r) * q == r * (2 * q)) by (nonlinear_arith);
    }
}

proof fn lemma_round53_lower(p: nat, q: nat, j: nat)
    requires
        q > 0,
        2 * p >= q * TWO_53 * two(j),
    ensures
        2 * round53(p, q) >= TWO_53 * two(j),
    decreases j, p - q,
{
    if p < q * TWO_53 {
        if j > 0 {
            let t = two((j - 1) as nat);
            lemma_two_add((j - 1) as nat, 0);
            assert(q * TWO_53 * (2 * t) >= 2 * (q * TWO_53)) by (nonlinear_arith)
                requires
                    t >= 1,
            ;
        }
        lemma_half_even_upper(p, q);
        assert(q * TWO_53 * 1 == q * TWO_53);
        let half = TWO_53 / 2;
        assert(p / q >= half) by {
            lemma_fundamental_div_mod(p as int, q as int);
            let f = (p / q) as int;
            let r = (p % q) as int;
            assert(f >= half) by (nonlinear_arith)
                requires
                    p == q * f + r,
                    r < q,
                    q > 0,
                    2 * p >= q * TWO_53,
                    TWO_53 == 2 * half,
            ;
        }
    } else if j > 0 {
        let t = two((j - 1) as nat);
        assert(q * TWO_53 * (2 * t) == (2 * q) * TWO_53 * t) by (nonlinear_arith);
        lemma_round53_lower(p, 2 * q, (j - 1) as nat);
    } else {
        assert(two(0) == 1);
        lemma_round53_lower(p, 2 * q, 0);
    }
}

proof fn lemma_two_84()
    ensures
        two(84) == 0x10_0000_0000_0000_0000_0000,
        two(12) == 0x1000,
        two(96) == two(12) * two(84),
{
    assert(two(12) == 0x1000) by {
        reveal_with_fuel(two, 13);
    }
    lemma_two_add(12, 12);
    assert(two(24) == 0x1000 * 0x1000);
    lemma_two_add(24, 24);
    assert(two(48) == 0x100_0000 * 0x100_0000);
    lemma_two_add(48, 24);
    assert(two(72) == 0x1_0000_0000_0000 * 0x100_0000);
    lemma_two_add(72, 12);
    assert(two(84) == 0x100_0000_0000_0000_0000 * 0x1000);
    lemma_two_add(12, 84);
}

/// Of a number below `2^-31` nothing is left.
proof fn lemma_tiny(p: nat, q: nat, factor: nat)
    requires
        q > 0,
        p * two(84) < q * TWO_53,
        factor <= FACTOR_MAX,
    ensures
        double_product(p, q, factor) == 0,
{
    lemma_two_84();
    let x = p * two(84);
    let a = round53(x, q);
    lemma_half_even_upper(x, q);
    lemma_fundamental_div_mod(x as int, q as int);
    let f = (x / q) as int;
    let r = (x % q) as int;
    assert(f < TWO_53) by (nonlinear_arith)
        requires
            x == q * f + r,
            r >= 0,
            q > 0,
            x < q * TWO_53,
    ;
    assert(a * factor <= TWO_53 * FACTOR_MAX) by (nonlinear_arith)
        requires
            a <= TWO_53,
            factor <= FACTOR_MAX,
    ;
    lemma_round53_upper(a * factor, 1);
    let b = round53(a * factor, 1);
    assert(b * 1 == b);
    assert(b < two(84));
    lemma_fundamental_div_mod_converse(b as int, two(84) as int, 0, b as int);
}

/// A number from `2^64` up gives the largest integer.
proof fn lemma_huge(p: nat, q: nat, factor: nat)
    requires
        q > 0,
        p >= q * 0x1_0000_0000_0000_0000,
        factor >= 1,
    ensures
        saturated(double_product(p, q, factor)) == u64::MAX,
{
    lemma_two_84();
    let t = two(84);
    let x = p * t;
    assert(2 * x >= q * TWO_53 * (0x1000 * t)) by (nonlinear_arith)
        requires
            x == p * t,
            p >= q * 0x1_0000_0000_0000_0000,
            t > 0,
            TWO_53 == 0x20_0000_0000_0000,
    ;
    lemma_round53_lower(x, q, 96);
    let a = round53(x, q);
    assert(a * factor >= a) by (nonlinear_arith)
        requires
            factor >= 1,
    ;
    assert(1 * TWO_53 * two(96) == TWO_53 * two(96));
    lemma_round53_lower(a * factor, 1, 96);
    let b = round53(a * factor, 1);
    assert(b >= 0x1_0000_0000_0000_0000 * t);
    lemma_fundamental_div_mod(b as int, t as int);
    let f = (b / t) as int;
    let r = (b % t) as int;
    assert(f >= 0x1_0000_0000_0000_0000) by (nonlinear_arith)
        requires
            b == t * f + r,
            r < t,
            t > 0,
            b >= 0x1_0000_0000_0000_0000 * t,
    ;
}

/// The value of digits that follow digits.
pub(crate) proof fn lemma_value_concat(a: Seq<u8>, b: Seq<u8>)
    ensures
        value_of(a + b) == value_of(a) * ten(b.len()) + value_of(b),
    decreases b.len(),
{
    if b.len() == 0 {
        assert(a + b =~= a);
        assert(value_of(a) * 1 == value_of(a));
    } else {
        let init = b.drop_last();
        lemma_value_concat(a, init);
        assert((a + b).drop_last() =~= a + init);
        let x = value_of(a);
        let t = ten(init.len());
        assert((x * t) * 10 == x * (10 * t)) by (nonlinear_arith);
    }
}

proof fn lemma_value_bound(digits: Seq<u8>)
    requires
        are_digits(digits),
    ensures
        value_of(digits) < ten(digits.len()),
    decreases digits.len(),
{
    if digits.len() > 0 {
        lemma_value_bound(digits.drop_last());
    }
}

pub(crate) proof fn lemma_value_zero(digits: Seq<u8>)
    ensures
        value_of(digits) == 0 <==> forall|i: int|
            0 <= i < digits.len() ==> #[trigger] digits[i] == 0,
    decreases digits.len(),
{
    if digits.len() > 0 {
        let init = digits.drop_last();
        lemma_value_zero(init);
        if value_of(digits) == 0 {
            assert forall|i: int| 0 <= i < digits.len() implies #[trigger] digits[i] == 0 by {
                if i < init.len() {
                    assert(init[i] == 0);
                }
            }
        } else if forall|i: int| 0 <= i < digits.len() ==> #[trigger] digits[i] == 0 {
            assert forall|i: int| 0 <= i < init.len() implies #[trigger] init[i] == 0 by {
                assert(digits[i] == 0);
            }
            assert(digits[digits.len() - 1] == 0);
        }
    }
}

/// A prefix of the digits is a lower bound on the digits, in its units.
proof fn lemma_value_prefix(digits: Seq<u8>, k: int)
    requires
        0 <= k <= digits.len(),
    ensures
        value_of(digits) == value_of(digits.take(k)) * ten((digits.len() - k) as nat) + value_of(
            digits.skip(k),
        ),
{
    assert(digits =~= digits.take(k) + digits.skip(k));
    lemma_value_concat(digits.take(k), digits.skip(k));
}

/// Doubles the fraction that digits write behind the point, and gives the
/// integer that comes out of it.
fn double_digits(f: &mut Vec<u8>) -> (carry: u8)
    requires
        are_digits(old(f)@),
    ensures
        are_digits(final(f)@),
        final(f)@.len() == old(f)@.len(),
        carry <= 1,
        2 * value_of(old(f)@) == carry * ten(old(f)@.len()) + value_of(final(f)@),
{
    let n = f.len();
    let mut carry: u8 = 0;
    let mut i: usize = n;
    assert(f@.skip(n as int) =~= Seq::empty());
    while i > 0
        invariant
            i <= n == f@.len() == old(f)@.len(),
            carry <= 1,
            are_digits(old(f)@),
            are_digits(f@),
            forall|j: int| 0 <= j < i ==> f@[j] == old(f)@[j],
            2 * value_of(old(f)@.skip(i as int)) == carry * ten((n - i) as nat) + value_of(
                f@.skip(i as int),
            ),
        decreases i,
    {
        i = i - 1;
        assert(f@[i as int] < 10);
        let d = 2 * f[i] + carry;
        let ghost before = f@;
        let ghost carried = carry;
        f[i] = d % 10;
        carry = d / 10;
        proof {
            let x = old(f)@[i as int];
            let rest_old = old(f)@.skip(i + 1);
            let rest = f@.skip(i + 1);
            assert(rest =~= before.skip(i + 1));
            assert(old(f)@.skip(i as int) =~= seq![x] + rest_old);
            assert(f@.skip(i as int) =~= seq![(d % 10) as u8] + rest);
            lemma_value_concat(seq![x], rest_old);
            lemma_value_concat(seq![(d % 10) as u8], rest);
            lemma_value_single(x);
            lemma_value_single((d % 10) as u8);
            let t = ten(rest.len());
            assert(ten((n - i) as nat) == 10 * t);
            let c = carry as nat;
            let y = (d % 10) as nat;
            assert(2 * (x * t) + carried * t == c * (10 * t) + y * t) by (nonlinear_arith)
                requires
                    2 * x + carried == c * 10 + y,
            ;
        }
    }
    assert(old(f)@.skip(0) =~= old(f)@);
    assert(f@.skip(0) =~= f@);
    carry
}

proof fn lemma_value_single(d: u8)
    ensures
        value_of(seq![d]) == d,
{
    assert(seq![d].drop_last() =~= Seq::<u8>::empty());
    assert(value_of(seq![d].drop_last()) == 0);
}

fn any_nonzero(f: &Vec<u8>) -> (r: bool)
    ensures
        r == (value_of(f@) != 0),
{
    proof {
        lemma_value_zero(f@);
    }
    let n = f.len();
    let mut i: usize = 0;
    while i < n
        invariant
            i <= n == f@.len(),
            forall|j: int| 0 <= j < i ==> #[trigger] f@[j] == 0,
            value_of(f@) == 0 <==> forall|j: int| 0 <= j < f@.len() ==> #[trigger] f@[j] == 0,
        decreases n - i,
    {
        if f[i] != 0 {
            return true;
        }
        i = i + 1;
    }
    false
}

/// Rounding `m + rest / q`, where `rest / q` is below one, to a multiple of
/// `2 * half`.
proof fn lemma_round_unit(m: nat, rest: nat, q: nat, half: nat, h: nat, lo: nat, up: bool)
    requires
        q > 0,
        half > 0,
        rest < q,
        m == h * (2 * half) + lo,
        lo < 2 * half,
        up == (lo > half || (lo == half && (rest != 0 || h % 2 == 1))),
    ensures
        half_even(m * q + rest, q * (2 * half)) == (if up {
            h + 1
        } else {
            h
        }),
{
    let d = q * (2 * half);
    let r = lo * q + rest;
    assert(m * q + rest == h * d + r) by (nonlinear_arith)
        requires
            m == h * (2 * half) + lo,
            d == q * (2 * half),
            r == lo * q + rest,
    ;
    assert(r < d && d > 0) by (nonlinear_arith)
        requires
            lo < 2 * half,
            rest < q,
            d == q * (2 * half),
            r == lo * q + rest,
            half > 0,
            q > 0,
    ;
    lemma_fundamental_div_mod_converse((m * q + rest) as int, d as int, h as int, r as int);
    assert(lo < half ==> 2 * r < d) by (nonlinear_arith)
        requires
            rest < q,
            d == q * (2 * half),
            r == lo * q + rest,
            q > 0,
    ;
    assert(lo > half ==> 2 * r > d) by (nonlinear_arith)
        requires
            d == q * (2 * half),
            r == lo * q + rest,
            q > 0,
    ;
    assert(lo == half ==> 2 * r == d + 2 * rest) by (nonlinear_arith)
        requires
            d == q * (2 * half),
            r == lo * q + rest,
    ;
}

/// Rounds an integer to 53 significant bits.
fn round_integer(n: u128) -> (r: u128)
    requires
        n <= 0x1_0000_0000_0000_0000_0000_0000,
    ensures
        r == round53(n as nat, 1),
{
    let mut h: u128 = n;
    let mut half: u128 = 0;
    let mut unit: u128 = 1;
    let ghost mut s: nat = 0;
    while h >= TWO_53 as u128
        invariant
            n <= 0x1_0000_0000_0000_0000_0000_0000,
            unit == two(s),
            unit >= 1,
            s > 0 ==> 2 * half == unit && half == two((s - 1) as nat) && n >= TWO_53 * half,
            s == 0 ==> unit == 1 && half == 0 && h == n,
            h * unit <= n < (h + 1) * unit,
        decreases h,
    {
        let ghost old_h = h;
        assert(TWO_53 * unit <= n) by (nonlinear_arith)
            requires
                h * unit <= n,
                h >= TWO_53,
                unit >= 1,
        ;
        half = unit;
        unit = 2 * unit;
        h = h / 2;
        proof {
            s = s + 1;
            assert(h * unit <= n < (h + 1) * unit) by (nonlinear_arith)
                requires
                    old_h * half <= n < (old_h + 1) * half,
                    unit == 2 * half,
                    2 * h <= old_h <= 2 * h + 1,
            ;
        }
    }
    assert(n < TWO_53 * unit) by (nonlinear_arith)
        requires
            n < (h + 1) * unit,
            h < TWO_53,
            unit >= 1,
    ;
    proof {
        lemma_round53_unit(n as nat, 1, s);
    }
    if half == 0 {
        proof {
            lemma_fundamental_div_mod_converse(n as int, 1, n as int, 0);
        }
        return n;
    }
    assert((h + 1) * unit == h * unit + unit) by (nonlinear_arith);
    let lo = n - h * unit;
    let up = lo > half || (lo == half && h % 2 == 1);
    proof {
        lemma_round_unit(n as nat, 0, 1, half as nat, h as nat, lo as nat, up);
        assert(n as nat * 1 + 0 == n as nat);
        assert(1 * (2 * half as nat) == unit as nat);
        let hp: nat = if up {
            (h + 1) as nat
        } else {
            h as nat
        };
        assert(unit as nat * hp == hp * unit as nat) by (nonlinear_arith);
        assert((h + 1) * unit <= 2 * n + 2 * unit) by (nonlinear_arith)
            requires
                h * unit <= n,
        ;
    }
    if up {
        (h + 1) * unit
    } else {
        h * unit
    }
}

/// Rounds `m + rest / q` to 53 significant bits, where `rest / q` is below one
/// and `inexact` says whether it is above zero.  Gives the significant bits
/// and their unit.
fn round_mixed(m: u64, inexact: bool, Ghost(rest): Ghost<nat>, Ghost(q): Ghost<nat>) -> (r: (
    u64,
    u64,
))
    requires
        m >= TWO_53,
        rest < q,
        inexact == (rest != 0),
    ensures
        TWO_53 <= 2 * r.0,
        r.0 <= TWO_53,
        r.1 <= 0x1000,
        exists|s: nat| r.1 == #[trigger] two(s),
        round53(m as nat * q + rest, q) == r.0 * r.1,
{
    let mut h: u64 = m;
    let mut half: u64 = 0;
    let mut unit: u64 = 1;
    let ghost mut s: nat = 0;
    while h >= TWO_53
        invariant
            m >= TWO_53,
            unit == two(s),
            1 <= unit <= 0x1000,
            s > 0 ==> 2 * half == unit && half == two((s - 1) as nat) && m >= TWO_53 * half,
            s == 0 ==> unit == 1 && half == 0 && h == m,
            s > 0 ==> 2 * h >= TWO_53,
            h * unit <= m < (h + 1) * unit,
        decreases h,
    {
        let ghost old_h = h;
        assert(TWO_53 * unit <= m) by (nonlinear_arith)
            requires
                h * unit <= m,
                h >= TWO_53,
                unit >= 1,
        ;
        half = unit;
        unit = 2 * unit;
        h = h / 2;
        proof {
            s = s + 1;
            assert(h * unit <= m < (h + 1) * unit) by (nonlinear_arith)
                requires
                    old_h * half <= m < (old_h + 1) * half,
                    unit == 2 * half,
                    2 * h <= old_h <= 2 * h + 1,
            ;
        }
    }
    assert((h + 1) * unit == h * unit + unit) by (nonlinear_arith);
    let lo = m - h * unit;
    let up = lo > half || (lo == half && (inexact || h % 2 == 1));
    let hp: u64 = if up {
        h + 1
    } else {
        h
    };
    proof {
        let n = m as nat * q + rest;
        assert(m < TWO_53 * unit) by (nonlinear_arith)
            requires
                m < (h + 1) * unit,
                h < TWO_53,
                unit >= 1,
        ;
        assert(n < q * TWO_53 * unit as nat && n >= q * TWO_53 * half as nat) by (nonlinear_arith)
            requires
                n == m as nat * q + rest,
                rest < q,
                m + 1 <= TWO_53 * unit,
                m >= TWO_53 * half,
        ;
        lemma_round53_unit(n, q, s);
        lemma_round_unit(m as nat, rest, q, half as nat, h as nat, lo as nat, up);
        assert(unit as nat * hp as nat == hp * unit) by (nonlinear_arith);
    }
    (hp, unit)
}

proof fn lemma_cancel(c: nat, x: nat, y: nat)
    requires
        c > 0,
        y > 0,
    ensures
        (c * x) / (c * y) == x / y,
{
    lemma_fundamental_div_mod(x as int, y as int);
    let f = (x / y) as int;
    let r = (x % y) as int;
    assert(c * x == f * (c * y) + c * r && 0 <= c * r < c * y) by (nonlinear_arith)
        requires
            x == y * f + r,
            0 <= r < y,
            c > 0,
    ;
    lemma_fundamental_div_mod_converse((c * x) as int, (c * y) as int, f, c * r);
}

/// How the rounded pieces make up the product.
proof fn lemma_assemble(
    p: nat,
    q: nat,
    k: nat,
    n: nat,
    h: nat,
    unit: nat,
    s: nat,
    factor: nat,
    rounded: nat,
)
    requires
        q > 0,
        k <= 84,
        n == p * two(k),
        n >= q * TWO_53,
        unit == two(s),
        round53(n, q) == h * unit,
        2 * h >= TWO_53,
        factor >= 1,
        rounded == round53(h * factor, 1),
    ensures
        double_product(p, q, factor) == (rounded * unit) / two(k),
{
    let j = (84 - k) as nat;
    lemma_two_add(k, j);
    lemma_two_add(j, s);
    lemma_two_add(k, 0);
    lemma_two_add(j, 0);
    let tk = two(k);
    let tj = two(j);
    assert(p * two(84) == n * tj) by (nonlinear_arith)
        requires
            n == p * tk,
            two(84) == tk * tj,
    ;
    lemma_round53_shift(n, q, j);
    let a = round53(p * two(84), q);
    assert(a * factor == (h * factor) * (tj * unit)) by (nonlinear_arith)
        requires
            a == tj * (h * unit),
    ;
    assert(h * factor >= h) by (nonlinear_arith)
        requires
            factor >= 1,
    ;
    lemma_round53_shift(h * factor, 1, j + s);
    assert(two(j + s) * rounded == tj * (rounded * unit)) by (nonlinear_arith)
        requires
            two(j + s) == tj * unit,
    ;
    assert(two(84) == tj * tk) by (nonlinear_arith)
        requires
            two(84) == tk * tj,
    ;
    lemma_cancel(tj, rounded * unit, tk);
}

/// The whole part of the product of `factor` and the number that the digits
/// write with a point before place `point`, in double precision.
pub(crate) fn digits_product(digits: &Vec<u8>, point: usize, factor: u64) -> (r: u64)
    requires
        are_digits(digits@),
        point <= digits@.len(),
        1 <= factor <= FACTOR_MAX,
    ensures
        r == saturated(
            double_product(
                value_of(digits@),
                ten((digits@.len() - point) as nat),
                factor as nat,
            ),
        ),
{
    let ghost p = value_of(digits@);
    let ghost q = ten((digits@.len() - point) as nat);
    let len = digits.len();
    proof {
        lemma_ten_add((len - point) as nat, 0);
        assert(digits@.take(0) =~= Seq::empty());
    }
    let mut m: u64 = 0;
    let mut i: usize = 0;
    while i < point
        invariant
            i <= point <= len == digits@.len(),
            are_digits(digits@),
            m == value_of(digits@.take(i as int)),
            p == value_of(digits@),
            q == ten((digits@.len() - point) as nat),
            q > 0,
            1 <= factor,
        decreases point - i,
    {
        assert(digits@[i as int] < 10);
        assert(digits@.take(i + 1).drop_last() =~= digits@.take(i as int));
        let d = digits[i] as u64;
        if m > (u64::MAX - d) / 10 {
            proof {
                let v = value_of(digits@.take(i + 1));
                assert(v >= 0x1_0000_0000_0000_0000);
                lemma_value_prefix(digits@, i + 1);
                let e = (point - i - 1) as nat;
                lemma_ten_add(e, (len - point) as nat);
                assert(e + (len - point) as nat == (len - (i + 1)) as nat);
                let t = ten((len - (i + 1)) as nat);
                let u = ten(e);
                assert(p >= q * 0x1_0000_0000_0000_0000) by (nonlinear_arith)
                    requires
                        p >= v * t,
                        v >= 0x1_0000_0000_0000_0000,
                        t == u * q,
                        u >= 1,
                        q > 0,
                ;
                lemma_huge(p, q, factor as nat);
            }
            return u64::MAX;
        }
        m = m * 10 + d;
        i = i + 1;
    }
    let mut f: Vec<u8> = Vec::new();
    while i < len
        invariant
            point <= i <= len == digits@.len(),
            f@ == digits@.subrange(point as int, i as int),
        decreases len - i,
    {
        f.push(digits[i]);
        i = i + 1;
        assert(f@ =~= digits@.subrange(point as int, i as int));
    }
    proof {
        assert(f@ =~= digits@.skip(point as int));
        assert forall|j: int| 0 <= j < f@.len() implies #[trigger] f@[j] < 10 by {
            assert(digits@[point + j] < 10);
        }
        lemma_value_prefix(digits@, point as int);
        assert(two(0) == 1);
        assert(p * 1 == p);
        lemma_two_84();
    }
    let mut k: u32 = 0;
    let mut scale: u128 = 1;
    while m < TWO_53 && k < 84
        invariant
            k <= 84,
            scale == two(k as nat),
            scale <= two(84),
            two(84) == 0x10_0000_0000_0000_0000_0000,
            are_digits(f@),
            q == ten(f@.len()),
            p * two(k as nat) == m as nat * q + value_of(f@),
        decreases 84 - k,
    {
        let ghost before_m = m as nat;
        let ghost before_f = value_of(f@);
        let carry = double_digits(&mut f);
        m = 2 * m + carry as u64;
        proof {
            let t = two(k as nat);
            lemma_two_add((k + 1) as nat, (83 - k) as nat);
            lemma_two_add((83 - k) as nat, 0);
            assert(two((k + 1) as nat) == 2 * t);
            let rest = two((83 - k) as nat);
            assert(2 * t <= two(84)) by (nonlinear_arith)
                requires
                    two(84) == (2 * t) * rest,
                    rest >= 1,
            ;
            assert(p * (2 * t) == m as nat * q + value_of(f@)) by (nonlinear_arith)
                requires
                    p * t == before_m * q + before_f,
                    2 * before_f == carry as nat * q + value_of(f@),
                    m as nat == 2 * before_m + carry as nat,
            ;
        }
        scale = 2 * scale;
        k = k + 1;
    }
    let ghost rest = value_of(f@);
    proof {
        lemma_value_bound(f@);
    }
    if m < TWO_53 {
        proof {
            assert(m as nat * q + rest < q * TWO_53) by (nonlinear_arith)
                requires
                    m + 1 <= TWO_53,
                    rest < q,
            ;
            lemma_tiny(p, q, factor as nat);
        }
        return 0;
    }
    let inexact = any_nonzero(&f);
    let (h, unit) = round_mixed(m, inexact, Ghost(rest), Ghost(q));
    let ghost s = choose|s: nat| unit == #[trigger] two(s);
    assert(h * factor <= TWO_53 * FACTOR_MAX) by (nonlinear_arith)
        requires
            h <= TWO_53,
            factor <= FACTOR_MAX,
    ;
    let product = h as u128 * factor as u128;
    let rounded = round_integer(product);
    proof {
        lemma_round53_upper(product as nat, 1);
        assert(rounded * 1 == rounded);
        assert(rounded * unit <= 0x1_0000_0000_0000_0000_0000_0000_0000) by (nonlinear_arith)
            requires
                rounded <= 2 * TWO_53 * FACTOR_MAX,
                unit <= 0x1000,
                TWO_53 == 0x20_0000_0000_0000,
                FACTOR_MAX == 1_000_000_000,
        ;
        assert(m as nat * q + rest >= q * TWO_53) by (nonlinear_arith)
            requires
                m >= TWO_53,
        ;
        lemma_assemble(
            p,
            q,
            k as nat,
            m as nat * q + rest,
            h as nat,
            unit as nat,
            s,
            factor as nat,
            rounded as nat,
        );
        lemma_two_add(k as nat, 0);
    }
    let whole = rounded * unit as u128 / scale;
    if whole > u64::MAX as u128 {
        u64::MAX
    } else {
        whole as u64
    }
}

pub(crate) proof fn lemma_ten_positive(n: nat)
    ensures
        ten(n) > 0,
{
    lemma_ten_add(n, 0);
}

/// The product of zero is zero.
pub(crate) proof fn lemma_zero_product(q: nat, factor: nat)
    requires
        q > 0,
        factor <= FACTOR_MAX,
    ensures
        double_product(0, q, factor) == 0,
{
    lemma_two_84();
    assert(0 * two(84) == 0);
    assert(q * TWO_53 > 0);
    lemma_tiny(0, q, factor);
}

/// Digits of which exactly the first `lead` are leading zeros write a number
/// between two neighbouring powers of ten.
pub(crate) proof fn lemma_leading_digit(digits: Seq<u8>, lead: int)
    requires
        are_digits(digits),
        0 <= lead < digits.len(),
        digits[lead] != 0,
        forall|i: int| 0 <= i < lead ==> #[trigger] digits[i] == 0,
    ensures
        ten((digits.len() - lead - 1) as nat) <= value_of(digits) < ten(
            (digits.len() - lead) as nat,
        ),
{
    let tail = digits.skip(lead);
    lemma_value_prefix(digits, lead);
    lemma_value_zero(digits.take(lead));
    let t = ten((digits.len() - lead) as nat);
    assert(0 * t == 0);
    assert(value_of(digits) == value_of(tail));
    assert forall|i: int| 0 <= i < tail.len() implies #[trigger] tail[i] < 10 by {
        assert(digits[lead + i] < 10);
    }
    lemma_value_bound(tail);
    assert(tail =~= seq![tail[0]] + tail.skip(1));
    lemma_value_concat(seq![tail[0]], tail.skip(1));
    lemma_value_single(tail[0]);
    let u = ten(tail.skip(1).len());
    assert(tail[0] * u >= u) by (nonlinear_arith)
        requires
            tail[0] >= 1,
    ;
}

/// A number from `10^20` up gives the largest integer.
pub(crate) proof fn lemma_large_decimal(d: nat, a: nat, up: nat, down: nat, factor: nat)
    requires
        d >= ten(a),
        a + up >= 20 + down,
        factor >= 1,
    ensures
        saturated(double_product(d * ten(up), ten(down), factor)) == u64::MAX,
{
    lemma_ten_add(a, up);
    lemma_ten_add(down, (a + up - down) as nat);
    lemma_ten_add(20, (a + up - down - 20) as nat);
    lemma_ten_add((a + up - down - 20) as nat, 0);
    reveal_with_fuel(ten, 21);
    let q = ten(down);
    let big = ten((a + up - down) as nat);
    let more = ten((a + up - down - 20) as nat);
    let t = ten(a);
    let u = ten(up);
    assert(down + (a + up - down) as nat == a + up);
    assert(20 + (a + up - down - 20) as nat == (a + up - down) as nat);
    assert(d * u >= q * 0x1_0000_0000_0000_0000) by (nonlinear_arith)
        requires
            d >= t,
            t * u == q * big,
            big == 100_000_000_000_000_000_000 * more,
            more >= 1,
            u >= 0,
            q > 0,
    ;
    lemma_huge(d * u, q, factor);
}

/// Of a number below `10^-10` nothing is left.
pub(crate) proof fn lemma_small_decimal(d: nat, a: nat, down: nat, factor: nat)
    requires
        d < ten(a),
        a + 10 <= down,
        factor <= FACTOR_MAX,
    ensures
        double_product(d, ten(down), factor) == 0,
{
    lemma_ten_add(a, 10);
    lemma_ten_add(a + 10, (down - a - 10) as nat);
    lemma_ten_add((down - a - 10) as nat, 0);
    lemma_ten_add(down, 0);
    lemma_two_84();
    assert(ten(10) == 10_000_000_000) by {
        reveal_with_fuel(ten, 11);
    }
    let q = ten(down);
    let t = ten(a);
    let more = ten((down - a - 10) as nat);
    assert((a + 10) + (down - a - 10) as nat == down);
    assert(d * two(84) < q * TWO_53) by (nonlinear_arith)
        requires
            d < t,
            q == (t * 10_000_000_000) * more,
            more >= 1,
            two(84) == 0x10_0000_0000_0000_0000_0000,
            TWO_53 == 0x20_0000_0000_0000,
    ;
    lemma_tiny(d, q, factor);
}

proof fn lemma_exact(n: nat, j: nat, i: nat)
    requires
        n < TWO_53,
        i <= j,
    ensures
        round53(n * two(j), two(i)) * two(i) == n * two(j),
    decreases j - i,
{
    let e = (j - i) as nat;
    lemma_two_add(i, e);
    lemma_two_add(i, 0);
    lemma_two_add(e, 0);
    let p = n * two(j);
    let q = two(i);
    let t = two(e);
    assert(p == (n * t) * q) by (nonlinear_arith)
        requires
            p == n * two(j),
            two(j) == q * t,
    ;
    if p < q * TWO_53 {
        lemma_fundamental_div_mod_converse(p as int, q as int, (n * t) as int, 0);
    } else {
        if e == 0 {
            assert((n * 1) * q < q * TWO_53) by (nonlinear_arith)
                requires
                    n < TWO_53,
                    q > 0,
            ;
        }
        lemma_exact(n, j, i + 1);
        let r = round53(p, 2 * q);
        assert((2 * r) * q == r * (2 * q)) by (nonlinear_arith);
    }
}

/// The powers of ten and of two are what their names say.
pub proof fn law_powers(n: nat)
    ensures
        ten(n) == pow(10, n),
        two(n) == pow2(n),
    decreases n,
{
    reveal(pow);
    if n == 0 {
        lemma2_to64();
    } else {
        law_powers((n - 1) as nat);
        lemma_pow2_unfold(n);
    }
}

/// A number is rounded to a multiple `m` of the unit `2^s` in which it has 53
/// bits, or fewer where the unit is one.  No multiple is nearer, and of two
/// that are equally near it is the even one.
pub proof fn law_round53_nearest(p: nat, q: nat) -> (r: (nat, nat))
    requires
        q > 0,
    ensures
        ({
            let (m, s) = r;
            let unit = q * two(s);
            &&& round53(p, q) == m * two(s)
            &&& p < q * 0x20_0000_0000_0000 * two(s)
            &&& s > 0 ==> p >= q * 0x20_0000_0000_0000 * two((s - 1) as nat)
            &&& 2 * (m * unit) <= 2 * p + unit
            &&& 2 * p <= 2 * (m * unit) + unit
            &&& 2 * (m * unit) == 2 * p + unit || 2 * p == 2 * (m * unit) + unit ==> m % 2 == 0
        }),
{
    let s = lemma_unit_exponent(p, q);
    lemma_two_add(s, 0);
    let t = two(s);
    let d = q * t;
    assert(d > 0) by (nonlinear_arith)
        requires
            q > 0,
            t > 0,
            d == q * t,
    ;
    lemma_round53_unit(p, q, s);
    let m = half_even(p, d);
    lemma_fundamental_div_mod(p as int, d as int);
    let f = (p / d) as int;
    let rest = (p % d) as int;
    assert(p == f * d + rest) by (nonlinear_arith)
        requires
            p == d * f + rest,
    ;
    assert((f + 1) * d == f * d + d) by (nonlinear_arith);
    assert(t * m == m * t) by (nonlinear_arith);
    (m, s)
}

/// The unit in which a number has 53 bits.
proof fn lemma_unit_exponent(p: nat, q: nat) -> (s: nat)
    requires
        q > 0,
    ensures
        p < q * TWO_53 * two(s),
        s > 0 ==> p >= q * TWO_53 * two((s - 1) as nat),
    decreases p - q,
{
    if p < q * TWO_53 {
        assert(two(0) == 1);
        assert(q * TWO_53 * 1 == q * TWO_53);
        0
    } else {
        let i = lemma_unit_exponent(p, 2 * q);
        let t = two(i);
        assert((2 * q) * TWO_53 * t == q * TWO_53 * (2 * t)) by (nonlinear_arith);
        assert(two(i + 1) == 2 * t);
        if i > 0 {
            let u = two((i - 1) as nat);
            assert((2 * q) * TWO_53 * u == q * TWO_53 * (2 * u)) by (nonlinear_arith);
        } else {
            assert(two(0) == 1);
            assert(q * TWO_53 * 1 == q * TWO_53);
        }
        i + 1
    }
}

/// A product is the rounded number times the factor, rounded again, without its
/// fraction.
pub proof fn law_double_product(p: nat, q: nat, factor: nat)
    ensures
        double_product(p, q, factor) * two(84) <= round53(
            round53(p * two(84), q) * factor,
            1,
        ) < (double_product(p, q, factor) + 1) * two(84),
{
    lemma_two_84();
    let t = two(84) as int;
    let b = round53(round53(p * two(84), q) * factor, 1) as int;
    lemma_fundamental_div_mod(b, t);
    let f = b / t;
    let rest = b % t;
    assert(f * t <= b < (f + 1) * t) by (nonlinear_arith)
        requires
            b == t * f + rest,
            0 <= rest < t,
    ;
}

/// A product beyond 64 bits gives the largest integer; every other one stays.
pub proof fn law_saturated(n: nat)
    ensures
        n <= 0xFFFF_FFFF_FFFF_FFFF ==> saturated(n) == n,
        n > 0xFFFF_FFFF_FFFF_FFFF ==> saturated(n) == 0xFFFF_FFFF_FFFF_FFFF,
{
}

/// Products of integers are exact as long as they are below `2^53`.
pub proof fn law_whole_products(n: nat, factor: nat)
    requires
        n * factor < TWO_53,
        factor >= 1,
    ensures
        double_product(n, 1, factor) == n * factor,
{
    assert(n <= n * factor) by (nonlinear_arith)
        requires
            factor >= 1,
    ;
    lemma_exact(n, 84, 0);
    lemma_exact(n * factor, 84, 0);
    lemma_two_84();
    let t = two(84);
    let a = round53(n * t, 1);
    assert(a * 1 == a);
    assert((n * t) * factor == (n * factor) * t) by (nonlinear_arith);
    let b = round53(a * factor, 1);
    assert(b * 1 == b);
    lemma_fundamental_div_mod_converse(b as int, t as int, (n * factor) as int, 0);
}

} // verus!
