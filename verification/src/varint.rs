//! Variable-length integers: big-endian, with the length of the encoding in
//! the two topmost bits.

use vstd::arithmetic::div_mod::lemma_hoist_over_denominator;
use vstd::prelude::*;

verus! {

/// The largest value that a variable-length integer can hold.
pub const VARINT_MAX: u64 = 0x3FFF_FFFF_FFFF_FFFF;

/// `v` as `n` bytes, the most significant byte first.
pub open spec fn be_bytes(v: nat, n: nat) -> Seq<u8>
    decreases n,
{
    if n == 0 {
        Seq::empty()
    } else {
        be_bytes(v / 256, (n - 1) as nat).push((v % 256) as u8)
    }
}

/// The number whose bytes, the most significant byte first, are `bytes`.
pub open spec fn be_value(bytes: Seq<u8>) -> nat
    decreases bytes.len(),
{
    if bytes.len() == 0 {
        0
    } else {
        be_value(bytes.drop_last()) * 256 + bytes.last() as nat
    }
}

/// The number of bytes that `v` takes: the fewest that leave two bits free.
pub open spec fn varint_size(v: nat) -> nat {
    if v < 0x40 {
        1
    } else if v < 0x4000 {
        2
    } else if v < 0x4000_0000 {
        4
    } else {
        8
    }
}

/// The number of bytes of an encoding, told by its first byte.
pub open spec fn varint_width(first: u8) -> nat {
    if first < 0x40 {
        1
    } else if first < 0x80 {
        2
    } else if first < 0xC0 {
        4
    } else {
        8
    }
}

/// The value of the two topmost bits of an encoding of `n` bytes.
pub open spec fn varint_prefix(n: nat) -> nat {
    if n == 1 {
        0
    } else if n == 2 {
        0x4000
    } else if n == 4 {
        0x8000_0000
    } else {
        0xC000_0000_0000_0000
    }
}

/// The encoding of `v`.
pub open spec fn varint_bytes(v: nat) -> Seq<u8> {
    be_bytes(v + varint_prefix(varint_size(v)), varint_size(v))
}

/// The value at the start of `buf` and the number of bytes that it takes;
/// nothing as long as `buf` does not hold all of them.
pub open spec fn varint_value(buf: Seq<u8>) -> Option<(u64, usize)> {
    if buf.len() == 0 || buf.len() < varint_width(buf[0]) {
        None
    } else {
        let n = varint_width(buf[0]);
        Some(((be_value(buf.take(n as int)) - varint_prefix(n)) as u64, n as usize))
    }
}

proof fn lemma_be_bytes_len(v: nat, n: nat)
    ensures
        be_bytes(v, n).len() == n,
    decreases n,
{
    if n > 0 {
        lemma_be_bytes_len(v / 256, (n - 1) as nat);
    }
}

fn push_be_bytes(out: &mut Vec<u8>, v: u64, n: usize)
    ensures
        final(out)@ == old(out)@ + be_bytes(v as nat, n as nat),
    decreases n,
{
    if n > 0 {
        push_be_bytes(out, v / 256, n - 1);
        out.push((v % 256) as u8);
    }
    assert(out@ =~= old(out)@ + be_bytes(v as nat, n as nat));
}

/// Appends the encoding of `value`.
pub fn varint_encode(out: &mut Vec<u8>, value: u64)
    requires
        value <= VARINT_MAX,
    ensures
        final(out)@ == old(out)@ + varint_bytes(value as nat),
{
    if value < 0x40 {
        push_be_bytes(out, value, 1);
    } else if value < 0x4000 {
        push_be_bytes(out, value + 0x4000, 2);
    } else if value < 0x4000_0000 {
        push_be_bytes(out, value + 0x8000_0000, 4);
    } else {
        push_be_bytes(out, value + 0xC000_0000_0000_0000, 8);
    }
}

/// What the first byte says about the number that `bytes` write.
proof fn lemma_be_value_bounds(bytes: Seq<u8>)
    requires
        bytes.len() == 1 || bytes.len() == 2 || bytes.len() == 4 || bytes.len() == 8,
    ensures
        bytes.len() == 1 ==> be_value(bytes) == bytes[0],
        bytes.len() == 2 ==> bytes[0] * 0x100 <= be_value(bytes) < (bytes[0] + 1) * 0x100,
        bytes.len() == 4 ==> bytes[0] * 0x100_0000 <= be_value(bytes) < (bytes[0] + 1)
            * 0x100_0000,
        bytes.len() == 8 ==> bytes[0] * 0x100_0000_0000_0000 <= be_value(bytes) < (bytes[0] + 1)
            * 0x100_0000_0000_0000,
{
    reveal_with_fuel(be_value, 9);
    assert(forall|i: int|
        0 <= i < bytes.len() ==> #[trigger] bytes.take(i + 1).drop_last() =~= bytes.take(i));
    assert(bytes.take(bytes.len() as int) =~= bytes);
}

/// Reads the value at the start of `buf`, with the number of bytes that it
/// takes.
pub fn varint_decode(buf: &[u8]) -> (r: Option<(u64, usize)>)
    ensures
        r == varint_value(buf@),
{
    if buf.len() == 0 {
        return None;
    }
    let first = buf[0];
    let n: usize = if first < 0x40 {
        1
    } else if first < 0x80 {
        2
    } else if first < 0xC0 {
        4
    } else {
        8
    };
    if buf.len() < n {
        return None;
    }
    let mut raw: u64 = 0;
    let mut i: usize = 0;
    while i < n
        invariant
            i <= n <= buf@.len(),
            n <= 8,
            raw == be_value(buf@.take(i as int)),
            i == 0 ==> raw == 0,
            i == 1 ==> raw < 0x100,
            i == 2 ==> raw < 0x1_0000,
            i == 3 ==> raw < 0x100_0000,
            i == 4 ==> raw < 0x1_0000_0000,
            i == 5 ==> raw < 0x100_0000_0000,
            i == 6 ==> raw < 0x1_0000_0000_0000,
            i == 7 ==> raw < 0x100_0000_0000_0000,
        decreases n - i,
    {
        assert(buf@.take(i + 1).drop_last() =~= buf@.take(i as int));
        raw = raw * 256 + buf[i] as u64;
        i = i + 1;
    }
    let prefix: u64 = if n == 1 {
        0
    } else if n == 2 {
        0x4000
    } else if n == 4 {
        0x8000_0000
    } else {
        0xC000_0000_0000_0000
    };
    proof {
        lemma_be_value_bounds(buf@.take(n as int));
    }
    Some((raw - prefix, n))
}

/// The bytes of a number write that number.
proof fn lemma_be_roundtrip(v: nat, n: nat)
    requires
        n == 1 ==> v < 0x100,
        n == 2 ==> v < 0x1_0000,
        n == 4 ==> v < 0x1_0000_0000,
        n == 8 ==> v < 0x1_0000_0000_0000_0000,
        n == 1 || n == 2 || n == 4 || n == 8,
    ensures
        be_bytes(v, n).len() == n,
        be_value(be_bytes(v, n)) == v,
{
    lemma_be_bytes_len(v, n);
    lemma_be_value_of_bytes(v, n);
    assert(v / 256 / 256 / 256 / 256 / 256 / 256 / 256 / 256 == v / 0x1_0000_0000_0000_0000);
    reveal_with_fuel(be_shift, 9);
}

/// `v` without its `n` lowest bytes.
spec fn be_shift(v: nat, n: nat) -> nat
    decreases n,
{
    if n == 0 {
        v
    } else {
        be_shift(v / 256, (n - 1) as nat)
    }
}

proof fn lemma_be_value_of_bytes(v: nat, n: nat)
    ensures
        be_shift(v, n) == 0 ==> be_value(be_bytes(v, n)) == v,
    decreases n,
{
    if n > 0 {
        let high = be_bytes(v / 256, (n - 1) as nat);
        lemma_be_value_of_bytes(v / 256, (n - 1) as nat);
        assert(be_bytes(v, n).drop_last() =~= high);
    }
}

/// The bytes that are written: the value in one, two, four or eight bytes, the
/// highest first, with the two topmost bits at 0, 1, 2 or 3.
pub proof fn law_varint_layout(v: nat)
    ensures
        v < 0x40 ==> varint_bytes(v) == seq![v as u8],
        0x40 <= v < 0x4000 ==> varint_bytes(v) == seq![(0x40 + v / 0x100) as u8, (v % 0x100) as u8],
        0x4000 <= v < 0x4000_0000 ==> varint_bytes(v) == seq![
            (0x80 + v / 0x100_0000) as u8,
            (v / 0x1_0000 % 0x100) as u8,
            (v / 0x100 % 0x100) as u8,
            (v % 0x100) as u8,
        ],
        0x4000_0000 <= v < 0x4000_0000_0000_0000 ==> varint_bytes(v) == seq![
            (0xC0 + v / 0x100_0000_0000_0000) as u8,
            (v / 0x1_0000_0000_0000 % 0x100) as u8,
            (v / 0x100_0000_0000 % 0x100) as u8,
            (v / 0x1_0000_0000 % 0x100) as u8,
            (v / 0x100_0000 % 0x100) as u8,
            (v / 0x1_0000 % 0x100) as u8,
            (v / 0x100 % 0x100) as u8,
            (v % 0x100) as u8,
        ],
{
    if v < 0x40 {
        lemma_be_bytes_1(v);
    } else if v < 0x4000 {
        lemma_be_bytes_2(v + 0x4000);
        assert((v + 0x4000) / 0x100 % 0x100 == 0x40 + v / 0x100);
        assert((v + 0x4000) % 0x100 == v % 0x100);
    } else if v < 0x4000_0000 {
        let x = v + 0x8000_0000;
        lemma_be_bytes_4(x);
        assert(x / 0x100_0000 % 0x100 == 0x80 + v / 0x100_0000);
        assert(x / 0x1_0000 == 0x8000 + v / 0x1_0000);
        assert(x / 0x100 == 0x80_0000 + v / 0x100);
        assert(varint_bytes(v) =~= seq![
            (0x80 + v / 0x100_0000) as u8,
            (v / 0x1_0000 % 0x100) as u8,
            (v / 0x100 % 0x100) as u8,
            (v % 0x100) as u8,
        ]);
    } else if v < 0x4000_0000_0000_0000 {
        lemma_varint_layout_8(v);
    }
}

proof fn lemma_be_bytes_1(x: nat)
    ensures
        be_bytes(x, 1) == seq![(x % 0x100) as u8],
{
    assert(be_bytes(x / 256, 0) =~= Seq::<u8>::empty());
    assert(be_bytes(x, 1) =~= seq![(x % 0x100) as u8]);
}

proof fn lemma_be_bytes_2(x: nat)
    ensures
        be_bytes(x, 2) == seq![(x / 0x100 % 0x100) as u8, (x % 0x100) as u8],
{
    lemma_be_bytes_1(x / 256);
    assert(be_bytes(x, 2) =~= seq![(x / 0x100 % 0x100) as u8, (x % 0x100) as u8]);
}

proof fn lemma_be_bytes_4(x: nat)
    ensures
        be_bytes(x, 4) == seq![
            (x / 0x100_0000 % 0x100) as u8,
            (x / 0x1_0000 % 0x100) as u8,
            (x / 0x100 % 0x100) as u8,
            (x % 0x100) as u8,
        ],
{
    let y = x / 256;
    let z = y / 256;
    lemma_be_bytes_2(z);
    assert(be_bytes(y, 3) == be_bytes(z, 2).push((y % 256) as u8));
    assert(be_bytes(x, 4) == be_bytes(y, 3).push((x % 256) as u8));
    assert(z == x / 0x1_0000);
    assert(z / 0x100 == x / 0x100_0000);
    assert(be_bytes(x, 4) =~= seq![
        (x / 0x100_0000 % 0x100) as u8,
        (x / 0x1_0000 % 0x100) as u8,
        (x / 0x100 % 0x100) as u8,
        (x % 0x100) as u8,
    ]);
}

proof fn lemma_be_bytes_8(x: nat)
    ensures
        be_bytes(x, 8) == seq![
            (x / 0x100_0000_0000_0000 % 0x100) as u8,
            (x / 0x1_0000_0000_0000 % 0x100) as u8,
            (x / 0x100_0000_0000 % 0x100) as u8,
            (x / 0x1_0000_0000 % 0x100) as u8,
            (x / 0x100_0000 % 0x100) as u8,
            (x / 0x1_0000 % 0x100) as u8,
            (x / 0x100 % 0x100) as u8,
            (x % 0x100) as u8,
        ],
{
    let a = x / 256;
    let b = a / 256;
    let c = b / 256;
    let d = c / 256;
    lemma_be_bytes_4(d);
    assert(be_bytes(c, 5) == be_bytes(d, 4).push((c % 256) as u8));
    assert(be_bytes(b, 6) == be_bytes(c, 5).push((b % 256) as u8));
    assert(be_bytes(a, 7) == be_bytes(b, 6).push((a % 256) as u8));
    assert(be_bytes(x, 8) == be_bytes(a, 7).push((x % 256) as u8));
    assert(b == x / 0x1_0000);
    assert(c == x / 0x100_0000);
    assert(d == x / 0x1_0000_0000);
    assert(d / 0x100 == x / 0x100_0000_0000);
    assert(d / 0x1_0000 == x / 0x1_0000_0000_0000);
    assert(d / 0x100_0000 == x / 0x100_0000_0000_0000);
    assert(be_bytes(x, 8) =~= seq![
        (x / 0x100_0000_0000_0000 % 0x100) as u8,
        (x / 0x1_0000_0000_0000 % 0x100) as u8,
        (x / 0x100_0000_0000 % 0x100) as u8,
        (x / 0x1_0000_0000 % 0x100) as u8,
        (x / 0x100_0000 % 0x100) as u8,
        (x / 0x1_0000 % 0x100) as u8,
        (x / 0x100 % 0x100) as u8,
        (x % 0x100) as u8,
    ]);
}

/// Raising a number by a multiple of `unit` raises its quotient, and leaves the
/// lowest byte of that where the multiple is one of 256.
proof fn lemma_raised(v: nat, unit: nat, by: nat)
    requires
        unit > 0,
    ensures
        (v + by * unit) / unit == v / unit + by,
        by % 0x100 == 0 ==> (v + by * unit) / unit % 0x100 == v / unit % 0x100,
{
    lemma_hoist_over_denominator(v as int, by as int, unit);
}

proof fn lemma_varint_layout_8(v: nat)
    requires
        0x4000_0000 <= v < 0x4000_0000_0000_0000,
    ensures
        varint_bytes(v) == seq![
            (0xC0 + v / 0x100_0000_0000_0000) as u8,
            (v / 0x1_0000_0000_0000 % 0x100) as u8,
            (v / 0x100_0000_0000 % 0x100) as u8,
            (v / 0x1_0000_0000 % 0x100) as u8,
            (v / 0x100_0000 % 0x100) as u8,
            (v / 0x1_0000 % 0x100) as u8,
            (v / 0x100 % 0x100) as u8,
            (v % 0x100) as u8,
        ],
{
    let x = v + 0xC000_0000_0000_0000;
    lemma_be_bytes_8(x);
    lemma_raised(v, 0x100_0000_0000_0000, 0xC0);
    lemma_raised(v, 0x1_0000_0000_0000, 0xC000);
    lemma_raised(v, 0x100_0000_0000, 0xC0_0000);
    lemma_raised(v, 0x1_0000_0000, 0xC000_0000);
    lemma_raised(v, 0x100_0000, 0xC0_0000_0000);
    lemma_raised(v, 0x1_0000, 0xC000_0000_0000);
    lemma_raised(v, 0x100, 0xC0_0000_0000_0000);
    lemma_raised(v, 1, 0xC000_0000_0000_0000);
}

/// What is read: the two topmost bits of the first byte tell how many bytes
/// the value takes, and the value is made of all the other bits.
pub proof fn law_varint_reading(buf: Seq<u8>)
    ensures
        buf.len() == 0 ==> varint_value(buf) is None,
        buf.len() > 0 && buf[0] < 0x40 ==> varint_value(buf) == Some((buf[0] as u64, 1usize)),
        buf.len() > 0 && 0x40 <= buf[0] < 0x80 ==> varint_value(buf) == (if buf.len() < 2 {
            None
        } else {
            Some((((buf[0] - 0x40) * 0x100 + buf[1]) as u64, 2usize))
        }),
        buf.len() > 0 && 0x80 <= buf[0] < 0xC0 ==> varint_value(buf) == (if buf.len() < 4 {
            None
        } else {
            Some(
                (
                    ((buf[0] - 0x80) * 0x100_0000 + buf[1] * 0x1_0000 + buf[2] * 0x100
                        + buf[3]) as u64,
                    4usize,
                ),
            )
        }),
        buf.len() > 0 && 0xC0 <= buf[0] ==> varint_value(buf) == (if buf.len() < 8 {
            None
        } else {
            Some(
                (
                    ((buf[0] - 0xC0) * 0x100_0000_0000_0000 + buf[1] * 0x1_0000_0000_0000 + buf[2]
                        * 0x100_0000_0000 + buf[3] * 0x1_0000_0000 + buf[4] * 0x100_0000 + buf[5]
                        * 0x1_0000 + buf[6] * 0x100 + buf[7]) as u64,
                    8usize,
                ),
            )
        }),
{
    if buf.len() > 0 && buf.len() >= varint_width(buf[0]) {
        let n = varint_width(buf[0]) as int;
        let bytes = buf.take(n);
        reveal_with_fuel(be_value, 9);
        assert(forall|i: int|
            0 <= i < bytes.len() ==> #[trigger] bytes.take(i + 1).drop_last() =~= bytes.take(i));
        assert(bytes.take(n) =~= bytes);
        assert(bytes.take(0) =~= Seq::<u8>::empty());
        assert(forall|i: int|
            0 <= i < bytes.len() ==> #[trigger] bytes.take(i + 1).last() == buf[i]);
        lemma_be_value_steps(bytes);
    }
}

/// The number that bytes write, one byte more at a time.
proof fn lemma_be_value_steps(bytes: Seq<u8>)
    ensures
        forall|i: int|
            0 <= i < bytes.len() ==> be_value(#[trigger] bytes.take(i + 1)) == be_value(
                bytes.take(i),
            ) * 0x100 + bytes[i],
{
    assert forall|i: int| 0 <= i < bytes.len() implies be_value(#[trigger] bytes.take(i + 1))
        == be_value(bytes.take(i)) * 0x100 + bytes[i] by {
        assert(bytes.take(i + 1).drop_last() =~= bytes.take(i));
    }
}

/// A reader gets back what a writer wrote, whatever follows it.
pub proof fn law_varint_roundtrip(v: u64, rest: Seq<u8>)
    requires
        v <= VARINT_MAX,
    ensures
        varint_value(varint_bytes(v as nat) + rest) == Some(
            (v, varint_bytes(v as nat).len() as usize),
        ),
        varint_bytes(v as nat).len() == varint_size(v as nat),
{
    let n = varint_size(v as nat);
    let x = v as nat + varint_prefix(n);
    let bytes = be_bytes(x, n);
    lemma_be_roundtrip(x, n);
    lemma_be_value_bounds(bytes);
    assert((bytes + rest).take(n as int) =~= bytes);
    assert((bytes + rest)[0] == bytes[0]);
}

/// No value above [`VARINT_MAX`] is ever read, and no more bytes are taken
/// than there are.
pub proof fn law_varint_value_bounded(buf: Seq<u8>)
    ensures
        varint_value(buf) matches Some((v, n)) ==> v <= VARINT_MAX && 1 <= n <= buf.len(),
{
    if varint_value(buf) is Some {
        lemma_be_value_bounds(buf.take(varint_width(buf[0]) as int));
    }
}

/// Once a value has been read, further bytes do not change it.
pub proof fn law_varint_stable(buf: Seq<u8>, more: Seq<u8>)
    requires
        varint_value(buf) is Some,
    ensures
        varint_value(buf + more) == varint_value(buf),
{
    let n = varint_width(buf[0]);
    assert((buf + more).take(n as int) =~= buf.take(n as int));
}

/// Two encodings that start the same bytes encode the same value, and are
/// followed by the same bytes.
pub proof fn law_varint_unambiguous(a: u64, b: u64, after_a: Seq<u8>, after_b: Seq<u8>)
    requires
        a <= VARINT_MAX,
        b <= VARINT_MAX,
        varint_bytes(a as nat) + after_a == varint_bytes(b as nat) + after_b,
    ensures
        a == b,
        after_a == after_b,
{
    law_varint_roundtrip(a, after_a);
    law_varint_roundtrip(b, after_b);
    let n = varint_bytes(a as nat).len() as int;
    assert(after_a =~= (varint_bytes(a as nat) + after_a).skip(n));
    assert(after_b =~= (varint_bytes(b as nat) + after_b).skip(n));
}

/// The writer uses no more bytes than any encoding that reads as the same
/// value.
pub proof fn law_varint_shortest(buf: Seq<u8>)
    ensures
        varint_value(buf) matches Some((v, n)) ==> varint_bytes(v as nat).len() <= n,
{
    if varint_value(buf) is Some {
        let (v, _n) = varint_value(buf)->0;
        lemma_be_value_bounds(buf.take(varint_width(buf[0]) as int));
        law_varint_roundtrip(v, Seq::empty());
    }
}

} // verus!
