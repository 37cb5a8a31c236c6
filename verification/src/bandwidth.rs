//! Bandwidth hints such as `100 mbps`.

use crate::double::TWO_53;
use crate::float::{
    float_product, is_float, law_integer_products, law_integers_are_floats, scaled_float,
};
use crate::number::{
    decimal, is_digit, law_decimal_roundtrip, law_parse_u64, lemma_decimal_digits, parse_u64,
    read_u64,
};
use crate::text::{
    ascii_lower, ascii_lowercase, chars_of, is_white_space, law_trim,
    lemma_lower_keeps_white_space, lemma_trim_lowercase, lemma_trim_twice, str_eq, trim, trimmed,
};
use vstd::prelude::*;
use vstd::string::StrSliceExecFns;

verus! {

/// The bits per second in a megabit per second.
pub const MEGABIT: u64 = 1_000_000;

/// The bits per second that a unit stands for.
pub open spec fn unit_bps(unit: Seq<char>) -> Option<u64> {
    if unit == "bps"@ {
        Some(1)
    } else if unit == "kbps"@ || unit == "kbit/s"@ {
        Some(1_000)
    } else if unit == "mbps"@ || unit == "mbit/s"@ {
        Some(1_000_000)
    } else if unit == "gbps"@ || unit == "gbit/s"@ {
        Some(1_000_000_000)
    } else {
        None
    }
}

/// What a hint says.
pub enum BandwidthHint {
    /// A bare integer, in megabits per second.
    Megabits(u64),
    /// A floating-point number, as it is written, times a unit in bits per
    /// second.
    Scaled(Seq<char>, u64),
    /// Anything else.
    Invalid,
}

/// Whether the first white space of `s` is at place `i`.
pub open spec fn first_white_space(s: Seq<char>, i: int) -> bool {
    &&& 0 <= i < s.len()
    &&& is_white_space(s[i])
    &&& forall|j: int| 0 <= j < i ==> !is_white_space(#[trigger] s[j])
}

/// Whether `s` has white space.
pub open spec fn has_white_space(s: Seq<char>) -> bool {
    exists|i: int| 0 <= i < s.len() && is_white_space(#[trigger] s[i])
}

/// The meaning of a hint: the text, trimmed and in lower case, is a bare
/// integer, or a number and a unit with white space between them.
pub open spec fn bandwidth_hint(s: Seq<char>) -> BandwidthHint {
    let t = ascii_lowercase(trim(s));
    match parse_u64(t) {
        Some(n) => BandwidthHint::Megabits(n),
        None => if has_white_space(t) {
            let i = choose|i: int| first_white_space(t, i);
            match unit_bps(trim(t.skip(i + 1))) {
                Some(bps) if is_float(t.take(i)) => BandwidthHint::Scaled(t.take(i), bps),
                _ => BandwidthHint::Invalid,
            }
        } else {
            BandwidthHint::Invalid
        },
    }
}

/// The bits per second of a hint.
pub open spec fn hint_bps(hint: BandwidthHint) -> Option<u64> {
    match hint {
        BandwidthHint::Megabits(n) => Some((n * MEGABIT) as u64),
        BandwidthHint::Scaled(number, bps) => Some(float_product(number, bps as nat)),
        BandwidthHint::Invalid => None,
    }
}

fn unit_of(unit: &str) -> (r: Option<u64>)
    ensures
        r == unit_bps(unit@),
{
    if str_eq(unit, "bps") {
        Some(1)
    } else if str_eq(unit, "kbps") || str_eq(unit, "kbit/s") {
        Some(1_000)
    } else if str_eq(unit, "mbps") || str_eq(unit, "mbit/s") {
        Some(1_000_000)
    } else if str_eq(unit, "gbps") || str_eq(unit, "gbit/s") {
        Some(1_000_000_000)
    } else {
        None
    }
}

/// The megabits per second of a hint that is a bare integer.
pub fn bare_megabits(s: &str) -> (r: Option<u64>)
    ensures
        r == (match bandwidth_hint(s@) {
            BandwidthHint::Megabits(n) => Some(n),
            _ => None,
        }),
{
    let t = trimmed(s).to_ascii_lowercase();
    read_u64(t.as_str())
}

/// Reads a hint such as `100 mbps`, `50 kbps` or `1 gbps`, or a bare integer in
/// megabits per second, and gives the bits per second.
pub fn parse_bandwidth_bps(s: &str) -> (r: Option<u64>)
    requires
        bandwidth_hint(s@) matches BandwidthHint::Megabits(n) ==> n * MEGABIT <= u64::MAX,
    ensures
        r == hint_bps(bandwidth_hint(s@)),
{
    let t = trimmed(s).to_ascii_lowercase();
    if let Some(n) = read_u64(t.as_str()) {
        return Some(n * MEGABIT);
    }
    let v = chars_of(t.as_str());
    let len = v.len();
    let mut i: usize = 0;
    while i < len && !v[i].is_whitespace()
        invariant
            v@ == t@,
            len == v@.len(),
            i <= len,
            forall|j: int| 0 <= j < i ==> !is_white_space(#[trigger] t@[j]),
        decreases len - i,
    {
        i = i + 1;
    }
    if i == len {
        return None;
    }
    proof {
        assert(is_white_space(t@[i as int]));
        assert(first_white_space(t@, i as int));
        let k = choose|k: int| first_white_space(t@, k);
        assert(k == i) by {
            if k < i {
                assert(!is_white_space(t@[k]));
            }
            if i < k {
                assert(!is_white_space(t@[i as int]));
            }
        }
        assert(t@.subrange(i + 1, len as int) =~= t@.skip(i + 1));
        assert(t@.subrange(0, i as int) =~= t@.take(i as int));
    }
    let bps = match unit_of(trimmed(t.as_str().substring_char(i + 1, len))) {
        Some(bps) => bps,
        None => return None,
    };
    let number = t.as_str().substring_char(0, i);
    scaled_float(number, bps)
}

/// Neither capitals nor the white space around a hint matter.
pub proof fn law_case_and_space(s: Seq<char>)
    ensures
        bandwidth_hint(ascii_lowercase(s)) == bandwidth_hint(s),
        bandwidth_hint(trim(s)) == bandwidth_hint(s),
{
    lemma_trim_lowercase(s);
    lemma_trim_lowercase(trim(s));
    lemma_trim_twice(s);
}

/// A hint is a bare integer if and only if its text, trimmed and in lower case,
/// reads as one; then it is in megabits per second.
pub proof fn law_bare_integers(s: Seq<char>)
    ensures
        bandwidth_hint(s) is Megabits <==> parse_u64(ascii_lowercase(trim(s))) is Some,
        parse_u64(ascii_lowercase(trim(s))) matches Some(n) ==> bandwidth_hint(s)
            == BandwidthHint::Megabits(n) && hint_bps(bandwidth_hint(s)) == Some(
            (n * 1_000_000) as u64,
        ),
{
}

/// A hint without white space in it is a bare integer or nothing.
pub proof fn law_hints_need_a_unit(s: Seq<char>)
    requires
        parse_u64(ascii_lowercase(trim(s))) is None,
        forall|i: int|
            0 <= i < trim(s).len() ==> !is_white_space(#[trigger] ascii_lowercase(trim(s))[i]),
    ensures
        hint_bps(bandwidth_hint(s)) is None,
{
}

/// A number and a unit, with any white space between them: the bits per second
/// are the product of the number and one, a thousand, a million or a thousand
/// millions, by the unit.  Without a number, or with any other unit, a hint
/// says nothing.
pub proof fn law_hints_with_a_unit(
    s: Seq<char>,
    number: Seq<char>,
    space: Seq<char>,
    unit: Seq<char>,
)
    requires
        ascii_lowercase(trim(s)) == number + space + unit,
        forall|i: int| 0 <= i < number.len() ==> !is_white_space(#[trigger] number[i]),
        space.len() > 0,
        forall|i: int| 0 <= i < space.len() ==> is_white_space(#[trigger] space[i]),
        unit.len() > 0,
        !is_white_space(unit[0]),
    ensures
        !is_float(number) ==> hint_bps(bandwidth_hint(s)) is None,
        is_float(number) && unit == "bps"@ ==> hint_bps(bandwidth_hint(s)) == Some(
            float_product(number, 1),
        ),
        is_float(number) && (unit == "kbps"@ || unit == "kbit/s"@) ==> hint_bps(bandwidth_hint(s))
            == Some(float_product(number, 1_000)),
        is_float(number) && (unit == "mbps"@ || unit == "mbit/s"@) ==> hint_bps(bandwidth_hint(s))
            == Some(float_product(number, 1_000_000)),
        is_float(number) && (unit == "gbps"@ || unit == "gbit/s"@) ==> hint_bps(bandwidth_hint(s))
            == Some(float_product(number, 1_000_000_000)),
        unit != "bps"@ && unit != "kbps"@ && unit != "kbit/s"@ && unit != "mbps"@ && unit
            != "mbit/s"@ && unit != "gbps"@ && unit != "gbit/s"@ ==> hint_bps(
            bandwidth_hint(s),
        ) is None,
{
    let t = ascii_lowercase(trim(s));
    let at = number.len() as int;
    let (from, to) = law_trim(s);
    reveal_strlit("bps");
    reveal_strlit("kbps");
    reveal_strlit("kbit/s");
    reveal_strlit("mbps");
    reveal_strlit("mbit/s");
    reveal_strlit("gbps");
    reveal_strlit("gbit/s");
    assert(t.len() == to - from);
    assert(t.last() == ascii_lower(s[to - 1]));
    lemma_lower_keeps_white_space(s[to - 1]);
    assert(t.last() == unit.last());
    assert(trim(unit) == unit);
    assert(t[at] == space[0]);
    assert(is_white_space(t[at]));
    law_parse_u64(t);
    assert(!(0x30 <= t[at] as int <= 0x39));
    assert(parse_u64(t) is None);
    assert forall|j: int| 0 <= j < at implies !is_white_space(#[trigger] t[j]) by {
        assert(t[j] == number[j]);
    }
    assert(first_white_space(t, at));
    let k = choose|k: int| first_white_space(t, k);
    assert(k == at) by {
        if k < at {
            assert(!is_white_space(t[k]));
        }
        if at < k {
            assert(!is_white_space(t[at]));
        }
    }
    assert(t.take(at) =~= number);
    assert(t.skip(at + 1) =~= space.skip(1) + unit);
    lemma_trim_leading(space.skip(1), unit);
}

/// White space in front of a trimmed text is trimmed away.
proof fn lemma_trim_leading(space: Seq<char>, text: Seq<char>)
    requires
        forall|i: int| 0 <= i < space.len() ==> is_white_space(#[trigger] space[i]),
        trim(text) == text,
    ensures
        trim(space + text) == text,
    decreases space.len(),
{
    if space.len() == 0 {
        assert(space + text =~= text);
    } else {
        let rest = space.drop_first();
        assert((space + text)[0] == space[0]);
        assert((space + text).drop_first() =~= rest + text);
        assert forall|i: int| 0 <= i < rest.len() implies is_white_space(#[trigger] rest[i]) by {
            assert(space[i + 1] == rest[i]);
        }
        lemma_trim_leading(rest, text);
    }
}

proof fn lemma_unit_chars(unit: Seq<char>)
    requires
        unit_bps(unit) is Some,
    ensures
        unit.len() > 0,
        forall|i: int|
            0 <= i < unit.len() ==> !is_white_space(#[trigger] unit[i]) && ascii_lower(unit[i])
                == unit[i],
{
    reveal_strlit("bps");
    reveal_strlit("kbps");
    reveal_strlit("kbit/s");
    reveal_strlit("mbps");
    reveal_strlit("mbit/s");
    reveal_strlit("gbps");
    reveal_strlit("gbit/s");
}

/// A bare integer is in megabits per second.  With a unit, an integer is
/// multiplied by the unit, exactly as long as the product is below `2^53`.
pub proof fn law_whole_hints(n: u64, unit: Seq<char>)
    requires
        unit_bps(unit) is Some,
    ensures
        bandwidth_hint(decimal(n as nat)) == BandwidthHint::Megabits(n),
        bandwidth_hint(decimal(n as nat) + " "@ + unit) == BandwidthHint::Scaled(
            decimal(n as nat),
            unit_bps(unit)->0,
        ),
        n * unit_bps(unit)->0 < TWO_53 ==> hint_bps(
            bandwidth_hint(decimal(n as nat) + " "@ + unit),
        ) == Some((n * unit_bps(unit)->0) as u64),
{
    let d = decimal(n as nat);
    let t = d + " "@ + unit;
    let at = d.len() as int;
    let bps = unit_bps(unit)->0;
    reveal_strlit(" ");
    lemma_decimal_digits(n as nat);
    law_decimal_roundtrip(n);
    lemma_unit_chars(unit);
    assert(forall|i: int| 0 <= i < at ==> is_digit(#[trigger] d[i]));
    assert(is_digit(d[0]) && is_digit(d[at - 1]));
    assert(trim(d) == d);
    assert(ascii_lowercase(d) =~= d);
    assert(t[0] == d[0]);
    assert(t.last() == unit[unit.len() - 1]);
    assert(trim(t) == t);
    assert forall|i: int| 0 <= i < t.len() implies ascii_lowercase(t)[i] == t[i] by {
        if i < at {
            assert(is_digit(d[i]));
        } else if i > at {
            assert(ascii_lower(unit[i - at - 1]) == unit[i - at - 1]);
        }
    }
    assert(ascii_lowercase(t) =~= t);
    assert(t[at] == ' ');
    assert(!is_digit(t[at]));
    assert(parse_u64(t) is None);
    assert(is_white_space(t[at]));
    assert forall|j: int| 0 <= j < at implies !is_white_space(#[trigger] t[j]) by {
        assert(is_digit(d[j]));
    }
    assert(first_white_space(t, at));
    let k = choose|k: int| first_white_space(t, k);
    assert(k == at) by {
        if k < at {
            assert(!is_white_space(t[k]));
        }
        if at < k {
            assert(!is_white_space(t[at]));
        }
    }
    assert(t.take(at) =~= d);
    assert(t.skip(at + 1) =~= unit);
    assert(!is_white_space(unit[0]) && !is_white_space(unit[unit.len() - 1]));
    assert(trim(unit) == unit);
    law_integers_are_floats(d);
    if n * bps < TWO_53 {
        law_integer_products(n as nat, bps as nat);
    }
}

} // verus!
