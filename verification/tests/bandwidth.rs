//! Bandwidth hints, held against double precision.

use hysteria2::bandwidth::{bare_megabits, parse_bandwidth_bps};
use hysteria2::float::scaled_float;

fn reference(number: &str, factor: u64) -> Option<u64> {
    number.parse::<f64>().ok().map(|n| (n * factor as f64) as u64)
}

const FACTORS: [u64; 4] = [1, 1_000, 1_000_000, 1_000_000_000];

fn agree(number: &str) {
    for factor in FACTORS {
        assert_eq!(
            scaled_float(number, factor),
            reference(number, factor),
            "{number} times {factor}"
        );
    }
}

struct Source(u64);

impl Source {
    fn next(&mut self) -> u64 {
        self.0 ^= self.0 << 13;
        self.0 ^= self.0 >> 7;
        self.0 ^= self.0 << 17;
        self.0
    }
}

#[test]
fn parse_bandwidth_bps_variants() {
    assert_eq!(parse_bandwidth_bps("100 mbps"), Some(100_000_000));
    assert_eq!(parse_bandwidth_bps("50 kbps"), Some(50_000));
    assert_eq!(parse_bandwidth_bps("1 gbps"), Some(1_000_000_000));
    assert_eq!(parse_bandwidth_bps("100"), Some(100_000_000)); // bare int = Mbps
    assert_eq!(parse_bandwidth_bps("1000 bps"), Some(1000));
    assert_eq!(parse_bandwidth_bps("invalid"), None);
}

#[test]
fn every_unit() {
    assert_eq!(parse_bandwidth_bps("3 bps"), Some(3));
    assert_eq!(parse_bandwidth_bps("3 kbit/s"), Some(3_000));
    assert_eq!(parse_bandwidth_bps("3 mbit/s"), Some(3_000_000));
    assert_eq!(parse_bandwidth_bps("3 gbit/s"), Some(3_000_000_000));
    assert_eq!(parse_bandwidth_bps("3 tbps"), None);
    assert_eq!(parse_bandwidth_bps("3 mbps extra"), None);
}

#[test]
fn case_and_space_do_not_matter() {
    assert_eq!(parse_bandwidth_bps("  100\t MBps \n"), Some(100_000_000));
    assert_eq!(parse_bandwidth_bps("\u{3000}7\u{2003}Gbit/S\u{a0}"), Some(7_000_000_000));
    assert_eq!(parse_bandwidth_bps(" 12 "), Some(12_000_000));
    assert_eq!(parse_bandwidth_bps("1E3 BPS"), Some(1_000));
    assert_eq!(parse_bandwidth_bps("1\u{200b}bps"), None);
}

#[test]
fn bare_integers() {
    assert_eq!(parse_bandwidth_bps("0"), Some(0));
    assert_eq!(parse_bandwidth_bps("+5"), Some(5_000_000));
    assert_eq!(parse_bandwidth_bps("007"), Some(7_000_000));
    assert_eq!(
        parse_bandwidth_bps("18446744073709"),
        Some(18_446_744_073_709_000_000)
    );
    assert_eq!(bare_megabits(" 18446744073709551615 "), Some(u64::MAX));
    assert_eq!(bare_megabits("5 mbps"), None);
    assert_eq!(parse_bandwidth_bps("5"), parse_bandwidth_bps("5 mbps"));
}

#[test]
fn not_bare_integers() {
    for text in ["", " ", "+", "-5", "1.5", "18446744073709551616", "100mbps", "mbps", "5,5"] {
        assert_eq!(parse_bandwidth_bps(text), None, "{text:?}");
    }
}

#[test]
fn fractions() {
    assert_eq!(parse_bandwidth_bps("1.5 mbps"), Some(1_500_000));
    assert_eq!(parse_bandwidth_bps(".5 kbps"), Some(500));
    assert_eq!(parse_bandwidth_bps("2. gbps"), Some(2_000_000_000));
    assert_eq!(parse_bandwidth_bps("0.9 bps"), Some(0));
    // 1.001 is a little below the decimal number, and so is the product.
    assert_eq!(parse_bandwidth_bps("1.001 kbps"), Some(1000));
    assert_eq!(parse_bandwidth_bps("2.5e-3 gbps"), Some(2_500_000));
}

#[test]
fn out_of_range_numbers() {
    assert_eq!(parse_bandwidth_bps("-3 mbps"), Some(0));
    assert_eq!(parse_bandwidth_bps("nan mbps"), Some(0));
    assert_eq!(parse_bandwidth_bps("-inf bps"), Some(0));
    assert_eq!(parse_bandwidth_bps("Infinity bps"), Some(u64::MAX));
    assert_eq!(parse_bandwidth_bps("1e300 gbps"), Some(u64::MAX));
    assert_eq!(parse_bandwidth_bps("1e99999999999999999999999 bps"), Some(u64::MAX));
    assert_eq!(parse_bandwidth_bps("1e-99999999999999999999999 bps"), Some(0));
    assert_eq!(parse_bandwidth_bps("0e99999999999999999999999 bps"), Some(0));
}

#[test]
fn no_numbers() {
    for text in [
        ". bps", "e5 bps", "1e bps", "1e+ bps", "1.2.3 bps", "++1 bps", "1_0 bps", "0x10 bps",
        "infin bps", "+- bps", "1e5.0 bps", "x bps",
    ] {
        assert_eq!(parse_bandwidth_bps(text), None, "{text:?}");
    }
}

#[test]
fn number_grammar_agrees() {
    for text in [
        "", "+", "-", ".", "+.", "1", "+1", "-1", "1.", ".1", "+.1", "1.1", "1..1", "1.1.1", "e",
        "1e", "1e1", "1e+1", "1e-1", "1e+", "1e-", "e1", ".e1", "1.e1", ".1e1", "1e1e1", "1e1.1",
        "inf", "+inf", "-inf", "infinity", "-infinity", "infinit", "nan", "+nan", "-nan", "nano",
        "0", "00", "-0", "0.0", "1a", "a1", "1 1", "\u{0661}", "1e\u{0661}", "1e00000000001",
        "1e-00000000001", "+-1", "--1", "e+1", "1,5",
    ] {
        agree(text);
    }
}

#[test]
fn rounding_edges_agree() {
    for text in [
        "9007199254740991",
        "9007199254740992",
        "9007199254740993",
        "9007199254740993.0000000000000000000000000000000000000000000000001",
        "9007199254740994.9999999999999999999999999999",
        "9007199254740995",
        "4503599627370496.5",
        "4503599627370497.5",
        "4503599627370497.4999999999999999999999999999999999999999999",
        "4503599627370497.50000000000000000000000000000000000000001",
        "18446744073709551615",
        "18446744073709551616",
        "18446744073709550591",
        "18446744073709550592",
        "18446744073709549568",
        "18446744073.709551615",
        "18446744073.709551616",
        "0.000000000465661287307739257812",
        "0.0000000004656612873077392578125",
        "0.00000000046566128730773925781250001",
        "0.0000000009999999999999999999",
        "0.000000001",
        "0.00000000100000000000000000001",
        "1e-10",
        "9.999999999999999e-10",
        "99999999999999999999",
        "100000000000000000000",
        "1e19",
        "1.8446744073709552e19",
        "1e20",
        "1e-320",
        "5e-324",
        "1.7976931348623157e308",
        "1.7976931348623159e308",
        "2.2250738585072014e-308",
        "0.1",
        "0.29",
        "1.001",
        "4.35",
        "1.15",
        "2.675",
        "0.3",
        "1.0000000000000002220446049250313080847263336181640625",
        "1.00000000000000011102230246251565404236316680908203125",
        "1.00000000000000011102230246251565404236316680908203126",
        "1.00000000000000033306690738754696212708950042724609375",
        "000000000000000000000000000000000000000000000000001.5",
        "0.00000000000000000000000000000000000000000000000000015e50",
        "150000000000000000000000000000000000000000000000000000e-50",
    ] {
        agree(text);
    }
}

#[test]
fn random_decimals_agree() {
    let mut source = Source(0x9E37_79B9_7F4A_7C15);
    for _ in 0..20_000 {
        let whole = source.next() >> (source.next() % 64);
        let fraction = source.next() >> (source.next() % 64);
        let zeros = "0".repeat((source.next() % 6) as usize);
        agree(&format!("{whole}.{zeros}{fraction}"));
    }
}

#[test]
fn random_exponents_agree() {
    let mut source = Source(0x1234_5678_9ABC_DEF1);
    for _ in 0..20_000 {
        let whole = source.next() >> (source.next() % 64);
        let fraction = source.next() >> (source.next() % 64);
        let exponent = (source.next() % 61) as i64 - 40;
        agree(&format!("{whole}.{fraction}e{exponent}"));
    }
}

#[test]
fn ties_agree() {
    // Halfway between two doubles, written out in full, and just beside it.
    let mut source = Source(0xDEAD_BEEF_CAFE_F00D);
    for _ in 0..5_000 {
        let bits = (source.next() % (1 << 52)) | (1 << 52);
        let shift = source.next() % 11 + 1;
        let tie = ((2 * bits as u128 + 1) << shift) >> 1;
        agree(&format!("{tie}"));
        agree(&format!("{tie}.0000000000000000000000001"));
        agree(&format!("{}.9999999999999999999999999", tie - 1));
    }
}

#[test]
fn whole_numbers_are_exact() {
    let mut source = Source(77);
    for _ in 0..2_000 {
        let n = source.next() >> 41;
        for factor in [1u64, 1_000, 1_000_000, 1_000_000_000] {
            assert_eq!(scaled_float(&format!("{n}"), factor), Some(n * factor));
        }
    }
}
