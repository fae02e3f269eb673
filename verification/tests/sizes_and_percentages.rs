use disk_analyzer::percent::{percentage, round_percent, DecimalValue};
use disk_analyzer::sizes::{push_decimal, size, size_label};

fn dec(mantissa: i128, scale: u32) -> DecimalValue {
    DecimalValue { mantissa, scale }
}

#[test]
fn size_label_picks_unit_above_each_threshold() {
    assert_eq!(size_label(0), "0 B");
    assert_eq!(size_label(999), "999 B");
    assert_eq!(size_label(1000), "1000 B");
    assert_eq!(size_label(1001), "1 KB");
    assert_eq!(size_label(1_000_000), "1000 KB");
    assert_eq!(size_label(1_000_001), "1 MB");
    assert_eq!(size_label(123_456_789), "123 MB");
    assert_eq!(size_label(1_000_000_000), "1000 MB");
    assert_eq!(size_label(1_500_000_001), "1 GB");
    assert_eq!(size_label(u64::MAX), "18446744073 GB");
}

#[test]
fn size_labels_keep_order() {
    let labels = size(&vec![4096, 17, 2_500_000, 7_000_000_000]);
    assert_eq!(labels, vec!["4 KB", "17 B", "2 MB", "7 GB"]);
    assert!(size(&vec![]).is_empty());
}

#[test]
fn push_decimal_appends_digits() {
    let mut s = String::from("n=");
    push_decimal(&mut s, 9051);
    assert_eq!(s, "n=9051");
    let mut z = String::new();
    push_decimal(&mut z, 0);
    assert_eq!(z, "0");
}

#[test]
fn percentage_of_whole_directory_is_hundred() {
    let p = percentage(&vec![200, 50, 0, 200]);
    assert_eq!(p, vec![dec(100, 0), dec(25, 0), dec(0, 0), dec(100, 0)]);
    assert_eq!(percentage(&vec![0]), vec![dec(100, 0)]);
}

#[test]
fn percentage_rounds_to_one_decimal() {
    assert_eq!(percentage(&vec![3, 1]), vec![dec(100, 0), dec(333, 1)]);
    assert_eq!(percentage(&vec![7, 1]), vec![dec(100, 0), dec(143, 1)]);
    assert_eq!(percentage(&vec![8, 3]), vec![dec(100, 0), dec(375, 1)]);
}

#[test]
fn percentage_rounds_ties_to_even() {
    // 100 / 16 = 6.25, which rounds to 6.2
    assert_eq!(percentage(&vec![16, 1]), vec![dec(100, 0), dec(62, 1)]);
    // 300 / 8 = 37.5 and 100 / 8 = 12.5 keep their one digit
    assert_eq!(percentage(&vec![8, 1]), vec![dec(100, 0), dec(125, 1)]);
}

#[test]
fn round_percent_follows_bankers_rounding() {
    assert_eq!(round_percent(dec(1225, 2)), dec(122, 1));
    assert_eq!(round_percent(dec(1235, 2)), dec(124, 1));
    assert_eq!(round_percent(dec(-1225, 2)), dec(-122, 1));
    assert_eq!(round_percent(dec(1251, 2)), dec(125, 1));
    assert_eq!(round_percent(dec(125, 1)), dec(125, 1));
    assert_eq!(round_percent(dec(7, 0)), dec(7, 0));
    assert_eq!(round_percent(dec(333_333_333, 7)), dec(333, 1));
}

#[test]
fn rounding_stays_within_half_a_tenth() {
    for m in [0i128, 4, 5, 6, 14, 15, 16, 25, 35, 99, 12345] {
        let r = round_percent(dec(m, 2));
        assert_eq!(r.scale, 1);
        let diff = r.mantissa * 10 - m;
        assert!(-10 <= 2 * diff && 2 * diff <= 10);
    }
}

#[test]
fn rounding_keeps_order() {
    let mut last = round_percent(dec(0, 3)).mantissa;
    for m in 1..3000i128 {
        let r = round_percent(dec(m, 3)).mantissa;
        assert!(last <= r);
        last = r;
    }
}

#[test]
fn empty_entry_takes_zero_percent() {
    let p = percentage(&vec![12345, 0, 12345]);
    assert_eq!(p[1], dec(0, 0));
}

#[test]
fn percentage_is_the_exact_share_rounded_to_tenths() {
    // 100 / 6 = 16.666.. rounds to 16.7
    assert_eq!(percentage(&vec![6, 1]), vec![dec(100, 0), dec(167, 1)]);
    // 100 / 2000 = 0.05 is a tie and rounds to the even 0.0
    assert_eq!(percentage(&vec![2000, 1]), vec![dec(100, 0), dec(0, 1)]);
    // 100 * 999 / 1000 = 99.9 and 100 * 9996 / 10000 = 99.96 rounds to 100.0
    assert_eq!(percentage(&vec![1000, 999]), vec![dec(100, 0), dec(999, 1)]);
    assert_eq!(percentage(&vec![10000, 9996]), vec![dec(100, 0), dec(1000, 1)]);
}

#[test]
fn percentages_depend_only_on_ratios() {
    let base = percentage(&vec![7, 1, 3, 6, 0]);
    assert_eq!(percentage(&vec![70, 10, 30, 60, 0]), base);
    assert_eq!(percentage(&vec![7_000_000_007, 1_000_000_001, 3_000_000_003, 6_000_000_006, 0]), base);
}

#[test]
fn shares_of_smaller_entries_stay_within_hundred_and_in_order() {
    let total: u64 = 987_654_321;
    let parts: Vec<u64> = vec![total, 0, 1, 12_345, 98_765_432, 493_827_160, 493_827_161, 987_654_320, total];
    let p = percentage(&parts);
    let mut last = -1i128;
    for (k, d) in p.iter().enumerate().skip(1) {
        let tenths = if d.scale == 0 { 10 * d.mantissa } else { d.mantissa };
        assert!(0 <= tenths && tenths <= 1000);
        assert!(last <= tenths);
        last = tenths;
        let exact = 1000 * parts[k] as i128;
        let diff = tenths * total as i128 - exact;
        assert!(-(total as i128) <= 2 * diff && 2 * diff <= total as i128);
    }
}

fn expected_share(part: u64, total: u64) -> DecimalValue {
    let (p, t) = (part as u128, total as u128);
    if (100 * p) % t == 0 {
        return dec(((100 * p) / t) as i128, 0);
    }
    let n = 1000 * p;
    let (q, r) = (n / t, n % t);
    let rounded = if 2 * r > t || (2 * r == t && q % 2 == 1) { q + 1 } else { q };
    dec(rounded as i128, 1)
}

#[test]
fn percentage_matches_exact_rounding_over_many_sizes() {
    let mut x: u64 = 0x9E37_79B9_7F4A_7C15;
    let mut next = || {
        x ^= x << 13;
        x ^= x >> 7;
        x ^= x << 17;
        x
    };
    for round in 0..2000u64 {
        let cap = if round % 2 == 0 { i64::MAX as u64 } else { 1 + round * 1000 };
        let total = 1 + next() % cap;
        let parts: Vec<u64> = (0..8).map(|_| next() % cap).collect();
        let mut sizes = vec![total];
        sizes.extend(parts.iter().copied());
        let p = percentage(&sizes);
        assert_eq!(p[0], dec(100, 0));
        for (k, part) in parts.iter().enumerate() {
            assert_eq!(p[k + 1], expected_share(*part, total), "part {} of {}", part, total);
        }
    }
}
