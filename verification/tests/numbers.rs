use airhorizon::ieee::{Double, Single};
use airhorizon::text::{
    contains_piece, parse_text, parse_unsigned, same_bytes, same_ignoring_case, same_text,
    split_words, text_at_most, trim,
};

fn d(v: f64) -> Double {
    Double { bits: v.to_bits() }
}

fn s(v: f32) -> Single {
    Single { bits: v.to_bits() }
}

const WIDE: [f64; 11] = [
    f64::NEG_INFINITY,
    -1.5e300,
    -2.0,
    -5e-324,
    -0.0,
    0.0,
    5e-324,
    1.0,
    1.000_000_000_000_000_2,
    f64::INFINITY,
    f64::NAN,
];

const NARROW: [f32; 11] = [
    f32::NEG_INFINITY,
    -1.5e30,
    -2.0,
    -1e-45,
    -0.0,
    0.0,
    1e-40,
    f32::MIN_POSITIVE,
    1.0,
    f32::MAX,
    f32::NAN,
];

#[test]
fn doubles_compare_as_numbers() {
    for a in WIDE {
        assert_eq!(d(a).is_nan(), a.is_nan());
        assert_eq!(d(a).is_finite(), a.is_finite());
        for b in WIDE {
            assert_eq!(d(a).lt(d(b)), a < b, "{a} < {b}");
            assert_eq!(d(a).le(d(b)), a <= b, "{a} <= {b}");
            assert_eq!(d(a).equals(d(b)), a == b, "{a} == {b}");
            if !a.is_nan() && !b.is_nan() {
                assert_eq!(d(a).order_key() < d(b).order_key(), a < b);
            }
        }
    }
}

#[test]
fn singles_compare_as_numbers() {
    for a in NARROW {
        assert_eq!(s(a).is_nan(), a.is_nan());
        assert_eq!(s(a).is_finite(), a.is_finite());
        for b in NARROW {
            assert_eq!(s(a).lt(s(b)), a < b, "{a} < {b}");
            assert_eq!(s(a).le(s(b)), a <= b, "{a} <= {b}");
        }
    }
}

#[test]
fn maximum_and_minimum_pass_over_nan() {
    assert_eq!(d(1.0).max(d(2.0)), d(2.0));
    assert_eq!(d(f64::NAN).max(d(2.0)), d(2.0));
    assert_eq!(d(2.0).max(d(f64::NAN)), d(2.0));
    assert_eq!(s(1.0).max(s(2.0)), s(2.0));
    assert_eq!(s(f32::NAN).max(s(-2.0)), s(-2.0));
    assert_eq!(s(1.0).min(s(2.0)), s(1.0));
    assert_eq!(s(1.0).min(s(f32::NAN)), s(1.0));
    assert_eq!(s(f32::NAN).min(s(-2.0)), s(-2.0));
}

#[test]
fn clamping_keeps_nan() {
    assert_eq!(d(5.0).clamp(d(1.0), d(3.0)), d(3.0));
    assert_eq!(d(-5.0).clamp(d(1.0), d(3.0)), d(1.0));
    assert_eq!(d(2.0).clamp(d(1.0), d(3.0)), d(2.0));
    assert!(d(f64::NAN).clamp(d(1.0), d(3.0)).is_nan());
}

#[test]
fn widening_keeps_the_number() {
    for a in NARROW {
        if a.is_nan() {
            assert!(s(a).widen().is_nan());
        } else {
            assert_eq!(s(a).widen(), d(a as f64), "{a}");
        }
        for b in WIDE {
            assert_eq!(s(a).le_double(d(b)), a as f64 <= b);
            assert_eq!(s(a).equals_double(d(b)), a as f64 == b);
        }
    }
    assert_eq!(s(1.5).widen().bits, 0x3ff8_0000_0000_0000);
}

#[test]
fn text_is_trimmed_and_split() {
    assert_eq!(trim(" \t Scafell Pike\u{a0}\r\n"), "Scafell Pike");
    assert_eq!(trim(" \n "), "");
    assert_eq!(split_words("  1.0\n0.0\t -1.0 \u{3000}x "), vec!["1.0", "0.0", "-1.0", "x"]);
    assert!(split_words("").is_empty());
}

#[test]
fn numerals_are_parsed() {
    assert_eq!(parse_text("14", 255), Some(14));
    assert_eq!(parse_text("+7", 255), Some(7));
    assert_eq!(parse_text("255", 255), Some(255));
    assert_eq!(parse_text("256", 255), None);
    assert_eq!(parse_text("", 255), None);
    assert_eq!(parse_text("+", 255), None);
    assert_eq!(parse_text("-1", 255), None);
    assert_eq!(parse_text("1 ", 255), None);
    assert_eq!(parse_text("18446744073709551616", u64::MAX), None);
    assert_eq!(parse_text("18446744073709551615", u64::MAX), Some(u64::MAX));
    assert_eq!(parse_unsigned(&vec![0x30, 0x34, 0x32], 100), Some(42));
}

#[test]
fn pieces_are_found_between_separators() {
    assert!(contains_piece("Ma,W, Hew", ',', "Hew"));
    assert!(!contains_piece("Ma,W, Hew", ',', "H"));
    assert!(contains_piece("a,,b", ',', ""));
    assert!(!contains_piece("a,b", ',', "a,b"));
}

#[test]
fn strings_are_ordered_by_their_bytes() {
    let words = ["", "A", "Ab", "B", "a", "z", "\u{e9}", "\u{3000}"];
    for a in words {
        for b in words {
            assert_eq!(text_at_most(a, b), a <= b, "{a} {b}");
            assert_eq!(same_text(a, b), a == b);
            assert_eq!(same_bytes(a.as_bytes(), b.as_bytes()), a == b);
        }
    }
}

#[test]
fn ascii_case_can_be_ignored() {
    assert!(same_ignoring_case("ASC", "asc"));
    assert!(same_ignoring_case("aSc", "asC"));
    assert!(!same_ignoring_case("ascx", "asc"));
    assert!(!same_ignoring_case("\u{c9}", "\u{e9}"));
}
