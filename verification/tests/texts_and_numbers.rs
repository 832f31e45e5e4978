//! Text helpers and the ordering of floating-point bit patterns.

use cutty::bytes::{push_bytes, push_le};
use cutty::double::Real;
use cutty::strings::{
    chars_of, dec_int_text, dec_text, has_prefix, holds_char, insert_ascending, insert_once,
    is_white, join_texts, not_after, parse_unsigned, split_at_char, split_once_at, split_words,
    string_of, trim_chars,
};

fn r(v: f64) -> Real {
    Real { bits: v.to_bits() }
}

#[test]
fn bit_patterns_order_as_numbers() {
    let values = [
        0.0,
        -0.0,
        1.0,
        -1.0,
        0.1,
        1e300,
        -1e300,
        f64::MIN_POSITIVE,
        5e-324,
        -5e-324,
        f64::INFINITY,
        f64::NEG_INFINITY,
        f64::NAN,
        -f64::NAN,
    ];
    for a in values {
        assert_eq!(r(a).is_finite(), a.is_finite());
        assert_eq!(r(a).is_nan(), a.is_nan());
        assert_eq!(r(a).is_rate(), a.is_finite() && a > 0.0);
        for b in values {
            assert_eq!(r(a).is_below(r(b)), a < b, "{a} < {b}");
            assert_eq!(r(a).is_at_most(r(b)), a <= b, "{a} <= {b}");
            assert_eq!(r(a).is_same(r(b)), a == b, "{a} == {b}");
            let (lo, hi) = (f64::from_bits(r(a).smaller_of(r(b)).bits), f64::from_bits(r(a).larger_of(r(b)).bits));
            assert!(lo == a.min(b) || (lo.is_nan() && a.min(b).is_nan()), "min {a} {b}");
            assert!(hi == a.max(b) || (hi.is_nan() && a.max(b).is_nan()), "max {a} {b}");
        }
    }
}

#[test]
fn numbers_are_written_in_decimal() {
    for n in [0u64, 7, 10, 99, 100, 1_234_567, u64::MAX] {
        assert_eq!(dec_text(n), n.to_string());
    }
    for n in [0i64, -1, 42, i64::MIN, i64::MAX] {
        assert_eq!(dec_int_text(n), n.to_string());
    }
}

#[test]
fn numbers_are_read_like_the_standard_parser() {
    for t in ["0", "12", "+7", "", "+", "-1", " 1", "1 ", "4294967295", "4294967296", "00012", "1a", "٣"] {
        assert_eq!(parse_unsigned(t, u64::from(u32::MAX)), t.parse::<u32>().ok().map(u64::from), "{t:?}");
        assert_eq!(parse_unsigned(t, u64::MAX), t.parse::<u64>().ok(), "{t:?}");
    }
    assert_eq!(parse_unsigned("18446744073709551616", u64::MAX), None);
}

#[test]
fn texts_are_split_like_the_standard_library() {
    for t in ["", "a", " a  b\tc\n", ":a::b:", "key,K__", ",x", "é ü:ß"] {
        let chars = chars_of(t);
        assert_eq!(string_of(&chars), t);
        let words: Vec<String> = split_words(&chars).iter().map(|w| string_of(w)).collect();
        assert_eq!(words, t.split_whitespace().collect::<Vec<_>>());
        let parts: Vec<String> = split_at_char(&chars, ':').iter().map(|w| string_of(w)).collect();
        assert_eq!(parts, t.split(':').collect::<Vec<_>>());
        assert_eq!(string_of(&trim_chars(&chars)), t.trim());
        assert_eq!(
            split_once_at(&chars, ',').map(|(a, b)| (string_of(&a), string_of(&b))),
            t.split_once(',').map(|(a, b)| (a.to_string(), b.to_string()))
        );
        assert_eq!(holds_char(&chars, 'K'), t.contains('K'));
        assert_eq!(has_prefix(&chars, &chars_of(" a")), t.starts_with(" a"));
    }
    for c in ['\u{0}', ' ', '\t', '\n', '\u{b}', '\u{c}', '\r', '\u{85}', '\u{a0}', '\u{1680}', '\u{2003}', '\u{2028}', '\u{202f}', '\u{205f}', '\u{3000}', 'x', '\u{200b}', '\u{feff}'] {
        assert_eq!(is_white(c), c.is_whitespace(), "{c:?}");
    }
}

#[test]
fn lists_are_kept_in_order() {
    let mut list: Vec<String> = Vec::new();
    for t in ["b", "a", "ba", "B", "", "a"] {
        insert_ascending(&mut list, t.to_string());
    }
    assert_eq!(list, vec!["", "B", "a", "a", "b", "ba"]);
    assert!(not_after("a", "a") && not_after("a", "ab") && !not_after("b", "ab"));
    assert_eq!(join_texts(&list, "-"), "-B-a-a-b-ba");
    assert_eq!(join_texts(&Vec::new(), "-"), "");
    let mut once: Vec<String> = Vec::new();
    for t in ["b", "a", "b", "c", "a"] {
        insert_once(&mut once, t.to_string());
    }
    assert_eq!(once, vec!["a", "b", "c"]);
}

#[test]
fn bytes_are_written_little_endian() {
    let mut out = vec![1u8];
    push_le(&mut out, 0x0102_0304, 4);
    push_le(&mut out, u128::MAX, 16);
    push_le(&mut out, 0x1_00, 1);
    push_bytes(&mut out, &[9, 8]);
    let mut expected = vec![1u8, 4, 3, 2, 1];
    expected.extend_from_slice(&[255; 16]);
    expected.extend_from_slice(&[0, 9, 8]);
    assert_eq!(out, expected);
}
