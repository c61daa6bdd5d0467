use stannum::chars::{chars_of, is_ascii_alphanumeric, is_white, text_of, to_ascii_lower};
use stannum::decimal::{decimal_text, parse_decimal};
use stannum::text::{before, holds_text, insert_text, same, same_all, sorted_unique};

fn owned(texts: &[&str]) -> Vec<String> {
    texts.iter().map(|text| (*text).to_owned()).collect()
}

#[test]
fn texts_compare_by_their_bytes() {
    let texts = ["", "a", "ab", "b", "Z", "é", "z", "词", "\u{10000}", "\u{ffff}"];
    for a in texts {
        for b in texts {
            assert_eq!(before(a, b), a < b, "{a:?} {b:?}");
            assert_eq!(same(a, b), a == b);
        }
    }
    assert!(same_all(&owned(&["a", "b"]), &owned(&["a", "b"])));
    assert!(!same_all(&owned(&["a", "b"]), &owned(&["b", "a"])));
    assert!(!same_all(&owned(&["a"]), &owned(&["a", "a"])));
}

#[test]
fn sorted_texts_hold_each_once() {
    assert_eq!(sorted_unique(&owned(&["b", "a", "é", "b", "", "a"])), owned(&["", "a", "b", "é"]));
    let mut sorted = Vec::new();
    for text in ["m", "c", "m", "z", "a"] {
        insert_text(&mut sorted, text);
    }
    assert_eq!(sorted, owned(&["a", "c", "m", "z"]));
    assert!(holds_text(&sorted, "c") && !holds_text(&sorted, "d"));
}

#[test]
fn decimals_read_back() {
    for n in [0, 7, 10, 999, 4_294_967_295, u64::MAX] {
        assert_eq!(decimal_text(n), n.to_string());
        assert_eq!(parse_decimal(&n.to_string(), u64::MAX), Some(n));
    }
    assert_eq!(parse_decimal("4294967296", 0xffff_ffff), None);
    assert_eq!(parse_decimal("007", 100), Some(7));
    for bad in ["", "-1", "1x", " 1", "٣"] {
        assert_eq!(parse_decimal(bad, u64::MAX), None);
    }
}

#[test]
fn characters_are_classified() {
    for code in 0..=0x10ffffu32 {
        if let Some(c) = char::from_u32(code) {
            assert_eq!(is_white(c), c.is_whitespace(), "{code:x}");
            assert_eq!(is_ascii_alphanumeric(c), c.is_ascii_alphanumeric());
            assert_eq!(to_ascii_lower(c), c.to_ascii_lowercase());
        }
    }
    let chars = chars_of("aéz");
    assert_eq!(chars, vec!['a', 'é', 'z']);
    assert_eq!(text_of(&chars, 1, 3), "éz");
}
