use rustdown_viewer::utf8_text::char_is_whitespace;
use rustdown_viewer::app_text::{fnv64, line_nth_byte, text_has_cjk};
use rustdown_viewer::editor::line_col;
use rustdown_viewer::text_utils::{
    byte_to_char, char_to_byte, line_bounds, line_column, line_count, line_end, line_index, line_start, word_range_at,
};

#[test]
fn byte_char_roundtrip() {
    let s = "héllo wörld";
    for (ch_i, _ch) in s.chars().enumerate() {
        let b = char_to_byte(s, ch_i);
        assert_eq!(byte_to_char(s, b), ch_i);
    }
    assert_eq!(byte_to_char(s, 0), 0);
    assert_eq!(char_to_byte(s, s.chars().count()), s.len());
}

#[test]
fn lines() {
    let s = "aa\nbb\ncc";
    assert_eq!(line_count(s), 3);
    assert_eq!(line_bounds(s, 0), Some((0, 2, 3)));
    assert_eq!(line_bounds(s, 1), Some((3, 5, 6)));
    assert_eq!(line_bounds(s, 2), Some((6, 8, 8)));
    assert_eq!(line_bounds("", 0), None);
    let s2 = "one\n";
    assert_eq!(line_count(s2), 2);
    assert_eq!(line_bounds(s2, 1), Some((4, 4, 4)));
}

#[test]
fn word_ranges() {
    assert_eq!(word_range_at("hello world", 1), Some((0, 5)));
    assert_eq!(word_range_at("hello world", 8), Some((6, 11)));
    assert_eq!(word_range_at("hello world", 5), None);
    assert_eq!(word_range_at("hello", 5), None);
    assert_eq!(word_range_at("hello", 99), None);
}

#[test]
fn line_col_basics() {
    assert_eq!(line_col("abc", 0), (1, 1));
    assert_eq!(line_col("abc\ndef", 4), (2, 1));
    assert_eq!(line_col("abc\ndef", 6), (2, 3));
}

#[test]
fn line_col_counts_characters_and_clamps() {
    assert_eq!(line_col("é\nxé", 6), (2, 3));
    assert_eq!(line_col("é\nxé", 4), (2, 2));
    assert_eq!(line_col("ab", 99), (1, 3));
}

#[test]
fn test_text_has_cjk_detection() {
    assert!(!text_has_cjk("Hello world"));
    assert!(!text_has_cjk("# RapidMD - Fast Markdown"));
    assert!(!text_has_cjk("Bonjour, ça va être l'été"));
    assert!(!text_has_cjk("Grüße aus Köln - Straße"));
    assert!(text_has_cjk("你好世界"));
    assert!(text_has_cjk("こんにちは"));
    assert!(text_has_cjk("カタカナ"));
    assert!(text_has_cjk("안녕하세요"));
    assert!(text_has_cjk("「引用」"));
}

#[test]
fn cjk_needs_a_high_range_character() {
    // Non-CJK characters with three-byte encodings are not CJK.
    assert!(!text_has_cjk("em — dash €"));
    assert!(text_has_cjk("mixed 漢 text"));
}

#[test]
fn fnv64_known_values() {
    assert_eq!(fnv64(""), 0xcbf29ce484222325);
    assert_eq!(fnv64("a"), 0xaf63dc4c8601ec8c);
    assert_eq!(fnv64("foobar"), 0x85944171f73967e8);
}

#[test]
fn line_nth_byte_values() {
    let t = "ab\ncd\n\nef";
    assert_eq!(line_nth_byte(t, 0), 0);
    assert_eq!(line_nth_byte(t, 1), 3);
    assert_eq!(line_nth_byte(t, 2), 6);
    assert_eq!(line_nth_byte(t, 3), 7);
    assert_eq!(line_nth_byte(t, 4), t.len());
    assert_eq!(line_nth_byte(t, 40), t.len());
}

#[test]
fn whitespace_matches_std_on_every_char() {
    for u in 0..=0x10ffffu32 {
        if let Some(c) = char::from_u32(u) {
            assert_eq!(char_is_whitespace(c), c.is_whitespace(), "U+{:04X}", u);
        }
    }
}

#[test]
fn line_functions_agree() {
    let s = "ab\ncdé\n\nxyz";
    for b in (0..=s.len()).filter(|&b| s.is_char_boundary(b)) {
        let ls = line_start(s, b);
        let le = line_end(s, b);
        let k = line_index(s, b);
        assert_eq!(k, s[..b].matches('\n').count());
        assert!(ls <= b && b <= le && !s[ls..le].contains('\n'));
        let ei = if le < s.len() { le + 1 } else { le };
        assert_eq!(line_bounds(s, k), Some((ls, le, ei)));
        assert_eq!(line_column(s, b), s[ls..b].chars().count());
    }
}
