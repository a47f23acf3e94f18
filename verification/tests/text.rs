//! Character classes, trimming, lines and numbers.

use termcopy::bytes::{decode, same_bytes, size_of_text};
use termcopy::normalize::is_droppable;
use termcopy::text::{
    chars_of, contains_text, decimal_string, ends_with, is_ascii_digit, is_blank, is_control,
    is_white_space, line_bounds, row_bounds, same_text, trimmed,
};

#[test]
fn character_classes_agree_with_unicode_on_every_character() {
    for code in 0..=0x10FFFFu32 {
        if let Some(ch) = char::from_u32(code) {
            assert_eq!(is_white_space(ch), ch.is_whitespace(), "{code:#x}");
            assert_eq!(is_control(ch), ch.is_control(), "{code:#x}");
            assert_eq!(is_ascii_digit(ch), ch.is_ascii_digit(), "{code:#x}");
        }
    }
}

#[test]
fn markers_gutters_and_frames_are_droppable_and_letters_are_not() {
    for ch in "`*_~#•·›‹▌⏺↳⎿…⋮\u{FFFD}\u{2500}\u{259F}\u{200B}\u{200F}\u{FEFF} \n\u{7}".chars() {
        assert!(is_droppable(ch), "{ch:?}");
    }
    for ch in "aZ9-+=|/\\é一\u{24FF}\u{25A0}\u{200A}\u{2010}\u{1F4A1}".chars() {
        assert_eq!(is_droppable(ch), ch == '\u{200A}', "{ch:?}");
    }
}

#[test]
fn trimming_agrees_with_the_standard_library() {
    for text in ["", " ", "a", "  a b \n", "\u{3000}x\u{00A0}", "\t\r\n", "no-space", " \u{85}y"] {
        assert_eq!(trimmed(text), text.trim(), "{text:?}");
        assert_eq!(is_blank(text), text.trim().is_empty(), "{text:?}");
    }
}

#[test]
fn lines_and_rows_are_cut_behind_line_feeds() {
    for text in ["", "a", "a\n", "\n", "a\nb", "\n\nx\n", "é\r\n\u{1F4A1}"] {
        let chars = chars_of(text);
        let lines: Vec<String> = line_bounds(&chars)
            .into_iter()
            .map(|(from, to)| chars[from..to].iter().collect())
            .collect();
        let expected: Vec<&str> = text.split_inclusive('\n').collect();
        assert_eq!(lines, expected, "{text:?}");
        let bytes = text.as_bytes();
        let rows: Vec<&[u8]> = row_bounds(bytes)
            .into_iter()
            .map(|(from, to)| &bytes[from..to])
            .collect();
        let expected: Vec<&[u8]> = bytes.split_inclusive(|byte| *byte == b'\n').collect();
        assert_eq!(rows, expected, "{text:?}");
    }
}

#[test]
fn searching_and_comparing_texts() {
    assert!(contains_text("com.mitchellh.ghostty", "ghost"));
    assert!(contains_text("ghostty", "ghostty"));
    assert!(contains_text("anything", ""));
    assert!(!contains_text("ghost", "ghostty"));
    assert!(!contains_text("abcabd", "abd "));
    assert!(contains_text("aaab", "aab"));
    assert!(ends_with("rollout-1-abc.jsonl", "-abc.jsonl"));
    assert!(ends_with("x", ""));
    assert!(!ends_with("abc.jsonl", "-abc.jsonl"));
    assert!(same_text("caf\u{00E9}", "caf\u{00E9}"));
    assert!(!same_text("caf\u{00E9}", "cafe\u{0301}"));
    assert!(!same_text("a", "ab"));
}

#[test]
fn numbers_are_written_in_decimal() {
    for n in [0u64, 7, 10, 99, 100, 65535, u64::MAX] {
        assert_eq!(decimal_string(n), n.to_string());
    }
}

#[test]
fn bytes_are_decoded_only_when_they_are_utf8() {
    assert_eq!(decode("go\u{1F4A1}".as_bytes()), Some("go\u{1F4A1}"));
    assert_eq!(decode(b""), Some(""));
    assert_eq!(decode(&[0xFF, 0x41]), None);
    assert_eq!(decode(&[0xE4, 0xB8]), None);
    assert_eq!(size_of_text("go\u{1F4A1}"), 6);
    assert!(same_bytes(b"abc", b"abc"));
    assert!(!same_bytes(b"abc", b"abd"));
}
