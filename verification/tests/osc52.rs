//! The escape sequence for the terminal's clipboard.

use termcopy::clipboard::{base64, osc52_sequence, OSC52_LIMIT};

#[test]
fn a_text_is_wrapped_in_the_escape_sequence() {
    assert_eq!(osc52_sequence("foo").unwrap(), "\x1b]52;c;Zm9v\x07");
    assert_eq!(osc52_sequence("").unwrap(), "\x1b]52;c;\x07");
}

#[test]
fn a_text_is_refused_just_above_the_limit() {
    let longest = "x".repeat(24576);
    let sequence = osc52_sequence(&longest).unwrap();
    assert_eq!(sequence.len(), OSC52_LIMIT + 8);
    let error = osc52_sequence(&"x".repeat(24577)).unwrap_err();
    assert_eq!(
        error.message(),
        "24577 characters is too long to send to the terminal's clipboard; use --stdout and pipe it instead"
    );
    // The limit is on bytes, the report counts characters.
    let error = osc52_sequence(&"\u{4E00}".repeat(8193)).unwrap_err();
    assert_eq!(error.characters, 8193);
    assert!(osc52_sequence(&"\u{4E00}".repeat(8192)).is_ok());
}

fn read(text: &str) -> Vec<u8> {
    let alphabet = "ABCDEFGHIJKLMNOPQRSTUVWXYZabcdefghijklmnopqrstuvwxyz0123456789+/";
    let mut bits: u32 = 0;
    let mut count = 0;
    let mut bytes = Vec::new();
    for ch in text.trim_end_matches('=').chars() {
        bits = bits << 6 | alphabet.find(ch).unwrap() as u32;
        count += 6;
        if count >= 8 {
            count -= 8;
            bytes.push((bits >> count) as u8);
            bits &= (1 << count) - 1;
        }
    }
    bytes
}

#[test]
fn every_byte_reads_back_and_the_length_is_padded() {
    let all: Vec<u8> = (0..=255u8).chain((0..=255u8).rev()).collect();
    for len in 0..all.len() {
        let text = base64(&all[..len]);
        assert_eq!(read(&text), &all[..len]);
        assert_eq!(text.len(), (len + 2) / 3 * 4);
    }
}
