//! Base64 for the terminal's clipboard.

use termcopy::clipboard::base64;

#[test]
fn base64_matches_the_reference_vectors() {
    assert_eq!(base64(b""), "");
    assert_eq!(base64(b"f"), "Zg==");
    assert_eq!(base64(b"fo"), "Zm8=");
    assert_eq!(base64(b"foo"), "Zm9v");
    assert_eq!(base64(b"foob"), "Zm9vYg==");
    assert_eq!(base64(b"fooba"), "Zm9vYmE=");
    assert_eq!(base64(b"foobar"), "Zm9vYmFy");
}

#[test]
fn base64_handles_multibyte_text() {
    assert_eq!(base64("\u{4E00}".as_bytes()), "5LiA");
    assert_eq!(base64("go\u{1F4A1}".as_bytes()), "Z2/wn5Kh");
}
