use rustdown_viewer::buffer::Encoding;
use rustdown_viewer::io::{decode_bytes, ReadError, SaveError};

#[test]
fn decode_plain_utf8() {
    let (t, e) = decode_bytes("héllo".as_bytes());
    assert_eq!(t, "héllo");
    assert_eq!(e, Encoding::Utf8);
}

#[test]
fn decode_bom() {
    let mut bytes = vec![0xEF, 0xBB, 0xBF];
    bytes.extend_from_slice("hi".as_bytes());
    let (t, e) = decode_bytes(&bytes);
    assert_eq!(t, "hi");
    assert_eq!(e, Encoding::Utf8Bom);
}

#[test]
fn decode_utf16le() {
    let mut bytes = vec![0xFF, 0xFE];
    for u in "héllo".encode_utf16() {
        bytes.extend_from_slice(&u.to_le_bytes());
    }
    let (t, e) = decode_bytes(&bytes);
    assert_eq!(t, "héllo");
    assert_eq!(e, Encoding::Utf16Le);
}

#[test]
fn lossy_fallback() {
    let (_, e) = decode_bytes(&[0xC3, 0x28]);
    assert_eq!(e, Encoding::Lossy);
}

#[test]
fn lossy_text_replaces_invalid_bytes() {
    let (t, e) = decode_bytes(&[0x61, 0xFF, 0x62]);
    assert_eq!(t, "a\u{FFFD}b");
    assert_eq!(e, Encoding::Lossy);
}

#[test]
fn decode_utf16be_and_odd_length() {
    let (t, e) = decode_bytes(&[0xFE, 0xFF, 0x00, 0x68, 0x00, 0x69]);
    assert_eq!(t, "hi");
    assert_eq!(e, Encoding::Utf16Be);
    let (t2, e2) = decode_bytes(&[0xFF, 0xFE, 0x68, 0x00, 0x69]);
    assert_eq!(t2, "h");
    assert_eq!(e2, Encoding::Lossy);
}

#[test]
fn bom_with_invalid_body_is_lossy() {
    let (_, e) = decode_bytes(&[0xEF, 0xBB, 0xBF, 0xFF]);
    assert_eq!(e, Encoding::Lossy);
}

#[test]
fn utf8_round_trip_law_on_values() {
    let text = "α\nβ\n";
    let (t, e) = decode_bytes(text.as_bytes());
    assert_eq!((t.as_str(), e), (text, Encoding::Utf8));
    let mut with_bom = vec![0xEF, 0xBB, 0xBF];
    with_bom.extend_from_slice(text.as_bytes());
    assert_eq!(decode_bytes(&with_bom), (text.to_owned(), Encoding::Utf8Bom));
}

#[test]
fn error_messages() {
    assert_eq!(ReadError::NotFound.message(), "file does not exist");
    assert_eq!(SaveError::ReadOnly.message(), "file is read-only");
    let e = std::io::Error::new(std::io::ErrorKind::Other, "disk full");
    assert_eq!(SaveError::Io(e).message(), "disk full");
}
