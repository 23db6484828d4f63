use rustdown_viewer::buffer::{Buffer, DiskStamp, Encoding, Eol};
use std::path::Path;

#[test]
fn eol_detect() {
    assert_eq!(Eol::detect("a\nb\n"), Eol::Lf);
    assert_eq!(Eol::detect("a\r\nb\r\n"), Eol::Crlf);
    assert_eq!(Eol::detect("a\r\nb\nc\n"), Eol::Lf);
}

#[test]
fn dirty_lifecycle() {
    let mut b = Buffer::untitled(1);
    assert!(!b.is_dirty());
    b.text.push_str("hi");
    assert!(b.is_dirty());
    b.mark_saved(None);
    assert!(!b.is_dirty());
}

#[test]
fn crlf_roundtrip() {
    let text = "line1\r\nline2\r\n";
    let b = Buffer::from_disk(1, Path::new("x.md"), text.to_owned(), Encoding::Utf8Bom, false, DiskStamp { len: 0, modified_millis: None });
    assert_eq!(b.eol, Eol::Crlf);
    assert_eq!(b.text, "line1\nline2\n");
    let mut expected = vec![0xEF, 0xBB, 0xBF];
    expected.extend_from_slice(text.as_bytes());
    assert_eq!(b.encoded_bytes(), expected);
}

#[test]
fn untitled_title_and_counts() {
    let mut b = Buffer::untitled(7);
    assert_eq!(b.title(), "Untitled-7");
    b.text.push_str("two words\nthree");
    assert_eq!(b.word_count(), 3);
    assert_eq!(b.char_count(), 15);
    assert_eq!(b.line_count(), 2);
}

#[test]
fn crlf_round_trip_law_on_values() {
    // Detecting the line endings of a file, normalizing, and applying the
    // detected style again gives back the original text.
    let raw = "a\r\nb\r\n";
    let b = Buffer::from_disk(2, Path::new("y.md"), raw.to_owned(), Encoding::Utf8, false, DiskStamp { len: 6, modified_millis: Some(1) });
    assert_eq!(b.eol.apply(&b.text), raw);
}

#[test]
fn utf16_encoding_of_saved_bytes() {
    let b = Buffer::from_disk(3, Path::new("z.md"), "hé".to_owned(), Encoding::Utf16Le, false, DiskStamp { len: 0, modified_millis: None });
    assert_eq!(b.encoded_bytes(), vec![0x68, 0x00, 0xE9, 0x00]);
}

#[test]
fn disk_stamp_changes() {
    let a = DiskStamp { len: 1, modified_millis: Some(5) };
    let b = DiskStamp { len: 1, modified_millis: Some(6) };
    assert!(a.changed_vs(&b));
    assert!(!a.changed_vs(&a));
    assert_eq!(Encoding::Utf8Bom.label(), "UTF-8 BOM");
}

#[test]
fn line_endings_follow_the_path_separator() {

    assert_eq!(Eol::for_separator('\\'), Eol::Crlf);
    assert_eq!(Eol::for_separator('/'), Eol::Lf);
    let d = Eol::platform_default();
    assert_eq!(d, Eol::for_separator(std::path::MAIN_SEPARATOR));
}
