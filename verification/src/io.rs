//! Decoding file bytes into text, recording the encoding they were found
//! in, and the outcomes of reading and saving files.

use vstd::prelude::*;
use vstd::utf8::*;
use crate::buffer::{DiskStamp, Encoding, Eol, spec_encoded, spec_apply, utf8_bom};
use crate::utf8_text::{bytes_of, push_range};

verus! {

broadcast use vstd::utf8::encode_utf8_valid_utf8, vstd::utf8::encode_utf8_decode_utf8;

#[verifier::external_type_specification]
#[verifier::external_body]
pub struct ExIoError(std::io::Error);

/// Everything needed to open a file into a buffer.
pub struct ReadOutcome {
    pub text: String,
    pub encoding: Encoding,
    pub read_only: bool,
    pub stamp: DiskStamp,
}

/// Why a file could not be read.
pub enum ReadError {
    NotFound,
    Io(std::io::Error),
}

/// Why a file could not be saved.
#[derive(Debug)]
pub enum SaveError {
    ReadOnly,
    Io(std::io::Error),
}

/// The text of an I/O error, as its `Display` writes it; what that text is
/// depends on the system, so nothing is claimed of it.
#[verifier::external_body]
fn io_error_message(e: &std::io::Error) -> String {
    format!("{}", e)
}

impl ReadError {
    /// The message shown to the user.
    pub fn message(&self) -> (s: String)
        ensures
            self is NotFound ==> s@ == "file does not exist"@,
    {
        match self {
            ReadError::NotFound => "file does not exist".to_owned(),
            ReadError::Io(e) => io_error_message(e),
        }
    }
}

impl SaveError {
    /// The message shown to the user.
    pub fn message(&self) -> (s: String)
        ensures
            self is ReadOnly ==> s@ == "file is read-only"@,
    {
        match self {
            SaveError::ReadOnly => "file is read-only".to_owned(),
            SaveError::Io(e) => io_error_message(e),
        }
    }
}

/// What `String::from_utf8_lossy` makes of bytes: each invalid sequence
/// replaced by U+FFFD.
pub uninterp spec fn utf8_lossy(b: Seq<u8>) -> Seq<char>;

/// What `String::from_utf16_lossy` makes of UTF-16 code units: each
/// unpaired surrogate replaced by U+FFFD.
pub uninterp spec fn utf16_lossy(u: Seq<u16>) -> Seq<char>;

/// Calls `std::str::from_utf8`, which std documents to succeed exactly on
/// valid UTF-8; the text it gives back is then the decoding of the bytes.
#[verifier::external_body]
fn utf8_checked(b: &[u8]) -> (r: Option<String>)
    ensures
        r is Some <==> valid_utf8(b@),
        r matches Some(s) ==> s@ == decode_utf8(b@),
{
    match std::str::from_utf8(b) {
        Ok(s) => Some(s.to_owned()),
        Err(_) => None,
    }
}

/// Calls `String::from_utf8_lossy`; the contract names its result.
#[verifier::external_body]
fn utf8_lossy_string(b: &[u8]) -> (s: String)
    ensures
        s@ == utf8_lossy(b@),
{
    String::from_utf8_lossy(b).into_owned()
}

/// Calls `String::from_utf16_lossy`; the contract names its result.
#[verifier::external_body]
fn utf16_lossy_string(u: &[u16]) -> (s: String)
    ensures
        s@ == utf16_lossy(u@),
{
    String::from_utf16_lossy(u)
}

/// `b` begins with `p`.
pub open spec fn starts_with(b: Seq<u8>, p: Seq<u8>) -> bool {
    p.len() <= b.len() && b.subrange(0, p.len() as int) == p
}

/// The UTF-16 code units of the byte pairs of `body`, little- or
/// big-endian; an odd last byte is left out.
pub open spec fn utf16_unit_seq(body: Seq<u8>, little: bool) -> Seq<u16> {
    Seq::new(
        body.len() / 2,
        |k: int|
            if little {
                (body[2 * k] + body[2 * k + 1] * 256) as u16
            } else {
                (body[2 * k] * 256 + body[2 * k + 1]) as u16
            },
    )
}

/// Text and encoding of a UTF-16 body: `Lossy` when a byte is left over.
pub open spec fn spec_decode_utf16(body: Seq<u8>, little: bool) -> (Seq<char>, Encoding) {
    (
        utf16_lossy(utf16_unit_seq(body, little)),
        if body.len() % 2 == 1 {
            Encoding::Lossy
        } else if little {
            Encoding::Utf16Le
        } else {
            Encoding::Utf16Be
        },
    )
}

/// Text and encoding of UTF-8 bytes: `enc` when they are valid, the lossy
/// repair otherwise.
pub open spec fn spec_decode_utf8(b: Seq<u8>, enc: Encoding) -> (Seq<char>, Encoding) {
    if valid_utf8(b) {
        (decode_utf8(b), enc)
    } else {
        (utf8_lossy(b), Encoding::Lossy)
    }
}

/// Text and encoding of file bytes: a UTF-8 byte-order mark, a UTF-16
/// byte-order mark (little- or big-endian), or plain UTF-8.
pub open spec fn spec_decode(b: Seq<u8>) -> (Seq<char>, Encoding) {
    if starts_with(b, utf8_bom()) {
        spec_decode_utf8(b.subrange(3, b.len() as int), Encoding::Utf8Bom)
    } else if starts_with(b, seq![0xFFu8, 0xFEu8]) {
        spec_decode_utf16(b.subrange(2, b.len() as int), true)
    } else if starts_with(b, seq![0xFEu8, 0xFFu8]) {
        spec_decode_utf16(b.subrange(2, b.len() as int), false)
    } else {
        spec_decode_utf8(b, Encoding::Utf8)
    }
}

/// `b[k..]` as a vector.
fn tail(b: &[u8], k: usize) -> (v: Vec<u8>)
    requires
        k <= b@.len(),
    ensures
        v@ == b@.subrange(k as int, b@.len() as int),
{
    let mut v: Vec<u8> = Vec::new();
    push_range(&mut v, b, k, b.len());
    assert(v@ =~= b@.subrange(k as int, b@.len() as int));
    v
}

/// UTF-8 bytes as text, or their lossy repair.
fn decode_utf8_bytes(b: &[u8], enc: Encoding) -> (r: (String, Encoding))
    ensures
        (r.0@, r.1) == spec_decode_utf8(b@, enc),
{
    match utf8_checked(b) {
        Some(s) => (s, enc),
        None => (utf8_lossy_string(b), Encoding::Lossy),
    }
}

/// A UTF-16 body as text, with its encoding.
fn decode_utf16(body: &[u8], little: bool) -> (r: (String, Encoding))
    ensures
        (r.0@, r.1) == spec_decode_utf16(body@, little),
{
    let mut units: Vec<u16> = Vec::new();
    let n = body.len() / 2;
    let mut k: usize = 0;
    assert(body@.len() == body.len());
    while k < n
        invariant
            k <= n,
            body@.len() <= usize::MAX,
            n == body@.len() / 2,
            units@ == utf16_unit_seq(body@, little).take(k as int),
        decreases n - k,
    {
        let a = body[2 * k] as u16;
        let b = body[2 * k + 1] as u16;
        let u = if little {
            a + b * 256
        } else {
            a * 256 + b
        };
        units.push(u);
        assert(units@ =~= utf16_unit_seq(body@, little).take(k + 1));
        k = k + 1;
    }
    assert(units@ =~= utf16_unit_seq(body@, little));
    let enc = if body.len() % 2 == 1 {
        Encoding::Lossy
    } else if little {
        Encoding::Utf16Le
    } else {
        Encoding::Utf16Be
    };
    (utf16_lossy_string(units.as_slice()), enc)
}

/// Decode file bytes into text, with the encoding they were found in.
pub fn decode_bytes(bytes: &[u8]) -> (r: (String, Encoding))
    ensures
        (r.0@, r.1) == spec_decode(bytes@),
{
    let n = bytes.len();
    if n >= 3 && bytes[0] == 0xEFu8 && bytes[1] == 0xBBu8 && bytes[2] == 0xBFu8 {
        assert(bytes@.subrange(0, 3) =~= utf8_bom());
        let body = tail(bytes, 3);
        return decode_utf8_bytes(body.as_slice(), Encoding::Utf8Bom);
    }
    assert(!starts_with(bytes@, utf8_bom())) by {
        if starts_with(bytes@, utf8_bom()) {
            assert(bytes@.subrange(0, 3)[1] == bytes@[1]);
            assert(bytes@.subrange(0, 3)[2] == bytes@[2]);
        }
    }
    if n >= 2 && bytes[0] == 0xFFu8 && bytes[1] == 0xFEu8 {
        assert(bytes@.subrange(0, 2) =~= seq![0xFFu8, 0xFEu8]);
        let body = tail(bytes, 2);
        return decode_utf16(body.as_slice(), true);
    }
    assert(!starts_with(bytes@, seq![0xFFu8, 0xFEu8])) by {
        if starts_with(bytes@, seq![0xFFu8, 0xFEu8]) {
            assert(bytes@.subrange(0, 2)[1] == bytes@[1]);
        }
    }
    if n >= 2 && bytes[0] == 0xFEu8 && bytes[1] == 0xFFu8 {
        assert(bytes@.subrange(0, 2) =~= seq![0xFEu8, 0xFFu8]);
        let body = tail(bytes, 2);
        return decode_utf16(body.as_slice(), false);
    }
    assert(!starts_with(bytes@, seq![0xFEu8, 0xFFu8])) by {
        if starts_with(bytes@, seq![0xFEu8, 0xFFu8]) {
            assert(bytes@.subrange(0, 2)[1] == bytes@[1]);
        }
    }
    decode_utf8_bytes(bytes, Encoding::Utf8)
}

/// Text saved with a UTF-8 byte-order mark reads back as the text written,
/// line endings as saved, and is again recognised as UTF-8 with a BOM.
pub proof fn lemma_bom_round_trip(s: Seq<char>, eol: Eol)
    ensures
        spec_decode(spec_encoded(s, eol, Encoding::Utf8Bom)) == (spec_apply(eol, s), Encoding::Utf8Bom),
{
    let b = spec_encoded(s, eol, Encoding::Utf8Bom);
    let x = bytes_of(spec_apply(eol, s));
    assert(b.subrange(0, 3) =~= utf8_bom());
    assert(b.subrange(3, b.len() as int) =~= x);
}

/// Text saved as plain UTF-8 reads back as the text written, line endings
/// as saved, and is again recognised as plain UTF-8, unless the saved text
/// itself begins with U+FEFF (which reads as a byte-order mark).
pub proof fn lemma_utf8_round_trip(s: Seq<char>, eol: Eol)
    requires
        !(spec_apply(eol, s).len() > 0 && spec_apply(eol, s)[0] == '\u{feff}'),
    ensures
        spec_decode(spec_encoded(s, eol, Encoding::Utf8)) == (spec_apply(eol, s), Encoding::Utf8),
{
    let a = spec_apply(eol, s);
    let b = bytes_of(a);
    assert(valid_utf8(b));
    assert(decode_utf8(b) == a);
    if b.len() > 0 {
        assert(valid_first_scalar(b));
        assert(b[0] <= 0xf7u8);
        if starts_with(b, utf8_bom()) {
            assert(b.subrange(0, 3)[0] == b[0]);
            assert(b.subrange(0, 3)[1] == b[1]);
            assert(b.subrange(0, 3)[2] == b[2]);
            assert(codepoint_width_3(0xefu8, 0xbbu8, 0xbfu8) == 0xfeffu32) by (bit_vector);
            assert(decode_first_codepoint(b) == 0xfeffu32);
            assert(decode_utf8(b)[0] == decode_first_scalar(b) as char);
            assert(false);
        }
        if starts_with(b, seq![0xFFu8, 0xFEu8]) {
            assert(b.subrange(0, 2)[0] == b[0]);
        }
        if starts_with(b, seq![0xFEu8, 0xFFu8]) {
            assert(b.subrange(0, 2)[0] == b[0]);
        }
    }
}

} // verus!
