//! Document buffer model: one buffer = one file = one truth.
//!
//! Buffers hold plain text with `\n` line endings internally; the original
//! line-ending style and byte-order mark are restored when encoding for disk.

use vstd::prelude::*;
use std::path::{Path, PathBuf};
use crate::utf8_text::{
    bytes_of, chars_of, string_push, string_push_str, u64_to_decimal, decimal,
    is_white_space, char_is_whitespace,
};
use crate::text_utils::{line_count, spec_line_count};

verus! {

#[verifier::external_type_specification]
#[verifier::external_body]
pub struct ExPathBuf(PathBuf);

#[verifier::external_type_specification]
#[verifier::external_body]
pub struct ExPath(Path);

/// Line-ending convention of a file.
#[derive(Debug, Clone, Copy, PartialEq, Eq, Structural)]
pub enum Eol {
    Lf,
    Crlf,
}

/// Number of `\r\n` pairs in `s`.
pub open spec fn crlf_pairs(s: Seq<char>) -> nat
    decreases s.len(),
{
    if s.len() < 2 {
        0
    } else {
        crlf_pairs(s.drop_last()) + if s[s.len() - 2] == '\r' && s.last() == '\n' { 1nat } else { 0nat }
    }
}

/// Number of `\n` characters in `s`.
pub open spec fn lf_chars(s: Seq<char>) -> nat
    decreases s.len(),
{
    if s.len() == 0 {
        0
    } else {
        lf_chars(s.drop_last()) + if s.last() == '\n' { 1nat } else { 0nat }
    }
}

/// Every `\n` becomes `\r\n`.
pub open spec fn expand_crlf(s: Seq<char>) -> Seq<char>
    decreases s.len(),
{
    if s.len() == 0 {
        Seq::empty()
    } else if s[0] == '\n' {
        seq!['\r', '\n'] + expand_crlf(s.skip(1))
    } else {
        seq![s[0]] + expand_crlf(s.skip(1))
    }
}

/// Every `\r\n` pair (scanning left to right) becomes `\n`.
pub open spec fn normalize_crlf(s: Seq<char>) -> Seq<char>
    decreases s.len(),
{
    if s.len() == 0 {
        Seq::empty()
    } else if s.len() >= 2 && s[0] == '\r' && s[1] == '\n' {
        seq!['\n'] + normalize_crlf(s.skip(2))
    } else {
        seq![s[0]] + normalize_crlf(s.skip(1))
    }
}

/// The line-ending style that dominates `s`.
pub open spec fn spec_detect(s: Seq<char>) -> Eol {
    if crlf_pairs(s) > lf_chars(s) - crlf_pairs(s) {
        Eol::Crlf
    } else {
        Eol::Lf
    }
}

/// Internal text converted to a line-ending convention.
pub open spec fn spec_apply(eol: Eol, s: Seq<char>) -> Seq<char> {
    match eol {
        Eol::Lf => s,
        Eol::Crlf => expand_crlf(s),
    }
}

proof fn lemma_crlf_le(s: Seq<char>)
    ensures
        crlf_pairs(s) <= lf_chars(s),
    decreases s.len(),
{
    if s.len() >= 2 {
        lemma_crlf_le(s.drop_last());
        assert(s.drop_last().last() == s[s.len() - 2]);
    } else if s.len() == 1 {
        assert(s.drop_last().len() == 0);
    }
}

/// The main path separator of the platform.
/// Calls the constant `std::path::MAIN_SEPARATOR`; its value depends on the
/// target platform, so nothing is stated about it.
#[verifier::external_body]
fn main_separator() -> char {
    std::path::MAIN_SEPARATOR
}

impl Eol {
    /// Detect from raw file content (dominant style wins).
    pub fn detect(raw: &str) -> (r: Eol)
        ensures
            r == spec_detect(raw@),
    {
        let cs = chars_of(raw);
        let mut i: usize = 0;
        let mut crlf: usize = 0;
        let mut lf: usize = 0;
        while i < cs.len()
            invariant
                i <= cs@.len(),
                crlf == crlf_pairs(cs@.take(i as int)),
                lf == lf_chars(cs@.take(i as int)),
                crlf <= i,
                lf <= i,
            decreases cs@.len() - i,
        {
            let ghost p = cs@.take(i as int + 1);
            assert(p.drop_last() =~= cs@.take(i as int));
            if cs[i] == '\n' {
                lf = lf + 1;
                if i > 0 && cs[i - 1] == '\r' {
                    crlf = crlf + 1;
                }
            }
            i = i + 1;
        }
        assert(cs@.take(cs@.len() as int) =~= cs@);
        proof {
            lemma_crlf_le(raw@);
        }
        let lf_only = lf - crlf;
        if crlf > lf_only {
            Eol::Crlf
        } else {
            Eol::Lf
        }
    }

    /// The platform default for new files: [`Eol::for_separator`] of the
    /// platform's path separator, which depends on the machine; either way
    /// it is one of the two conventions.
    pub fn platform_default() -> (r: Eol)
        ensures
            r == Eol::Lf || r == Eol::Crlf,
    {
        Eol::for_separator(main_separator())
    }

    /// The line-ending convention of a platform whose path separator is
    /// `sep`: `Crlf` where it is a backslash (Windows), `Lf` elsewhere.
    pub fn for_separator(sep: char) -> (r: Eol)
        ensures
            r == (if sep == '\\' { Eol::Crlf } else { Eol::Lf }),
    {
        if sep == '\\' {
            Eol::Crlf
        } else {
            Eol::Lf
        }
    }

    /// Apply this convention to internal (LF-normalized) text.
    pub fn apply(&self, internal: &str) -> (r: String)
        ensures
            r@ == spec_apply(*self, internal@),
    {
        match self {
            Eol::Lf => internal.to_owned(),
            Eol::Crlf => expand_crlf_string(internal),
        }
    }
}

fn expand_crlf_string(text: &str) -> (r: String)
    ensures
        r@ == expand_crlf(text@),
{
    let cs = chars_of(text);
    let ghost s = cs@;
    let mut out = String::new();
    let mut i: usize = 0;
    assert(s.skip(0) =~= s);
    assert(out@ + s =~= s);
    while i < cs.len()
        invariant
            s == cs@,
            i <= s.len(),
            expand_crlf(s) == out@ + expand_crlf(s.skip(i as int)),
        decreases s.len() - i,
    {
        let ghost rest = s.skip(i as int);
        assert(rest.skip(1) =~= s.skip(i as int + 1));
        assert(rest[0] == s[i as int]);
        if cs[i] == '\n' {
            string_push(&mut out, '\r');
            string_push(&mut out, '\n');
        } else {
            string_push(&mut out, cs[i]);
        }
        i = i + 1;
    }
    assert(s.skip(s.len() as int) =~= Seq::<char>::empty());
    out
}

pub(crate) fn normalize_crlf_string(text: &str) -> (r: String)
    ensures
        r@ == normalize_crlf(text@),
{
    let cs = chars_of(text);
    let ghost s = cs@;
    let mut out = String::new();
    let mut i: usize = 0;
    assert(s.skip(0) =~= s);
    assert(out@ + s =~= s);
    while i < cs.len()
        invariant
            s == cs@,
            i <= s.len(),
            normalize_crlf(s) == out@ + normalize_crlf(s.skip(i as int)),
        decreases s.len() - i,
    {
        let ghost rest = s.skip(i as int);
        assert(rest[0] == s[i as int]);
        if i + 1 < cs.len() && cs[i] == '\r' && cs[i + 1] == '\n' {
            assert(rest.skip(2) =~= s.skip(i as int + 2));
            assert(rest[1] == s[i + 1]);
            string_push(&mut out, '\n');
            i = i + 2;
        } else {
            assert(rest.skip(1) =~= s.skip(i as int + 1));
            string_push(&mut out, cs[i]);
            i = i + 1;
        }
    }
    assert(s.skip(s.len() as int) =~= Seq::<char>::empty());
    out
}

proof fn lemma_expand_first(s: Seq<char>)
    requires
        s.len() > 0,
    ensures
        expand_crlf(s).len() > 0,
        expand_crlf(s)[0] != '\n',
        s[0] == '\n' ==> expand_crlf(s)[0] == '\r' && expand_crlf(s).len() >= 2 && expand_crlf(s)[1] == '\n',
        s[0] != '\n' ==> expand_crlf(s)[0] == s[0],
{
}

/// Normalizing line endings undoes the CRLF conversion applied on save:
/// loading what a CRLF buffer writes gives back the internal text.
pub proof fn lemma_normalize_expand(s: Seq<char>)
    ensures
        normalize_crlf(expand_crlf(s)) == s,
    decreases s.len(),
{
    if s.len() > 0 {
        let rest = s.skip(1);
        lemma_normalize_expand(rest);
        let e = expand_crlf(s);
        if s[0] == '\n' {
            assert(e.skip(2) =~= expand_crlf(rest));
            assert(s =~= seq!['\n'] + rest);
        } else {
            assert(e.skip(1) =~= expand_crlf(rest));
            if rest.len() > 0 {
                lemma_expand_first(rest);
                assert(e[1] == expand_crlf(rest)[0]);
            }
            assert(s =~= seq![s[0]] + rest);
        }
    }
}

/// Snapshot of the on-disk state used for external-change detection.
#[derive(Debug, Clone, Copy, PartialEq, Eq)]
pub struct DiskStamp {
    pub len: u64,
    /// Modification time in milliseconds since the UNIX epoch, when known.
    pub modified_millis: Option<u128>,
}

impl DiskStamp {
    /// Size or modification time differ.
    pub fn changed_vs(&self, other: &DiskStamp) -> (r: bool)
        ensures
            r == (self.len != other.len || self.modified_millis != other.modified_millis),
    {
        if self.len != other.len {
            return true;
        }
        match (self.modified_millis, other.modified_millis) {
            (Some(a), Some(b)) => a != b,
            (None, None) => false,
            _ => true,
        }
    }
}

/// Encoding provenance of the loaded text.
#[derive(Debug, Clone, Copy, PartialEq, Eq, Structural)]
pub enum Encoding {
    Utf8,
    Utf8Bom,
    Utf16Le,
    Utf16Be,
    /// Decoded with lossy replacement — the user must be warned.
    Lossy,
}

impl Encoding {
    pub fn label(&self) -> (r: &'static str)
        ensures
            r@ == match *self {
                Encoding::Utf8 => "UTF-8"@,
                Encoding::Utf8Bom => "UTF-8 BOM"@,
                Encoding::Utf16Le => "UTF-16 LE"@,
                Encoding::Utf16Be => "UTF-16 BE"@,
                Encoding::Lossy => "repaired"@,
            },
    {
        match self {
            Encoding::Utf8 => "UTF-8",
            Encoding::Utf8Bom => "UTF-8 BOM",
            Encoding::Utf16Le => "UTF-16 LE",
            Encoding::Utf16Be => "UTF-16 BE",
            Encoding::Lossy => "repaired",
        }
    }
}

/// UTF-16 code units of one character.
pub open spec fn utf16_of_char(c: char) -> Seq<u16> {
    let u = c as u32;
    if u < 0x10000 {
        seq![u as u16]
    } else {
        seq![(0xD800 + (u - 0x10000) / 1024) as u16, (0xDC00 + (u - 0x10000) % 1024) as u16]
    }
}

/// UTF-16 code units of a character sequence.
pub open spec fn utf16_units(s: Seq<char>) -> Seq<u16>
    decreases s.len(),
{
    if s.len() == 0 {
        Seq::empty()
    } else {
        utf16_of_char(s[0]) + utf16_units(s.skip(1))
    }
}

/// Bytes of UTF-16 code units, little- or big-endian.
pub open spec fn utf16_bytes(u: Seq<u16>, little: bool) -> Seq<u8>
    decreases u.len(),
{
    if u.len() == 0 {
        Seq::empty()
    } else {
        let lo = (u[0] % 256) as u8;
        let hi = (u[0] / 256) as u8;
        (if little { seq![lo, hi] } else { seq![hi, lo] }) + utf16_bytes(u.skip(1), little)
    }
}

/// The byte-order mark of UTF-8.
pub open spec fn utf8_bom() -> Seq<u8> {
    seq![0xEFu8, 0xBBu8, 0xBFu8]
}

/// Bytes written to disk for internal text `s` under an encoding and EOL style.
pub open spec fn spec_encoded(s: Seq<char>, eol: Eol, enc: Encoding) -> Seq<u8> {
    let applied = spec_apply(eol, s);
    match enc {
        Encoding::Utf8Bom => utf8_bom() + bytes_of(applied),
        Encoding::Utf16Le => utf16_bytes(utf16_units(applied), true),
        Encoding::Utf16Be => utf16_bytes(utf16_units(applied), false),
        _ => bytes_of(applied),
    }
}

/// Number of maximal runs of non-whitespace characters.
pub open spec fn spec_word_count(s: Seq<char>) -> nat
    decreases s.len(),
{
    if s.len() == 0 {
        0
    } else {
        spec_word_count(s.drop_last()) + if !is_white_space(s.last()) && (s.len() == 1
            || is_white_space(s[s.len() - 2])) {
            1nat
        } else {
            0nat
        }
    }
}

/// A single open document.
pub struct Buffer {
    pub id: u64,
    /// `None` until the first Save As (untitled buffer).
    pub path: Option<PathBuf>,
    /// Internal text — always `\n` line endings.
    pub text: String,
    /// Snapshot of `text` at the last save/load boundary → dirty detection.
    pub saved_text: String,
    pub eol: Eol,
    pub encoding: Encoding,
    pub read_only: bool,
    /// File deleted/moved while open.
    pub missing_on_disk: bool,
    pub disk_stamp: Option<DiskStamp>,
    /// Set when we chose to keep our edits over a changed file; clears next save.
    pub suppress_external_change_once: bool,
    /// Optional display-name override (recovery buffers).
    pub title_override: Option<String>,
}

/// Owned copy of a path.
/// Calls `Path::to_path_buf`; nothing about paths is modelled here.
#[verifier::external_body]
fn path_to_owned(p: &Path) -> PathBuf {
    p.to_path_buf()
}

/// Final component of a path, converted lossily to a `String`.
/// Calls `Path::file_name` (and `OsStr::to_string_lossy`); which component is
/// final depends on the platform's separators, so nothing is stated.
#[verifier::external_body]
fn path_file_name(p: &PathBuf) -> Option<String> {
    p.file_name().map(|n| n.to_string_lossy().into_owned())
}

/// Display form of a path.
/// Calls `Path::display` and formats it; the rendering is platform
/// dependent, so nothing is stated.
#[verifier::external_body]
pub(crate) fn path_display(p: &PathBuf) -> String {
    p.display().to_string()
}

/// `"Untitled-"` followed by the decimal id.
pub open spec fn untitled_name(id: u64) -> Seq<char> {
    seq!['U', 'n', 't', 'i', 't', 'l', 'e', 'd', '-'] + decimal(id as nat)
}

fn untitled_title(id: u64) -> (r: String)
    ensures
        r@ == untitled_name(id),
{
    let mut s = String::new();
    string_push(&mut s, 'U');
    string_push(&mut s, 'n');
    string_push(&mut s, 't');
    string_push(&mut s, 'i');
    string_push(&mut s, 't');
    string_push(&mut s, 'l');
    string_push(&mut s, 'e');
    string_push(&mut s, 'd');
    string_push(&mut s, '-');
    let d = u64_to_decimal(id);
    string_push_str(&mut s, d.as_str());
    assert(s@ =~= untitled_name(id));
    s
}

impl Buffer {
    pub fn untitled(id: u64) -> (b: Self)
        ensures
            b.id == id,
            b.path is None,
            b.text@.len() == 0,
            b.saved_text@.len() == 0,
            b.encoding == Encoding::Utf8,
            !b.read_only,
            !b.missing_on_disk,
            b.disk_stamp is None,
            !b.suppress_external_change_once,
            b.title_override is None,
    {
        Buffer {
            id,
            path: None,
            text: String::new(),
            saved_text: String::new(),
            eol: Eol::platform_default(),
            encoding: Encoding::Utf8,
            read_only: false,
            missing_on_disk: false,
            disk_stamp: None,
            suppress_external_change_once: false,
            title_override: None,
        }
    }

    /// A buffer loaded from disk: the line-ending style is detected and the
    /// text normalized to `\n`.
    pub fn from_disk(
        id: u64,
        path: &Path,
        text: String,
        encoding: Encoding,
        read_only: bool,
        stamp: DiskStamp,
    ) -> (b: Self)
        ensures
            b.id == id,
            b.path is Some,
            b.eol == spec_detect(text@),
            b.text@ == normalize_crlf(text@),
            b.saved_text@ == b.text@,
            b.encoding == encoding,
            b.read_only == read_only,
            !b.missing_on_disk,
            b.disk_stamp == Some(stamp),
            !b.suppress_external_change_once,
            b.title_override is None,
    {
        let eol = Eol::detect(text.as_str());
        let norm = normalize_crlf_string(text.as_str());
        let saved_text = norm.clone();
        Buffer {
            id,
            path: Some(path_to_owned(path)),
            text: norm,
            saved_text,
            eol,
            encoding,
            read_only,
            missing_on_disk: false,
            disk_stamp: Some(stamp),
            suppress_external_change_once: false,
            title_override: None,
        }
    }

    /// The override if any, else the file name, else `Untitled-{id}`.
    pub fn title(&self) -> (r: String)
        ensures
            self.title_override matches Some(t) ==> r@ == t@,
            self.title_override is None && self.path is None ==> r@ == untitled_name(self.id),
    {
        if let Some(t) = &self.title_override {
            return t.clone();
        }
        match &self.path {
            Some(p) => match path_file_name(p) {
                Some(n) => n,
                None => untitled_title(self.id),
            },
            None => untitled_title(self.id),
        }
    }

    /// The displayed path, or the title of an untitled buffer.
    pub fn path_or_title(&self) -> (r: String)
        ensures
            self.path is None ==> (self.title_override matches Some(t) ==> r@ == t@),
            self.path is None && self.title_override is None ==> r@ == untitled_name(self.id),
    {
        match &self.path {
            Some(p) => path_display(p),
            None => self.title(),
        }
    }

    pub fn is_dirty(&self) -> (r: bool)
        ensures
            r == (self.text@ != self.saved_text@),
    {
        self.text != self.saved_text
    }

    /// Whitespace-separated words.
    pub fn word_count(&self) -> (n: usize)
        ensures
            n == spec_word_count(self.text@),
    {
        let cs = chars_of(self.text.as_str());
        let ghost s = cs@;
        let mut i: usize = 0;
        let mut n: usize = 0;
        let mut prev_ws = true;
        while i < cs.len()
            invariant
                s == cs@,
                i <= s.len(),
                n == spec_word_count(s.take(i as int)),
                n <= i,
                prev_ws == (i == 0 || is_white_space(s[i - 1])),
            decreases s.len() - i,
        {
            assert(s.take(i as int + 1).drop_last() =~= s.take(i as int));
            let ws = char_is_whitespace(cs[i]);
            if !ws && prev_ws {
                n = n + 1;
            }
            prev_ws = ws;
            i = i + 1;
        }
        assert(s.take(s.len() as int) =~= s);
        n
    }

    pub fn char_count(&self) -> (n: usize)
        ensures
            n == self.text@.len(),
    {
        let cs = chars_of(self.text.as_str());
        cs.len()
    }

    /// Number of lines in the buffer text.
    pub fn line_count(&self) -> (n: usize)
        requires
            bytes_of(self.text@).len() < usize::MAX,
        ensures
            n == spec_line_count(bytes_of(self.text@)),
    {
        line_count(self.text.as_str())
    }

    /// Mark saved: called only after a successful write/load. `stamp` is the
    /// on-disk metadata read back after the write, when it could be read.
    pub fn mark_saved(&mut self, stamp: Option<DiskStamp>)
        ensures
            final(self).saved_text@ == old(self).text@,
            final(self).text@ == old(self).text@,
            *final(self) == (Buffer {
                saved_text: final(self).saved_text,
                suppress_external_change_once: false,
                disk_stamp: final(self).disk_stamp,
                missing_on_disk: final(self).missing_on_disk,
                ..*old(self)
            }),
            (old(self).path is Some && stamp is Some) ==> final(self).disk_stamp == stamp
                && !final(self).missing_on_disk,
            !(old(self).path is Some && stamp is Some) ==> final(self).disk_stamp == old(self).disk_stamp
                && final(self).missing_on_disk == old(self).missing_on_disk,
    {
        self.saved_text = self.text.clone();
        self.suppress_external_change_once = false;
        if self.path.is_some() {
            if let Some(st) = stamp {
                self.disk_stamp = Some(st);
                self.missing_on_disk = false;
            }
        }
    }

    /// The bytes to write for this buffer under its encoding and EOL settings.
    pub fn encoded_bytes(&self) -> (r: Vec<u8>)
        ensures
            r@ == spec_encoded(self.text@, self.eol, self.encoding),
    {
        let applied = self.eol.apply(self.text.as_str());
        match self.encoding {
            Encoding::Utf16Le => utf16_encode(applied.as_str(), true),
            Encoding::Utf16Be => utf16_encode(applied.as_str(), false),
            Encoding::Utf8Bom => {
                let mut out: Vec<u8> = Vec::new();
                out.push(0xEFu8);
                out.push(0xBBu8);
                out.push(0xBFu8);
                let b = applied.as_str().as_bytes();
                crate::utf8_text::push_range(&mut out, b, 0, b.len());
                assert(b@.subrange(0, b@.len() as int) =~= b@);
                assert(out@ =~= utf8_bom() + bytes_of(applied@));
                out
            },
            _ => {
                let mut out: Vec<u8> = Vec::new();
                let b = applied.as_str().as_bytes();
                crate::utf8_text::push_range(&mut out, b, 0, b.len());
                assert(b@.subrange(0, b@.len() as int) =~= b@);
                assert(out@ =~= bytes_of(applied@));
                out
            },
        }
    }
}

fn utf16_encode(text: &str, little: bool) -> (r: Vec<u8>)
    ensures
        r@ == utf16_bytes(utf16_units(text@), little),
{
    let cs = chars_of(text);
    let ghost s = cs@;
    let mut out: Vec<u8> = Vec::new();
    let mut i: usize = 0;
    assert(s.skip(0) =~= s);
    assert(out@ + utf16_bytes(utf16_units(s), little) =~= utf16_bytes(utf16_units(s), little));
    while i < cs.len()
        invariant
            s == cs@,
            i <= s.len(),
            utf16_bytes(utf16_units(s), little) == out@ + utf16_bytes(utf16_units(s.skip(i as int)), little),
        decreases s.len() - i,
    {
        let ghost rest = s.skip(i as int);
        assert(rest.skip(1) =~= s.skip(i as int + 1));
        assert(rest[0] == s[i as int]);
        let c = cs[i];
        let u = c as u32;
        proof {
            vstd::utf8::char_is_scalar(c);
            lemma_utf16_bytes_concat(utf16_of_char(c), utf16_units(rest.skip(1)), little);
        }
        assert(utf16_units(rest) == utf16_of_char(c) + utf16_units(rest.skip(1)));
        if u < 0x10000 {
            push_unit(&mut out, u as u16, little);
            proof {
                assert(utf16_of_char(c) =~= seq![u as u16]);
            }
        } else {
            let v = u - 0x10000;
            let hi = (0xD800 + v / 1024) as u16;
            let lo = (0xDC00 + v % 1024) as u16;
            push_unit(&mut out, hi, little);
            push_unit(&mut out, lo, little);
            proof {
                let w = utf16_of_char(c);
                assert(w =~= seq![hi] + seq![lo]);
                lemma_utf16_bytes_concat(seq![hi], seq![lo], little);
            }
        }
        i = i + 1;
    }
    assert(s.skip(s.len() as int) =~= Seq::<char>::empty());
    assert(out@ + Seq::<u8>::empty() =~= out@);
    out
}

fn push_unit(out: &mut Vec<u8>, u: u16, little: bool)
    ensures
        final(out)@ == old(out)@ + utf16_bytes(seq![u], little),
{
    let lo = (u % 256) as u8;
    let hi = (u / 256) as u8;
    assert(seq![u].skip(1) =~= Seq::<u16>::empty());
    if little {
        out.push(lo);
        out.push(hi);
    } else {
        out.push(hi);
        out.push(lo);
    }
    assert(final(out)@ =~= old(out)@ + utf16_bytes(seq![u], little)) by {
        reveal_with_fuel(utf16_bytes, 2);
    }
}

proof fn lemma_utf16_bytes_concat(a: Seq<u16>, b: Seq<u16>, little: bool)
    ensures
        utf16_bytes(a + b, little) == utf16_bytes(a, little) + utf16_bytes(b, little),
    decreases a.len(),
{
    if a.len() == 0 {
        assert(a + b =~= b);
        assert(utf16_bytes(a, little) + utf16_bytes(b, little) =~= utf16_bytes(b, little));
    } else {
        lemma_utf16_bytes_concat(a.skip(1), b, little);
        assert((a + b).skip(1) =~= a.skip(1) + b);
        assert((a + b)[0] == a[0]);
    }
}

} // verus!
