//! The supported encodings, decoding and encoding through encoding_rs, and
//! detection of a buffer's encoding.

use vstd::prelude::*;
use crate::entities::{decode_entities, entities_decoded};
use crate::mojibake::{chars_equal, corrected, fix_mojibake, fix_mojibake_once, fix_once, high_end};
use crate::chars::decode_utf8_exact;
use crate::text::{chars_of, string_from_chars};
use vstd::utf8::{decode_utf8, encode_utf8, is_ascii_chars, valid_utf8};

verus! {

#[derive(Debug)]
pub enum EncodingError {
    UnsupportedEncoding(String),
    InvalidUtf8,
    ConversionError(String),
}

#[derive(Debug, Clone, Copy, PartialEq, Eq, Structural)]
pub enum AdifEncoding {
    Utf8,
    Windows1252,
    Iso88591,
    Iso88592,
    Iso88593,
    Iso88594,
    Iso88595,
    Iso88596,
    Iso88597,
    Iso88598,
    Iso885910,
    Iso885913,
    Iso885914,
    Iso885915,
    Koi8R,
    Koi8U,
    ShiftJis,
    EucJp,
    Gbk,
    Big5,
    Ascii,
}

/// What `str::to_lowercase` returns: the Unicode lower-case mapping.
pub uninterp spec fn lower_of(s: Seq<char>) -> Seq<char>;

/// The encoding that a lower-case name or alias stands for.
pub open spec fn encoding_named(l: Seq<char>) -> Option<AdifEncoding> {
    if l == "utf-8"@ || l == "utf8"@ {
        Some(AdifEncoding::Utf8)
    } else if l == "windows-1252"@ || l == "cp1252"@ {
        Some(AdifEncoding::Windows1252)
    } else if l == "iso-8859-1"@ || l == "latin-1"@ {
        Some(AdifEncoding::Iso88591)
    } else if l == "iso-8859-2"@ || l == "latin-2"@ {
        Some(AdifEncoding::Iso88592)
    } else if l == "iso-8859-3"@ || l == "latin-3"@ {
        Some(AdifEncoding::Iso88593)
    } else if l == "iso-8859-4"@ || l == "latin-4"@ {
        Some(AdifEncoding::Iso88594)
    } else if l == "iso-8859-5"@ || l == "cyrillic"@ {
        Some(AdifEncoding::Iso88595)
    } else if l == "iso-8859-6"@ || l == "arabic"@ {
        Some(AdifEncoding::Iso88596)
    } else if l == "iso-8859-7"@ || l == "greek"@ {
        Some(AdifEncoding::Iso88597)
    } else if l == "iso-8859-8"@ || l == "hebrew"@ {
        Some(AdifEncoding::Iso88598)
    } else if l == "iso-8859-10"@ || l == "latin-6"@ {
        Some(AdifEncoding::Iso885910)
    } else if l == "iso-8859-13"@ || l == "latin-7"@ {
        Some(AdifEncoding::Iso885913)
    } else if l == "iso-8859-14"@ || l == "latin-8"@ {
        Some(AdifEncoding::Iso885914)
    } else if l == "iso-8859-15"@ || l == "latin-9"@ {
        Some(AdifEncoding::Iso885915)
    } else if l == "koi8-r"@ {
        Some(AdifEncoding::Koi8R)
    } else if l == "koi8-u"@ {
        Some(AdifEncoding::Koi8U)
    } else if l == "shift_jis"@ || l == "shift-jis"@ || l == "sjis"@ {
        Some(AdifEncoding::ShiftJis)
    } else if l == "euc-jp"@ || l == "eucjp"@ {
        Some(AdifEncoding::EucJp)
    } else if l == "gbk"@ || l == "gb2312"@ {
        Some(AdifEncoding::Gbk)
    } else if l == "big5"@ {
        Some(AdifEncoding::Big5)
    } else if l == "ascii"@ || l == "us-ascii"@ {
        Some(AdifEncoding::Ascii)
    } else {
        None
    }
}

/// The name written into output files.
pub open spec fn display_name(e: AdifEncoding) -> Seq<char> {
    match e {
        AdifEncoding::Utf8 => "UTF-8"@,
        AdifEncoding::Windows1252 => "Windows-1252"@,
        AdifEncoding::Iso88591 => "ISO-8859-1"@,
        AdifEncoding::Iso88592 => "ISO-8859-2"@,
        AdifEncoding::Iso88593 => "ISO-8859-3"@,
        AdifEncoding::Iso88594 => "ISO-8859-4"@,
        AdifEncoding::Iso88595 => "ISO-8859-5"@,
        AdifEncoding::Iso88596 => "ISO-8859-6"@,
        AdifEncoding::Iso88597 => "ISO-8859-7"@,
        AdifEncoding::Iso88598 => "ISO-8859-8"@,
        AdifEncoding::Iso885910 => "ISO-8859-10"@,
        AdifEncoding::Iso885913 => "ISO-8859-13"@,
        AdifEncoding::Iso885914 => "ISO-8859-14"@,
        AdifEncoding::Iso885915 => "ISO-8859-15"@,
        AdifEncoding::Koi8R => "KOI8-R"@,
        AdifEncoding::Koi8U => "KOI8-U"@,
        AdifEncoding::ShiftJis => "Shift_JIS"@,
        AdifEncoding::EucJp => "EUC-JP"@,
        AdifEncoding::Gbk => "GBK"@,
        AdifEncoding::Big5 => "Big5"@,
        AdifEncoding::Ascii => "US-ASCII"@,
    }
}

/// The WHATWG label of the table that reads and writes an encoding. Latin-1
/// is read as its superset Windows-1252, and ASCII as its superset UTF-8.
pub open spec fn codec_label(e: AdifEncoding) -> Seq<char> {
    match e {
        AdifEncoding::Utf8 => "utf-8"@,
        AdifEncoding::Windows1252 => "windows-1252"@,
        AdifEncoding::Iso88591 => "windows-1252"@,
        AdifEncoding::Iso88592 => "iso-8859-2"@,
        AdifEncoding::Iso88593 => "iso-8859-3"@,
        AdifEncoding::Iso88594 => "iso-8859-4"@,
        AdifEncoding::Iso88595 => "iso-8859-5"@,
        AdifEncoding::Iso88596 => "iso-8859-6"@,
        AdifEncoding::Iso88597 => "iso-8859-7"@,
        AdifEncoding::Iso88598 => "iso-8859-8"@,
        AdifEncoding::Iso885910 => "iso-8859-10"@,
        AdifEncoding::Iso885913 => "iso-8859-13"@,
        AdifEncoding::Iso885914 => "iso-8859-14"@,
        AdifEncoding::Iso885915 => "iso-8859-15"@,
        AdifEncoding::Koi8R => "koi8-r"@,
        AdifEncoding::Koi8U => "koi8-u"@,
        AdifEncoding::ShiftJis => "shift_jis"@,
        AdifEncoding::EucJp => "euc-jp"@,
        AdifEncoding::Gbk => "gbk"@,
        AdifEncoding::Big5 => "big5"@,
        AdifEncoding::Ascii => "utf-8"@,
    }
}

/// Labels that `encoding_rs::Encoding::for_label` recognizes (each stands in
/// its table of labels).
pub open spec fn known_label(l: Seq<char>) -> bool {
    exists|e: AdifEncoding| codec_label(e) == l
}

/// The code pages that use one byte per character.
pub open spec fn single_byte(e: AdifEncoding) -> bool {
    match e {
        AdifEncoding::Utf8 | AdifEncoding::ShiftJis | AdifEncoding::EucJp | AdifEncoding::Gbk
        | AdifEncoding::Big5 | AdifEncoding::Ascii => false,
        _ => true,
    }
}

/// Text decoded from bytes, with whether malformed input was replaced.
pub struct Decoded {
    pub text: String,
    pub had_errors: bool,
}

/// Bytes encoded from text, with whether unmappable characters were replaced.
pub struct Encoded {
    pub bytes: Vec<u8>,
    pub had_errors: bool,
}

/// What `Encoding::decode` returns for the encoding of a label: the text and
/// the error flag.
pub uninterp spec fn decoded_with(label: Seq<char>, bytes: Seq<u8>) -> (Seq<char>, bool);

/// What `Encoding::encode` returns for the encoding of a label: the bytes and
/// the error flag.
pub uninterp spec fn encoded_with(label: Seq<char>, text: Seq<char>) -> (Seq<u8>, bool);

/// What chardetng's `EncodingDetector` guesses for a whole buffer, by name.
pub uninterp spec fn guessed_name(bytes: Seq<u8>) -> Seq<char>;

/// Bytes that start with the UTF-8 byte order mark.
pub open spec fn starts_with_bom(b: Seq<u8>) -> bool {
    b.len() >= 3 && b[0] == 0xEF && b[1] == 0xBB && b[2] == 0xBF
}

pub open spec fn all_ascii_bytes(b: Seq<u8>) -> bool {
    forall|i: int| 0 <= i < b.len() ==> #[trigger] b[i] <= 0x7F
}

/// Relies on `encoding_rs::Encoding::for_label`, which finds every label of
/// `codec_label` in its table, and on `Encoding::decode` (BOM sniffing,
/// malformed sequences replaced and flagged): well-formed UTF-8 without a
/// BOM decodes under `utf-8` to its characters, and ASCII bytes decode to
/// themselves under every encoding of `codec_label`, all ASCII-compatible.
#[verifier::external_body]
fn decode_with_label(label: &str, data: &[u8]) -> (r: Option<Decoded>)
    ensures
        known_label(label@) ==> r is Some,
        r is Some ==> (r->0.text@, r->0.had_errors) == decoded_with(label@, data@),
        r is Some && label@ == "utf-8"@ && valid_utf8(data@) && !starts_with_bom(data@) ==> r->0.text@
            == decode_utf8(data@) && !r->0.had_errors,
        r is Some && known_label(label@) && all_ascii_bytes(data@) ==> r->0.text@ == data@.map_values(
            |c: u8| c as char,
        ) && !r->0.had_errors,
{
    match encoding_rs::Encoding::for_label(label.as_bytes()) {
        Some(enc) => {
            let (text, _, had_errors) = enc.decode(data);
            Some(Decoded { text: text.into_owned(), had_errors })
        },
        None => None,
    }
}

/// Relies on `encoding_rs::Encoding::for_label` as above, and on
/// `Encoding::encode`: UTF-8 output is the string's own bytes without errors,
/// and every encoding of `codec_label` is ASCII-compatible, so it copies
/// ASCII-only text as it is.
#[verifier::external_body]
fn encode_with_label(label: &str, text: &str) -> (r: Option<Encoded>)
    ensures
        known_label(label@) ==> r is Some,
        r is Some ==> (r->0.bytes@, r->0.had_errors) == encoded_with(label@, text@),
        r is Some && label@ == "utf-8"@ ==> r->0.bytes@ == encode_utf8(text@) && !r->0.had_errors,
        r is Some && known_label(label@) && is_ascii_chars(text@) ==> r->0.bytes@ == encode_utf8(
            text@,
        ) && !r->0.had_errors,
{
    match encoding_rs::Encoding::for_label(label.as_bytes()) {
        Some(enc) => {
            let (bytes, _, had_errors) = enc.encode(text);
            Some(Encoded { bytes: bytes.into_owned(), had_errors })
        },
        None => None,
    }
}

/// Relies on chardetng: a fresh `EncodingDetector` fed the whole buffer,
/// then `guess` with no top-level domain and UTF-8 allowed, by its name.
#[verifier::external_body]
fn guess_encoding_name(data: &[u8]) -> (r: String)
    ensures
        r@ == guessed_name(data@),
{
    let mut detector = chardetng::EncodingDetector::new();
    detector.feed(data, true);
    detector.guess(None, true).name().to_string()
}

/// Relies on `str::to_lowercase`.
#[verifier::external_body]
fn lowercase(s: &str) -> (r: String)
    ensures
        r@ == lower_of(s@),
{
    s.to_lowercase()
}

fn eq_lit(cs: &[char], lit: &str) -> (r: bool)
    ensures
        r == (cs@ == lit@),
{
    let l = chars_of(lit);
    chars_equal(cs, l.as_slice())
}

fn copy_str(s: &str) -> (r: String)
    ensures
        r@ == s@,
{
    s.to_owned()
}

impl AdifEncoding {
    /// Parses an encoding name or alias, in any letter case (after Unicode
    /// lower-casing).
    pub fn from_str(s: &str) -> (r: Result<Self, EncodingError>)
        ensures
            match encoding_named(lower_of(s@)) {
                Some(e) => r == Ok::<AdifEncoding, EncodingError>(e),
                None => r is Err && r->Err_0 is UnsupportedEncoding
                    && r->Err_0->UnsupportedEncoding_0@ == s@,
            },
    {
        let lower = lowercase(s);
        let l = chars_of(lower.as_str());
        let l = l.as_slice();
        if eq_lit(l, "utf-8") || eq_lit(l, "utf8") {
            Ok(AdifEncoding::Utf8)
        } else if eq_lit(l, "windows-1252") || eq_lit(l, "cp1252") {
            Ok(AdifEncoding::Windows1252)
        } else if eq_lit(l, "iso-8859-1") || eq_lit(l, "latin-1") {
            Ok(AdifEncoding::Iso88591)
        } else if eq_lit(l, "iso-8859-2") || eq_lit(l, "latin-2") {
            Ok(AdifEncoding::Iso88592)
        } else if eq_lit(l, "iso-8859-3") || eq_lit(l, "latin-3") {
            Ok(AdifEncoding::Iso88593)
        } else if eq_lit(l, "iso-8859-4") || eq_lit(l, "latin-4") {
            Ok(AdifEncoding::Iso88594)
        } else if eq_lit(l, "iso-8859-5") || eq_lit(l, "cyrillic") {
            Ok(AdifEncoding::Iso88595)
        } else if eq_lit(l, "iso-8859-6") || eq_lit(l, "arabic") {
            Ok(AdifEncoding::Iso88596)
        } else if eq_lit(l, "iso-8859-7") || eq_lit(l, "greek") {
            Ok(AdifEncoding::Iso88597)
        } else if eq_lit(l, "iso-8859-8") || eq_lit(l, "hebrew") {
            Ok(AdifEncoding::Iso88598)
        } else if eq_lit(l, "iso-8859-10") || eq_lit(l, "latin-6") {
            Ok(AdifEncoding::Iso885910)
        } else if eq_lit(l, "iso-8859-13") || eq_lit(l, "latin-7") {
            Ok(AdifEncoding::Iso885913)
        } else if eq_lit(l, "iso-8859-14") || eq_lit(l, "latin-8") {
            Ok(AdifEncoding::Iso885914)
        } else if eq_lit(l, "iso-8859-15") || eq_lit(l, "latin-9") {
            Ok(AdifEncoding::Iso885915)
        } else if eq_lit(l, "koi8-r") {
            Ok(AdifEncoding::Koi8R)
        } else if eq_lit(l, "koi8-u") {
            Ok(AdifEncoding::Koi8U)
        } else if eq_lit(l, "shift_jis") || eq_lit(l, "shift-jis") || eq_lit(l, "sjis") {
            Ok(AdifEncoding::ShiftJis)
        } else if eq_lit(l, "euc-jp") || eq_lit(l, "eucjp") {
            Ok(AdifEncoding::EucJp)
        } else if eq_lit(l, "gbk") || eq_lit(l, "gb2312") {
            Ok(AdifEncoding::Gbk)
        } else if eq_lit(l, "big5") {
            Ok(AdifEncoding::Big5)
        } else if eq_lit(l, "ascii") || eq_lit(l, "us-ascii") {
            Ok(AdifEncoding::Ascii)
        } else {
            Err(EncodingError::UnsupportedEncoding(copy_str(s)))
        }
    }

    /// The name written into output files.
    pub fn to_string(&self) -> (r: &'static str)
        ensures
            r@ == display_name(*self),
    {
        match self {
            AdifEncoding::Utf8 => "UTF-8",
            AdifEncoding::Windows1252 => "Windows-1252",
            AdifEncoding::Iso88591 => "ISO-8859-1",
            AdifEncoding::Iso88592 => "ISO-8859-2",
            AdifEncoding::Iso88593 => "ISO-8859-3",
            AdifEncoding::Iso88594 => "ISO-8859-4",
            AdifEncoding::Iso88595 => "ISO-8859-5",
            AdifEncoding::Iso88596 => "ISO-8859-6",
            AdifEncoding::Iso88597 => "ISO-8859-7",
            AdifEncoding::Iso88598 => "ISO-8859-8",
            AdifEncoding::Iso885910 => "ISO-8859-10",
            AdifEncoding::Iso885913 => "ISO-8859-13",
            AdifEncoding::Iso885914 => "ISO-8859-14",
            AdifEncoding::Iso885915 => "ISO-8859-15",
            AdifEncoding::Koi8R => "KOI8-R",
            AdifEncoding::Koi8U => "KOI8-U",
            AdifEncoding::ShiftJis => "Shift_JIS",
            AdifEncoding::EucJp => "EUC-JP",
            AdifEncoding::Gbk => "GBK",
            AdifEncoding::Big5 => "Big5",
            AdifEncoding::Ascii => "US-ASCII",
        }
    }

    /// The WHATWG label of the table that reads and writes this encoding.
    pub fn codec_label(&self) -> (r: &'static str)
        ensures
            r@ == codec_label(*self),
            known_label(r@),
    {
        let r = match self {
            AdifEncoding::Utf8 => "utf-8",
            AdifEncoding::Windows1252 => "windows-1252",
            AdifEncoding::Iso88591 => "windows-1252",
            AdifEncoding::Iso88592 => "iso-8859-2",
            AdifEncoding::Iso88593 => "iso-8859-3",
            AdifEncoding::Iso88594 => "iso-8859-4",
            AdifEncoding::Iso88595 => "iso-8859-5",
            AdifEncoding::Iso88596 => "iso-8859-6",
            AdifEncoding::Iso88597 => "iso-8859-7",
            AdifEncoding::Iso88598 => "iso-8859-8",
            AdifEncoding::Iso885910 => "iso-8859-10",
            AdifEncoding::Iso885913 => "iso-8859-13",
            AdifEncoding::Iso885914 => "iso-8859-14",
            AdifEncoding::Iso885915 => "iso-8859-15",
            AdifEncoding::Koi8R => "koi8-r",
            AdifEncoding::Koi8U => "koi8-u",
            AdifEncoding::ShiftJis => "shift_jis",
            AdifEncoding::EucJp => "euc-jp",
            AdifEncoding::Gbk => "gbk",
            AdifEncoding::Big5 => "big5",
            AdifEncoding::Ascii => "utf-8",
        };
        assert(codec_label(*self) == r@);
        r
    }

    pub fn is_single_byte(&self) -> (r: bool)
        ensures
            r == single_byte(*self),
    {
        match self {
            AdifEncoding::Utf8 | AdifEncoding::ShiftJis | AdifEncoding::EucJp | AdifEncoding::Gbk
            | AdifEncoding::Big5 | AdifEncoding::Ascii => false,
            _ => true,
        }
    }
}

/// Whether a character can be written in an encoding.
pub open spec fn representable(e: AdifEncoding, c: char) -> bool {
    if e == AdifEncoding::Ascii {
        c as u32 <= 0x7F
    } else {
        !encoded_with(codec_label(e), seq![c]).1
    }
}

/// The first character from index `i` on that `e` cannot represent.
pub open spec fn first_unrepresentable(e: AdifEncoding, cs: Seq<char>, i: int) -> Option<char>
    decreases cs.len() - i,
{
    if i < 0 || i >= cs.len() {
        None
    } else if !representable(e, cs[i]) {
        Some(cs[i])
    } else {
        first_unrepresentable(e, cs, i + 1)
    }
}

/// Characters `e` cannot represent replaced by `rc`.
pub open spec fn replaced_with(e: AdifEncoding, cs: Seq<char>, rc: char) -> Seq<char> {
    cs.map_values(|c: char| if representable(e, c) { c } else { rc })
}

/// Whether a character can be written in an encoding.
pub fn char_representable(e: AdifEncoding, c: char) -> (r: bool)
    ensures
        r == representable(e, c),
{
    if e == AdifEncoding::Ascii {
        return (c as u32) <= 0x7F;
    }
    let one = string_from_chars(&[c]);
    assert(one@ =~= seq![c]);
    !encode_in(e, one.as_str()).had_errors
}

/// Decodes bytes under an encoding.
pub fn decode_in(e: AdifEncoding, data: &[u8]) -> (r: Decoded)
    ensures
        (r.text@, r.had_errors) == decoded_with(codec_label(e), data@),
        codec_label(e) == "utf-8"@ && valid_utf8(data@) && !starts_with_bom(data@) ==> r.text@
            == decode_utf8(data@) && !r.had_errors,
        all_ascii_bytes(data@) ==> r.text@ == data@.map_values(|c: u8| c as char) && !r.had_errors,
{
    match decode_with_label(e.codec_label(), data) {
        Some(d) => d,
        None => {
            proof {
                assert(false);
            }
            Decoded { text: String::new(), had_errors: true }
        },
    }
}

/// Encodes text under an encoding.
pub fn encode_in(e: AdifEncoding, text: &str) -> (r: Encoded)
    ensures
        (r.bytes@, r.had_errors) == encoded_with(codec_label(e), text@),
        codec_label(e) == "utf-8"@ ==> r.bytes@ == encode_utf8(text@) && !r.had_errors,
        is_ascii_chars(text@) ==> r.bytes@ == encode_utf8(text@) && !r.had_errors,
{
    match encode_with_label(e.codec_label(), text) {
        Some(x) => x,
        None => {
            proof {
                assert(false);
            }
            Encoded { bytes: Vec::new(), had_errors: true }
        },
    }
}

/// What a buffer looks like when nothing names its encoding: UTF-8 when it is
/// well-formed UTF-8 that one correction pass leaves alone; else the
/// statistical guess when that is a supported single-byte code page; else
/// Windows-1252.
pub open spec fn sniffed(data: Seq<u8>) -> AdifEncoding {
    if valid_utf8(data) && fix_once(decode_utf8(data)) == decode_utf8(data) {
        AdifEncoding::Utf8
    } else {
        match encoding_named(lower_of(guessed_name(data))) {
            Some(e) => if single_byte(e) {
                e
            } else {
                AdifEncoding::Windows1252
            },
            None => AdifEncoding::Windows1252,
        }
    }
}

/// Sniffs the encoding of a buffer that nothing names.
pub fn sniff_encoding(data: &[u8]) -> (r: AdifEncoding)
    ensures
        r == sniffed(data@),
{
    match decode_utf8_exact(data) {
        Some(cs) => {
            let once = fix_mojibake_once(cs.as_slice());
            if chars_equal(once.as_slice(), cs.as_slice()) {
                return AdifEncoding::Utf8;
            }
        },
        None => {},
    }
    let g = guess_encoding_name(data);
    match AdifEncoding::from_str(g.as_str()) {
        Ok(e) => if e.is_single_byte() {
            e
        } else {
            AdifEncoding::Windows1252
        },
        Err(_) => AdifEncoding::Windows1252,
    }
}

/// Decides the encoding of a whole buffer: an explicit hint first (an
/// unsupported hint is an error), then the encoding the header declares
/// when it is supported, then what the bytes look like.
pub fn detect_encoding(data: &[u8], hint: Option<&str>, declared: Option<&str>) -> (r: Result<
    AdifEncoding,
    EncodingError,
>)
    ensures
        match hint {
            Some(h) => match encoding_named(lower_of(h@)) {
                Some(e) => r == Ok::<AdifEncoding, EncodingError>(e),
                None => r is Err && r->Err_0 is UnsupportedEncoding,
            },
            None => r is Ok && r->Ok_0 == match declared {
                Some(d) => match encoding_named(lower_of(d@)) {
                    Some(e) => e,
                    None => sniffed(data@),
                },
                None => sniffed(data@),
            },
        },
{
    match hint {
        Some(h) => {
            return AdifEncoding::from_str(h);
        },
        None => {},
    }
    match declared {
        Some(d) => match AdifEncoding::from_str(d) {
            Ok(e) => {
                return Ok(e);
            },
            Err(_) => {},
        },
        None => {},
    }
    Ok(sniff_encoding(data))
}

pub struct EncodingProcessor {
    /// The encoding of field data; `None` to sniff each field's bytes.
    pub input_encoding: Option<AdifEncoding>,
    pub output_encoding: AdifEncoding,
    /// Fail on malformed or unrepresentable characters instead of
    /// repairing or substituting them.
    pub strict_mode: bool,
}

/// The encoding a field's bytes are read in.
pub open spec fn source_encoding(p: EncodingProcessor, data: Seq<u8>) -> AdifEncoding {
    match p.input_encoding {
        Some(e) => e,
        None => sniffed(data),
    }
}

/// A field's text: decoded, then, outside strict mode, with references
/// expanded and mojibake corrected. `None` when strict mode meets malformed
/// input.
pub open spec fn processed(p: EncodingProcessor, data: Seq<u8>) -> Option<Seq<char>> {
    let d = decoded_with(codec_label(source_encoding(p, data)), data);
    if p.strict_mode && d.1 {
        None
    } else if p.strict_mode {
        Some(d.0)
    } else {
        Some(corrected(entities_decoded(d.0)))
    }
}

/// Length of a text in the unit of an encoding: characters for UTF-8,
/// encoded bytes otherwise.
pub open spec fn length_in(e: AdifEncoding, text: Seq<char>) -> nat {
    if e == AdifEncoding::Utf8 {
        text.len()
    } else {
        encoded_with(codec_label(e), text).0.len()
    }
}

impl EncodingProcessor {
    pub fn new(input_encoding: Option<AdifEncoding>, output_encoding: AdifEncoding, strict_mode: bool) -> (r: Self)
        ensures
            r.input_encoding == input_encoding,
            r.output_encoding == output_encoding,
            r.strict_mode == strict_mode,
    {
        EncodingProcessor { input_encoding, output_encoding, strict_mode }
    }

    /// Decodes a field's bytes and, outside strict mode, repairs the text.
    pub fn process_field_data(&self, data: &[u8]) -> (r: Result<String, EncodingError>)
        ensures
            r is Err <==> processed(*self, data@) is None,
            r is Ok ==> Some(r->Ok_0@) == processed(*self, data@),
            r is Err ==> r->Err_0 is ConversionError,
    {
        let e = match self.input_encoding {
            Some(e) => e,
            None => sniff_encoding(data),
        };
        let d = decode_in(e, data);
        if self.strict_mode {
            if d.had_errors {
                return Err(EncodingError::ConversionError(copy_str("invalid characters in input")));
            }
            return Ok(d.text);
        }
        Ok(self.correct_mojibake(&decode_entities(d.text.as_str())))
    }

    /// Mojibake correction, as `fix_mojibake`.
    pub fn correct_mojibake(&self, text: &str) -> (r: String)
        ensures
            r@ == corrected(text@),
    {
        fix_mojibake(text)
    }

    /// Encodes text to the output encoding. In strict mode a character the
    /// encoding cannot represent is an error; otherwise it is replaced by
    /// `replacement_char` when one is given, else left to the encoder (which
    /// writes a numeric reference).
    pub fn encode_output(&self, text: &str, replacement_char: Option<char>) -> (r: Result<Vec<u8>, EncodingError>)
        ensures
            r is Err <==> self.strict_mode && first_unrepresentable(self.output_encoding, text@, 0) is Some,
            r is Err ==> r->Err_0 is ConversionError,
            r is Ok ==> r->Ok_0@ == encoded_with(
                codec_label(self.output_encoding),
                match replacement_char {
                    Some(rc) => replaced_with(self.output_encoding, text@, rc),
                    None => text@,
                },
            ).0,
    {
        let cs = chars_of(text);
        let mut out: Vec<char> = Vec::new();
        let mut i: usize = 0;
        while i < cs.len()
            invariant
                cs@ == text@,
                i <= cs@.len(),
                self.strict_mode ==> first_unrepresentable(self.output_encoding, cs@, 0)
                    == first_unrepresentable(self.output_encoding, cs@, i as int),
                out@ == match replacement_char {
                    Some(rc) => replaced_with(self.output_encoding, cs@.subrange(0, i as int), rc),
                    None => cs@.subrange(0, i as int),
                },
            decreases cs@.len() - i,
        {
            let c = cs[i];
            if char_representable(self.output_encoding, c) {
                out.push(c);
            } else if self.strict_mode {
                return Err(EncodingError::ConversionError(copy_str("cannot encode to target encoding")));
            } else {
                match replacement_char {
                    Some(rc) => out.push(rc),
                    None => out.push(c),
                }
            }
            i += 1;
            assert(out@ =~= match replacement_char {
                Some(rc) => replaced_with(self.output_encoding, cs@.subrange(0, i as int), rc),
                None => cs@.subrange(0, i as int),
            });
        }
        assert(cs@.subrange(0, cs@.len() as int) =~= cs@);
        let t = string_from_chars(out.as_slice());
        Ok(encode_in(self.output_encoding, t.as_str()).bytes)
    }

    /// The length of a text in the unit of an encoding.
    pub fn count_length(&self, text: &str, encoding: &AdifEncoding) -> (r: usize)
        ensures
            r as nat == length_in(*encoding, text@),
    {
        match encoding {
            AdifEncoding::Utf8 => chars_of(text).len(),
            _ => encode_in(*encoding, text).bytes.len(),
        }
    }
}

/// Bytes from `i` on where UTF-8 and another encoding are mixed: each run of
/// bytes above 0x7F that is well-formed UTF-8 is read as UTF-8, other high
/// bytes one at a time in `e`, ASCII as it is.
pub open spec fn mixed_from(e: AdifEncoding, b: Seq<u8>, i: int) -> Seq<char>
    decreases b.len() - i,
{
    if i < 0 || i >= b.len() {
        seq![]
    } else if b[i] > 0x7F {
        let end = high_end(b, i);
        if i < end <= b.len() && valid_utf8(b.subrange(i, end)) {
            decode_utf8(b.subrange(i, end)) + mixed_from(e, b, end)
        } else {
            decoded_with(codec_label(e), b.subrange(i, i + 1)).0 + mixed_from(e, b, i + 1)
        }
    } else {
        seq![b[i] as char] + mixed_from(e, b, i + 1)
    }
}

/// A clean decode in `e` when there is one, else the mixed reading; then
/// mojibake correction.
pub open spec fn mixed_decoded(e: AdifEncoding, b: Seq<u8>) -> Seq<char> {
    let d = decoded_with(codec_label(e), b);
    if !d.1 {
        corrected(d.0)
    } else {
        corrected(mixed_from(e, b, 0))
    }
}

fn push_str_chars(out: &mut Vec<char>, s: &str)
    ensures
        final(out)@ == old(out)@ + s@,
{
    let cs = chars_of(s);
    let mut i: usize = 0;
    while i < cs.len()
        invariant
            cs@ == s@,
            i <= cs@.len(),
            out@ == old(out)@ + cs@.subrange(0, i as int),
        decreases cs@.len() - i,
    {
        out.push(cs[i]);
        i += 1;
        assert(out@ =~= old(out)@ + cs@.subrange(0, i as int));
    }
    assert(cs@.subrange(0, cs@.len() as int) =~= cs@);
}

/// Decodes bytes that are suspected to be in `suspected_encoding` but may
/// hold stretches of UTF-8, then corrects mojibake.
pub fn fix_mixed_encoding(bytes: &[u8], suspected_encoding: AdifEncoding) -> (r: Result<String, EncodingError>)
    ensures
        r is Ok,
        r->Ok_0@ == mixed_decoded(suspected_encoding, bytes@),
{
    let d = decode_in(suspected_encoding, bytes);
    if !d.had_errors {
        return Ok(fix_mojibake(d.text.as_str()));
    }
    let mut out: Vec<char> = Vec::new();
    let mut i: usize = 0;
    while i < bytes.len()
        invariant
            i <= bytes@.len(),
            out@ + mixed_from(suspected_encoding, bytes@, i as int) == mixed_from(suspected_encoding, bytes@, 0),
        decreases bytes@.len() - i,
    {
        let ghost before = out@;
        if bytes[i] > 0x7F {
            let mut end = i;
            while end < bytes.len() && bytes[end] > 0x7F
                invariant
                    i <= end <= bytes@.len(),
                    high_end(bytes@, end as int) == high_end(bytes@, i as int),
                    end == i ==> bytes@[i as int] > 0x7F,
                decreases bytes@.len() - end,
            {
                end += 1;
            }
            let run = &bytes[i..end];
            assert(run@ =~= bytes@.subrange(i as int, end as int));
            match decode_utf8_exact(run) {
                Some(cs) => {
                    let mut k: usize = 0;
                    while k < cs.len()
                        invariant
                            k <= cs@.len(),
                            out@ == before + cs@.subrange(0, k as int),
                        decreases cs@.len() - k,
                    {
                        out.push(cs[k]);
                        k += 1;
                        assert(out@ =~= before + cs@.subrange(0, k as int));
                    }
                    assert(cs@.subrange(0, cs@.len() as int) =~= cs@);
                    assert(out@ + mixed_from(suspected_encoding, bytes@, end as int) =~= before
                        + mixed_from(suspected_encoding, bytes@, i as int));
                    i = end;
                },
                None => {
                    let one = &bytes[i..i + 1];
                    assert(one@ =~= bytes@.subrange(i as int, i + 1));
                    let c = decode_in(suspected_encoding, one);
                    push_str_chars(&mut out, c.text.as_str());
                    assert(out@ + mixed_from(suspected_encoding, bytes@, i + 1) =~= before
                        + mixed_from(suspected_encoding, bytes@, i as int));
                    i += 1;
                },
            }
        } else {
            out.push(bytes[i] as char);
            assert(out@ + mixed_from(suspected_encoding, bytes@, i + 1) =~= before
                + mixed_from(suspected_encoding, bytes@, i as int));
            i += 1;
        }
    }
    assert(out@ + Seq::<char>::empty() =~= out@);
    let text = string_from_chars(out.as_slice());
    Ok(fix_mojibake(text.as_str()))
}

} // verus!
