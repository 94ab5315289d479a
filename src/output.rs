//! Serialization of a document into a target encoding. Field text is
//! re-encoded and its length recomputed in the target's unit (characters for
//! UTF-8, bytes otherwise); everything else is copied byte for byte.

use vstd::prelude::*;
use vstd::utf8::encode_utf8;
use unicode_normalization::UnicodeNormalization;
use crate::adif::{
    document_bytes, field_bytes, fields_bytes, names_encoding, parsed_document, records_bytes, is_encoding_name, AdifFile, Field, Record,
};
use crate::bytes::append_bytes;
use crate::encoding::{
    char_representable, codec_label, decoded_with, display_name, encode_in, encoded_with,
    first_unrepresentable, processed, representable, AdifEncoding, EncodingError,
    EncodingProcessor,
};
use crate::text::{char_from_u32, chars_of, push_char, string_from_chars};

verus! {

#[derive(Debug)]
pub enum OutputError {
    Encoding(EncodingError),
    /// A character of the named field has no representation in the target
    /// encoding, and strict mode forbids substituting it.
    StrictModeViolation { field: String, character: char },
}

pub struct OutputFormatter {
    pub processor: EncodingProcessor,
    pub output_encoding: AdifEncoding,
    pub replacement_char: Option<char>,
    pub delete_incompatible: bool,
    pub transliterate_ascii: bool,
}

/// What unicode-normalization's `nfd` yields: the canonical decomposition.
pub uninterp spec fn nfd_of(s: Seq<char>) -> Seq<char>;

/// What `unicode_normalization::char::is_combining_mark` returns.
pub uninterp spec fn combining_mark(c: char) -> bool;

/// Relies on `UnicodeNormalization::nfd` from unicode-normalization.
#[verifier::external_body]
fn decompose(s: &str) -> (r: Vec<char>)
    ensures
        r@ == nfd_of(s@),
{
    s.nfd().collect()
}

/// Relies on `unicode_normalization::char::is_combining_mark`.
#[verifier::external_body]
fn is_combining(c: char) -> (r: bool)
    ensures
        r == combining_mark(c),
{
    unicode_normalization::char::is_combining_mark(c)
}

/// Decimal digits of a number, most significant first.
pub open spec fn decimal(n: nat) -> Seq<u8>
    decreases n,
{
    if n < 10 {
        seq![(0x30 + n) as u8]
    } else {
        decimal(n / 10).push((0x30 + n % 10) as u8)
    }
}

/// Upper-case hex digits of a number, most significant first.
pub open spec fn hex_upper(n: nat) -> Seq<char>
    decreases n,
{
    let d = n % 16;
    let c = if d < 10 {
        (0x30 + d) as char
    } else {
        (0x41 + d - 10) as char
    };
    if n < 16 {
        seq![c]
    } else {
        hex_upper(n / 16).push(c)
    }
}

/// The ASCII stand-in for a character left after stripping marks.
pub open spec fn translit_char(c: char, repl: char) -> char {
    if c as u32 <= 0x7F {
        c
    } else if c == '\u{E6}' || c == '\u{1FD}' {
        'a'
    } else if c == '\u{F0}' {
        'd'
    } else if c == '\u{F8}' {
        'o'
    } else if c == '\u{FE}' {
        'p'
    } else if c == '\u{DF}' {
        's'
    } else {
        repl
    }
}

pub open spec fn strip_marks(cs: Seq<char>, repl: char) -> Seq<char>
    decreases cs.len(),
{
    if cs.len() == 0 {
        seq![]
    } else {
        let r = strip_marks(cs.drop_last(), repl);
        if combining_mark(cs.last()) {
            r
        } else {
            r.push(translit_char(cs.last(), repl))
        }
    }
}

/// Decomposed, combining marks dropped, other non-ASCII characters mapped
/// to ASCII or to the replacement.
pub open spec fn transliterated(cs: Seq<char>, repl: char) -> Seq<char> {
    strip_marks(nfd_of(cs), repl)
}

pub open spec fn replacement_of(f: OutputFormatter) -> char {
    match f.replacement_char {
        Some(c) => c,
        None => '?',
    }
}

/// The format's hex reference for a character, `&0x20AC;`.
pub open spec fn entity_reference(c: char) -> Seq<char> {
    seq!['&', '0', 'x'] + hex_upper(c as u32 as nat) + seq![';']
}

/// Unrepresentable characters deleted, replaced by the configured character,
/// or, with none configured, escaped as hex references; `None` in strict
/// mode when there is one.
pub open spec fn substituted(f: OutputFormatter, cs: Seq<char>) -> Option<Seq<char>>
    decreases cs.len(),
{
    if cs.len() == 0 {
        Some(seq![])
    } else {
        match substituted(f, cs.drop_last()) {
            Some(r) => if representable(f.output_encoding, cs.last()) {
                Some(r.push(cs.last()))
            } else if f.processor.strict_mode {
                None
            } else if f.delete_incompatible {
                Some(r)
            } else {
                match f.replacement_char {
                    Some(c) => Some(r.push(c)),
                    None => Some(r + entity_reference(cs.last())),
                }
            },
            None => None,
        }
    }
}

/// The text after transliteration, when asked for.
pub open spec fn before_substitution(f: OutputFormatter, t: Seq<char>) -> Seq<char> {
    if f.transliterate_ascii {
        transliterated(t, replacement_of(f))
    } else {
        t
    }
}

/// The error `e` is what writing field `fd` fails with: a malformed input
/// in strict mode, or, in strict mode, the first character of its text
/// that the target cannot represent, reported with the field's name.
pub open spec fn field_fault(f: OutputFormatter, fd: Field, header: bool, e: OutputError) -> bool {
    &&& !(header && names_encoding(fd.name@))
    &&& match e {
        OutputError::Encoding(_) => processed(f.processor, fd.original_bytes@) is None,
        OutputError::StrictModeViolation { field, character } => {
            &&& field@ == fd.name@
            &&& f.processor.strict_mode
            &&& match processed(f.processor, fd.original_bytes@) {
                Some(t) => transformed(f, t) is None && first_unrepresentable(
                    f.output_encoding,
                    before_substitution(f, t),
                    0,
                ) == Some(character),
                None => false,
            }
        },
    }
}

/// The output transformations: transliteration when asked for, then
/// substitution unless the target is UTF-8.
pub open spec fn transformed(f: OutputFormatter, t: Seq<char>) -> Option<Seq<char>> {
    let t1 = before_substitution(f, t);
    if f.output_encoding == AdifEncoding::Utf8 {
        Some(t1)
    } else {
        substituted(f, t1)
    }
}

pub open spec fn type_suffix(ty: Option<String>) -> Seq<u8> {
    match ty {
        Some(t) => seq![0x3Au8] + encode_utf8(t@),
        None => seq![],
    }
}

/// A field tag with the given name, length and type.
pub open spec fn tag_bytes(name: Seq<char>, n: nat, ty: Option<String>) -> Seq<u8> {
    seq![0x3Cu8] + encode_utf8(name) + seq![0x3Au8] + decimal(n) + type_suffix(ty) + seq![0x3Eu8]
}

/// The length written for a text: characters for UTF-8, bytes otherwise.
pub open spec fn written_length(e: AdifEncoding, t: Seq<char>) -> nat {
    if e == AdifEncoding::Utf8 {
        t.len()
    } else {
        encoded_with(codec_label(e), t).0.len()
    }
}

/// A field written with the given text, its trailing bytes kept.
pub open spec fn field_with_text(e: AdifEncoding, f: Field, t: Seq<char>) -> Seq<u8> {
    tag_bytes(f.name@, written_length(e, t), f.field_type) + encoded_with(codec_label(e), t).0
        + f.excess_data@
}

/// The text written for a field: the output encoding's name for a header
/// field named `encoding`, else the processed and transformed data.
pub open spec fn field_text(f: OutputFormatter, fd: Field, header: bool) -> Option<Seq<char>> {
    if header && names_encoding(fd.name@) {
        Some(display_name(f.output_encoding))
    } else {
        match processed(f.processor, fd.original_bytes@) {
            Some(t) => transformed(f, t),
            None => None,
        }
    }
}

pub open spec fn rendered_field(f: OutputFormatter, fd: Field, header: bool) -> Option<Seq<u8>> {
    match field_text(f, fd, header) {
        Some(t) => Some(field_with_text(f.output_encoding, fd, t)),
        None => None,
    }
}

pub open spec fn rendered_fields(f: OutputFormatter, fs: Seq<Field>, header: bool) -> Option<
    Seq<u8>,
>
    decreases fs.len(),
{
    if fs.len() == 0 {
        Some(seq![])
    } else {
        match (rendered_fields(f, fs.drop_last(), header), rendered_field(f, fs.last(), header)) {
            (Some(a), Some(b)) => Some(a + b),
            _ => None,
        }
    }
}

pub open spec fn rendered_record(f: OutputFormatter, r: Record) -> Option<Seq<u8>> {
    match rendered_fields(f, r.fields@, false) {
        Some(a) => Some(a + r.end_tag@ + r.excess_data@),
        None => None,
    }
}

pub open spec fn rendered_records(f: OutputFormatter, rs: Seq<Record>) -> Option<Seq<u8>>
    decreases rs.len(),
{
    if rs.len() == 0 {
        Some(seq![])
    } else {
        match (rendered_records(f, rs.drop_last()), rendered_record(f, rs.last())) {
            (Some(a), Some(b)) => Some(a + b),
            _ => None,
        }
    }
}

pub open spec fn has_encoding_field(fs: Seq<Field>) -> bool {
    exists|i: int| 0 <= i < fs.len() && names_encoding(#[trigger] fs[i].name@)
}

/// The `encoding` field added to a header that has fields but none naming
/// the encoding.
pub open spec fn inserted_encoding(f: OutputFormatter, d: AdifFile) -> Seq<u8> {
    if d.header_fields@.len() > 0 && !has_encoding_field(d.header_fields@) {
        let t = display_name(f.output_encoding);
        tag_bytes("encoding"@, written_length(f.output_encoding, t), None) + encoded_with(
            codec_label(f.output_encoding),
            t,
        ).0 + seq![0x0Du8, 0x0Au8]
    } else {
        seq![]
    }
}

/// The bytes of a document in the formatter's target encoding, or `None`
/// when a field cannot be written.
pub open spec fn rendered_document(f: OutputFormatter, d: AdifFile) -> Option<Seq<u8>> {
    match (rendered_fields(f, d.header_fields@, true), rendered_records(f, d.records@)) {
        (Some(h), Some(r)) => Some(
            d.preamble@ + h + inserted_encoding(f, d) + d.header_end@ + d.header_excess_data@ + r,
        ),
        _ => None,
    }
}

/// Appends the decimal digits of `n`.
pub fn push_decimal(out: &mut Vec<u8>, n: usize)
    ensures
        final(out)@ == old(out)@ + decimal(n as nat),
    decreases n,
{
    if n >= 10 {
        push_decimal(out, n / 10);
    }
    out.push((0x30 + n % 10) as u8);
    assert(final(out)@ =~= old(out)@ + decimal(n as nat)) by {
        if n >= 10 {
            assert(decimal(n as nat) == decimal((n / 10) as nat).push((0x30 + n % 10) as u8));
        }
    }
}

fn push_hex(s: &mut String, n: u32)
    ensures
        final(s)@ == old(s)@ + hex_upper(n as nat),
    decreases n,
{
    if n >= 16 {
        push_hex(s, n / 16);
    }
    let d = n % 16;
    let v = if d < 10 {
        0x30 + d
    } else {
        0x41 + d - 10
    };
    match char_from_u32(v) {
        Some(c) => push_char(s, c),
        None => {},
    }
    assert(final(s)@ =~= old(s)@ + hex_upper(n as nat));
}

/// Appends the bytes of a string's UTF-8 encoding.
fn push_str_bytes(out: &mut Vec<u8>, s: &str)
    ensures
        final(out)@ == old(out)@ + encode_utf8(s@),
{
    append_bytes(out, s.as_bytes());
}

fn push_tag(out: &mut Vec<u8>, name: &str, n: usize, ty: &Option<String>)
    ensures
        final(out)@ == old(out)@ + tag_bytes(name@, n as nat, *ty),
{
    out.push(0x3C);
    push_str_bytes(out, name);
    out.push(0x3A);
    push_decimal(out, n);
    match ty {
        Some(t) => {
            out.push(0x3A);
            push_str_bytes(out, t.as_str());
        },
        None => {},
    }
    out.push(0x3E);
    assert(final(out)@ =~= old(out)@ + tag_bytes(name@, n as nat, *ty));
}

impl OutputFormatter {
    pub fn new(
        input_encoding: Option<AdifEncoding>,
        output_encoding: AdifEncoding,
        strict_mode: bool,
        replacement_char: Option<char>,
        delete_incompatible: bool,
        transliterate_ascii: bool,
    ) -> (r: Self)
        ensures
            r.processor.input_encoding == input_encoding,
            r.processor.output_encoding == output_encoding,
            r.processor.strict_mode == strict_mode,
            r.output_encoding == output_encoding,
            r.replacement_char == replacement_char,
            r.delete_incompatible == delete_incompatible,
            r.transliterate_ascii == transliterate_ascii,
    {
        OutputFormatter {
            processor: EncodingProcessor::new(input_encoding, output_encoding, strict_mode),
            output_encoding,
            replacement_char,
            delete_incompatible,
            transliterate_ascii,
        }
    }

    /// A character written as the format's hex reference, `&0x20AC;`.
    pub fn format_as_entity_reference(c: char) -> (r: String)
        ensures
            r@ == entity_reference(c),
    {
        let mut s = String::new();
        push_char(&mut s, '&');
        push_char(&mut s, '0');
        push_char(&mut s, 'x');
        push_hex(&mut s, c as u32);
        push_char(&mut s, ';');
        assert(s@ =~= seq!['&', '0', 'x'] + hex_upper(c as u32 as nat) + seq![';']);
        s
    }

    fn replacement(&self) -> (r: char)
        ensures
            r == replacement_of(*self),
    {
        match self.replacement_char {
            Some(c) => c,
            None => '?',
        }
    }

    /// Decomposes the text, drops combining marks and maps what is left to
    /// ASCII.
    pub fn transliterate_to_ascii(&self, text: &str) -> (r: String)
        ensures
            r@ == transliterated(text@, replacement_of(*self)),
    {
        let cs = decompose(text);
        let repl = self.replacement();
        let mut out: Vec<char> = Vec::new();
        let mut i: usize = 0;
        while i < cs.len()
            invariant
                i <= cs@.len(),
                out@ == strip_marks(cs@.subrange(0, i as int), repl),
            decreases cs@.len() - i,
        {
            let c = cs[i];
            assert(cs@.subrange(0, i + 1 as int).drop_last() =~= cs@.subrange(0, i as int));
            if !is_combining(c) {
                let m = if (c as u32) <= 0x7F {
                    c
                } else if c == '\u{E6}' || c == '\u{1FD}' {
                    'a'
                } else if c == '\u{F0}' {
                    'd'
                } else if c == '\u{F8}' {
                    'o'
                } else if c == '\u{FE}' {
                    'p'
                } else if c == '\u{DF}' {
                    's'
                } else {
                    repl
                };
                out.push(m);
            }
            i += 1;
        }
        assert(cs@.subrange(0, cs@.len() as int) =~= cs@);
        string_from_chars(out.as_slice())
    }

    fn is_representable(&self, c: char) -> (r: bool)
        ensures
            r == representable(self.output_encoding, c),
    {
        char_representable(self.output_encoding, c)
    }

    /// Deletes or replaces the characters the target cannot represent; in
    /// strict mode the first of them is an error naming the field.
    pub fn handle_incompatible_characters(&self, text: &str, field: &str) -> (r: Result<String, OutputError>)
        ensures
            match substituted(*self, text@) {
                Some(t) => r is Ok && r->Ok_0@ == t,
                None => r is Err && r->Err_0 is StrictModeViolation,
            },
            r is Err ==> self.processor.strict_mode,
            r matches Err(OutputError::StrictModeViolation { field: n, character: c }) ==> n@
                == field@ && first_unrepresentable(self.output_encoding, text@, 0) == Some(c),
    {
        let cs = chars_of(text);
        let repl = self.replacement();
        let mut out: Vec<char> = Vec::new();
        let mut i: usize = 0;
        while i < cs.len()
            invariant
                cs@ == text@,
                i <= cs@.len(),
                substituted(*self, cs@.subrange(0, i as int)) == Some(out@),
                repl == replacement_of(*self),
                self.processor.strict_mode ==> first_unrepresentable(self.output_encoding, cs@, 0)
                    == first_unrepresentable(self.output_encoding, cs@, i as int),
            decreases cs@.len() - i,
        {
            let c = cs[i];
            assert(cs@.subrange(0, i + 1 as int).drop_last() =~= cs@.subrange(0, i as int));
            if self.is_representable(c) {
                out.push(c);
            } else if self.processor.strict_mode {
                proof {
                    lemma_substituted_none(*self, cs@, i as int + 1);
                }
                assert(cs@.subrange(0, cs@.len() as int) =~= cs@);
                return Err(OutputError::StrictModeViolation { field: field.to_owned(), character: c });
            } else if !self.delete_incompatible {
                match self.replacement_char {
                    Some(rc) => out.push(rc),
                    None => {
                        let esc = Self::format_as_entity_reference(c);
                        let ec = chars_of(esc.as_str());
                        let ghost before = out@;
                        let mut k: usize = 0;
                        while k < ec.len()
                            invariant
                                k <= ec@.len(),
                                out@ == before + ec@.subrange(0, k as int),
                            decreases ec@.len() - k,
                        {
                            out.push(ec[k]);
                            k += 1;
                            assert(out@ =~= before + ec@.subrange(0, k as int));
                        }
                        assert(ec@.subrange(0, ec@.len() as int) =~= ec@);
                    },
                }
            }
            i += 1;
        }
        assert(cs@.subrange(0, cs@.len() as int) =~= cs@);
        Ok(string_from_chars(out.as_slice()))
    }

    /// Transliteration when asked for, then substitution unless the target
    /// is UTF-8.
    pub fn apply_output_transformations(&self, text: &str, field: &str) -> (r: Result<String, OutputError>)
        ensures
            match transformed(*self, text@) {
                Some(t) => r is Ok && r->Ok_0@ == t,
                None => r is Err && r->Err_0 is StrictModeViolation,
            },
            r is Err ==> self.processor.strict_mode,
            r matches Err(OutputError::StrictModeViolation { field: n, character: c }) ==> n@
                == field@ && first_unrepresentable(
                self.output_encoding,
                before_substitution(*self, text@),
                0,
            ) == Some(c),
    {
        let t = if self.transliterate_ascii {
            self.transliterate_to_ascii(text)
        } else {
            text.to_owned()
        };
        if self.output_encoding == AdifEncoding::Utf8 {
            return Ok(t);
        }
        self.handle_incompatible_characters(t.as_str(), field)
    }

    /// Writes a field with the given text in the target encoding.
    fn write_with_text(&self, out: &mut Vec<u8>, fd: &Field, text: &str)
        ensures
            final(out)@ == old(out)@ + field_with_text(self.output_encoding, *fd, text@),
    {
        let enc = encode_in(self.output_encoding, text);
        let n = if self.output_encoding == AdifEncoding::Utf8 {
            chars_of(text).len()
        } else {
            enc.bytes.len()
        };
        push_tag(out, fd.name.as_str(), n, &fd.field_type);
        append_bytes(out, enc.bytes.as_slice());
        append_bytes(out, fd.excess_data.as_slice());
        assert(final(out)@ =~= old(out)@ + field_with_text(self.output_encoding, *fd, text@));
    }

    /// Writes one field: re-decoded, repaired, transformed and re-encoded.
    pub fn write_field(&self, out: &mut Vec<u8>, fd: &Field, header: bool) -> (r: Result<(), OutputError>)
        ensures
            match rendered_field(*self, *fd, header) {
                Some(b) => r is Ok && final(out)@ == old(out)@ + b,
                None => r is Err,
            },
            r is Err ==> field_fault(*self, *fd, header, r->Err_0),
    {
        if header && is_encoding_name(&fd.name) {
            let name = self.output_encoding.to_string();
            self.write_with_text(out, fd, name);
            return Ok(());
        }
        let t = match self.processor.process_field_data(fd.original_bytes.as_slice()) {
            Ok(t) => t,
            Err(e) => {
                return Err(OutputError::Encoding(e));
            },
        };
        let t = match self.apply_output_transformations(t.as_str(), fd.name.as_str()) {
            Ok(t) => t,
            Err(e) => {
                return Err(e);
            },
        };
        self.write_with_text(out, fd, t.as_str());
        Ok(())
    }

    #[verifier::spinoff_prover]
    fn write_fields(&self, out: &mut Vec<u8>, fs: &Vec<Field>, header: bool) -> (r: Result<(), OutputError>)
        ensures
            match rendered_fields(*self, fs@, header) {
                Some(b) => r is Ok && final(out)@ == old(out)@ + b,
                None => r is Err,
            },
            r is Err ==> exists|i: int|
                0 <= i < fs@.len() && field_fault(*self, #[trigger] fs@[i], header, r->Err_0),
    {
        let mut i: usize = 0;
        while i < fs.len()
            invariant
                i <= fs@.len(),
                rendered_fields(*self, fs@.subrange(0, i as int), header) == Some(
                    out@.subrange(old(out)@.len() as int, out@.len() as int),
                ),
                out@.len() >= old(out)@.len(),
                out@.subrange(0, old(out)@.len() as int) == old(out)@,
            decreases fs@.len() - i,
        {
            let ghost before = out@;
            assert(fs@.subrange(0, i + 1 as int).drop_last() =~= fs@.subrange(0, i as int));
            match self.write_field(out, &fs[i], header) {
                Ok(()) => {},
                Err(e) => {
                    assert(field_fault(*self, fs@[i as int], header, e));
                    proof {
                        lemma_fields_none(*self, fs@, i as int + 1, header);
                    }
                    assert(fs@.subrange(0, fs@.len() as int) =~= fs@);
                    return Err(e);
                },
            }
            assert(out@.subrange(old(out)@.len() as int, out@.len() as int) =~= before.subrange(
                old(out)@.len() as int,
                before.len() as int,
            ) + out@.subrange(before.len() as int, out@.len() as int));
            assert(out@.subrange(0, old(out)@.len() as int) =~= before.subrange(0, old(out)@.len() as int));
            i += 1;
        }
        assert(fs@.subrange(0, fs@.len() as int) =~= fs@);
        assert(out@ =~= old(out)@ + out@.subrange(old(out)@.len() as int, out@.len() as int));
        Ok(())
    }

    /// Writes a record: its fields, then its sentinel and trailing bytes as
    /// they were.
    pub fn write_record(&self, out: &mut Vec<u8>, rec: &Record) -> (r: Result<(), OutputError>)
        ensures
            match rendered_record(*self, *rec) {
                Some(b) => r is Ok && final(out)@ == old(out)@ + b,
                None => r is Err,
            },
            r is Err ==> exists|j: int|
                0 <= j < rec.fields@.len() && field_fault(*self, #[trigger] rec.fields@[j], false, r->Err_0),
    {
        match self.write_fields(out, &rec.fields, false) {
            Ok(()) => {},
            Err(e) => {
                return Err(e);
            },
        }
        append_bytes(out, rec.end_tag.as_slice());
        append_bytes(out, rec.excess_data.as_slice());
        assert(final(out)@ =~= old(out)@ + rendered_record(*self, *rec)->0);
        Ok(())
    }

    fn header_names_encoding(fs: &Vec<Field>) -> (r: bool)
        ensures
            r == has_encoding_field(fs@),
    {
        let mut i: usize = 0;
        while i < fs.len()
            invariant
                i <= fs@.len(),
                forall|k: int| 0 <= k < i ==> !names_encoding(#[trigger] fs@[k].name@),
            decreases fs@.len() - i,
        {
            if is_encoding_name(&fs[i].name) {
                return true;
            }
            i += 1;
        }
        false
    }

    /// Writes the `encoding` field added to a header that lacks one.
    pub fn write_encoding_field(&self, out: &mut Vec<u8>)
        ensures
            final(out)@ == old(out)@ + tag_bytes(
                "encoding"@,
                written_length(self.output_encoding, display_name(self.output_encoding)),
                None,
            ) + encoded_with(codec_label(self.output_encoding), display_name(self.output_encoding)).0
                + seq![0x0Du8, 0x0Au8],
    {
        let name = self.output_encoding.to_string();
        let enc = encode_in(self.output_encoding, name);
        let n = if self.output_encoding == AdifEncoding::Utf8 {
            chars_of(name).len()
        } else {
            enc.bytes.len()
        };
        let none: Option<String> = None;
        push_tag(out, "encoding", n, &none);
        append_bytes(out, enc.bytes.as_slice());
        out.push(0x0D);
        out.push(0x0A);
        assert(final(out)@ =~= old(out)@ + tag_bytes(
            "encoding"@,
            written_length(self.output_encoding, display_name(self.output_encoding)),
            None,
        ) + encoded_with(codec_label(self.output_encoding), display_name(self.output_encoding)).0
            + seq![0x0Du8, 0x0Au8]);
    }

    /// Serializes a document in the target encoding.
    #[verifier::rlimit(80)]
    #[verifier::spinoff_prover]
    pub fn format_adif(&self, adif: &AdifFile) -> (r: Result<Vec<u8>, OutputError>)
        ensures
            match rendered_document(*self, *adif) {
                Some(b) => r is Ok && r->Ok_0@ == b,
                None => r is Err,
            },
            r is Err ==> (exists|i: int|
                0 <= i < adif.header_fields@.len() && field_fault(
                    *self,
                    #[trigger] adif.header_fields@[i],
                    true,
                    r->Err_0,
                )) || (exists|i: int, j: int|
                0 <= i < adif.records@.len() && 0 <= j < adif.records@[i].fields@.len()
                    && field_fault(*self, #[trigger] adif.records@[i].fields@[j], false, r->Err_0)),
    {
        let mut out: Vec<u8> = Vec::new();
        append_bytes(&mut out, adif.preamble.as_slice());
        match self.write_fields(&mut out, &adif.header_fields, true) {
            Ok(()) => {},
            Err(e) => {
                return Err(e);
            },
        }
        if adif.header_fields.len() > 0 && !Self::header_names_encoding(&adif.header_fields) {
            self.write_encoding_field(&mut out);
        }
        append_bytes(&mut out, adif.header_end.as_slice());
        append_bytes(&mut out, adif.header_excess_data.as_slice());
        let mut i: usize = 0;
        let ghost base = out@;
        while i < adif.records.len()
            invariant
                i <= adif.records@.len(),
                rendered_records(*self, adif.records@.subrange(0, i as int)) == Some(
                    out@.subrange(base.len() as int, out@.len() as int),
                ),
                out@.len() >= base.len(),
                out@.subrange(0, base.len() as int) == base,
            decreases adif.records@.len() - i,
        {
            let ghost before = out@;
            assert(adif.records@.subrange(0, i + 1 as int).drop_last() =~= adif.records@.subrange(
                0,
                i as int,
            ));
            match self.write_record(&mut out, &adif.records[i]) {
                Ok(()) => {},
                Err(e) => {
                    assert(adif.records@[i as int] == adif.records[i as int]);
                    proof {
                        lemma_records_none(*self, adif.records@, i as int + 1);
                    }
                    assert(adif.records@.subrange(0, adif.records@.len() as int) =~= adif.records@);
                    return Err(e);
                },
            }
            assert(out@.subrange(base.len() as int, out@.len() as int) =~= before.subrange(
                base.len() as int,
                before.len() as int,
            ) + out@.subrange(before.len() as int, out@.len() as int));
            assert(out@.subrange(0, base.len() as int) =~= before.subrange(0, base.len() as int));
            i += 1;
        }
        assert(adif.records@.subrange(0, adif.records@.len() as int) =~= adif.records@);
        assert(out@ =~= base + out@.subrange(base.len() as int, out@.len() as int));
        Ok(out)
    }
}

proof fn lemma_substituted_none(f: OutputFormatter, cs: Seq<char>, k: int)
    requires
        0 < k <= cs.len(),
        substituted(f, cs.subrange(0, k)) is None,
    ensures
        substituted(f, cs) is None,
    decreases cs.len() - k,
{
    if k < cs.len() {
        assert(cs.subrange(0, k + 1).drop_last() =~= cs.subrange(0, k));
        lemma_substituted_none(f, cs, k + 1);
    } else {
        assert(cs.subrange(0, k) =~= cs);
    }
}

proof fn lemma_fields_none(f: OutputFormatter, fs: Seq<Field>, k: int, header: bool)
    requires
        0 < k <= fs.len(),
        rendered_fields(f, fs.subrange(0, k), header) is None,
    ensures
        rendered_fields(f, fs, header) is None,
    decreases fs.len() - k,
{
    if k < fs.len() {
        assert(fs.subrange(0, k + 1).drop_last() =~= fs.subrange(0, k));
        lemma_fields_none(f, fs, k + 1, header);
    } else {
        assert(fs.subrange(0, k) =~= fs);
    }
}

proof fn lemma_records_none(f: OutputFormatter, rs: Seq<Record>, k: int)
    requires
        0 < k <= rs.len(),
        rendered_records(f, rs.subrange(0, k)) is None,
    ensures
        rendered_records(f, rs) is None,
    decreases rs.len() - k,
{
    if k < rs.len() {
        assert(rs.subrange(0, k + 1).drop_last() =~= rs.subrange(0, k));
        lemma_records_none(f, rs, k + 1);
    } else {
        assert(rs.subrange(0, k) =~= rs);
    }
}

/// A formatter that writes `e` back without touching the text: strict mode,
/// input read as `e`, no transliteration.
pub open spec fn plain_formatter(f: OutputFormatter, e: AdifEncoding) -> bool {
    &&& f.output_encoding == e
    &&& f.processor.input_encoding == Some(e)
    &&& f.processor.strict_mode
    &&& !f.transliterate_ascii
}

/// A field whose text, written in `e`, gives back exactly its tag and bytes:
/// the bytes decode without error to a text that encodes back to them, every
/// character of which `e` represents, and the tag is written with the length
/// in `e`'s unit. A header field named `encoding` must already hold the name
/// of `e` in that way.
pub open spec fn field_reencodes(e: AdifEncoding, fd: Field, header: bool) -> bool {
    let t = plain_text(e, fd, header);
    &&& (header && names_encoding(fd.name@)) || !decoded_with(codec_label(e), fd.original_bytes@).1
    &&& encoded_with(codec_label(e), t).0 == fd.original_bytes@
    &&& (e == AdifEncoding::Utf8 || all_representable(e, t))
    &&& fd.tag@ == tag_bytes(fd.name@, written_length(e, t), fd.field_type)
}

/// The text a strict formatter writes for a field read in `e`.
pub open spec fn plain_text(e: AdifEncoding, fd: Field, header: bool) -> Seq<char> {
    if header && names_encoding(fd.name@) {
        display_name(e)
    } else {
        decoded_with(codec_label(e), fd.original_bytes@).0
    }
}

pub open spec fn all_representable(e: AdifEncoding, t: Seq<char>) -> bool {
    forall|i: int| 0 <= i < t.len() ==> representable(e, #[trigger] t[i])
}

proof fn lemma_all_representable(f: OutputFormatter, t: Seq<char>)
    requires
        forall|i: int| 0 <= i < t.len() ==> representable(f.output_encoding, #[trigger] t[i]),
    ensures
        substituted(f, t) == Some(t),
    decreases t.len(),
{
    if t.len() > 0 {
        let p = t.drop_last();
        assert forall|i: int| 0 <= i < p.len() implies representable(f.output_encoding, #[trigger] p[i]) by {
            assert(p[i] == t[i]);
        }
        lemma_all_representable(f, p);
        assert(t.len() - 1 >= 0 && representable(f.output_encoding, t[t.len() - 1]));
        assert(p.push(t.last()) =~= t);
    }
}

proof fn lemma_field_reencodes(f: OutputFormatter, e: AdifEncoding, fd: Field, header: bool)
    requires
        plain_formatter(f, e),
        field_reencodes(e, fd, header),
    ensures
        rendered_field(f, fd, header) == Some(field_bytes(fd)),
{
    if !(header && names_encoding(fd.name@)) {
        let t = decoded_with(codec_label(e), fd.original_bytes@).0;
        assert(processed(f.processor, fd.original_bytes@) == Some(t));
        if e != AdifEncoding::Utf8 {
            assert(t == plain_text(e, fd, header));
            assert(all_representable(e, t));
            assert(f.output_encoding == e);
            lemma_all_representable(f, t);
        }
        assert(field_text(f, fd, header) == Some(t));
    }
}

proof fn lemma_fields_reencode(f: OutputFormatter, e: AdifEncoding, fs: Seq<Field>, header: bool)
    requires
        plain_formatter(f, e),
        forall|i: int| 0 <= i < fs.len() ==> field_reencodes(e, #[trigger] fs[i], header),
    ensures
        rendered_fields(f, fs, header) == Some(fields_bytes(fs)),
    decreases fs.len(),
{
    if fs.len() > 0 {
        let p = fs.drop_last();
        assert forall|i: int| 0 <= i < p.len() implies field_reencodes(e, #[trigger] p[i], header) by {
            assert(p[i] == fs[i]);
        }
        lemma_fields_reencode(f, e, p, header);
        lemma_field_reencodes(f, e, fs[fs.len() - 1], header);
    }
}

proof fn lemma_records_reencode(f: OutputFormatter, e: AdifEncoding, rs: Seq<Record>)
    requires
        plain_formatter(f, e),
        forall|i: int, j: int|
            0 <= i < rs.len() && 0 <= j < rs[i].fields@.len() ==> field_reencodes(
                e,
                #[trigger] rs[i].fields@[j],
                false,
            ),
    ensures
        rendered_records(f, rs) == Some(records_bytes(rs)),
    decreases rs.len(),
{
    if rs.len() > 0 {
        let p = rs.drop_last();
        assert forall|i: int, j: int|
            0 <= i < p.len() && 0 <= j < p[i].fields@.len() implies field_reencodes(
            e,
            #[trigger] p[i].fields@[j],
            false,
        ) by {
            assert(p[i] == rs[i]);
        }
        lemma_records_reencode(f, e, p);
        let last = rs[rs.len() - 1];
        assert forall|j: int| 0 <= j < last.fields@.len() implies field_reencodes(
            e,
            #[trigger] last.fields@[j],
            false,
        ) by {
            assert(rs[rs.len() - 1].fields@[j] == last.fields@[j]);
        }
        lemma_fields_reencode(f, e, last.fields@, false);
    }
}

/// Round trip: parsing a buffer and writing the document back in the
/// encoding it was read in, in strict mode, gives the buffer back byte for
/// byte, whenever each field's bytes decode cleanly and encode back to
/// themselves with the tag written in that encoding's length unit, and a
/// header with fields already names that encoding.
pub proof fn lemma_round_trip(b: Seq<u8>, d: AdifFile, f: OutputFormatter, e: AdifEncoding)
    requires
        parsed_document(b, d),
        plain_formatter(f, e),
        forall|i: int|
            0 <= i < d.header_fields@.len() ==> field_reencodes(e, #[trigger] d.header_fields@[i], true),
        forall|i: int, j: int|
            0 <= i < d.records@.len() && 0 <= j < d.records@[i].fields@.len() ==> field_reencodes(
                e,
                #[trigger] d.records@[i].fields@[j],
                false,
            ),
        d.header_fields@.len() == 0 || has_encoding_field(d.header_fields@),
    ensures
        rendered_document(f, d) == Some(b),
{
    lemma_fields_reencode(f, e, d.header_fields@, true);
    lemma_records_reencode(f, e, d.records@);
    assert(inserted_encoding(f, d) =~= Seq::<u8>::empty());
    assert(document_bytes(d) =~= d.preamble@ + fields_bytes(d.header_fields@) + inserted_encoding(f, d)
        + d.header_end@ + d.header_excess_data@ + records_bytes(d.records@));
}

} // verus!
