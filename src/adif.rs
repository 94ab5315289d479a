//! The document model and the parser that builds it from raw bytes.
//!
//! Every byte of the input lands in exactly one piece of the document
//! (preamble, tag, field data, trailing text, sentinel), so concatenating
//! the pieces gives the input back.

use vstd::prelude::*;
use crate::bytes::{
    ascii_chars, ascii_string, copy_range, count_non_space, digits_value, non_space_count,
    parse_digits,
};
use crate::text::{chars_of, char_span, push_char, char_walk, lemma_span_prefix, lenient_chars, lenient_decode};
use crate::tokenizer::{
    close_at, digit_run, eoh_at, eor_at, field_at, has_type, ident_run, is_at_eoh, is_at_eor,
    is_at_field, length_end, name_end, scan_text, stops_at, tag_end, text_end, TextStop,
};

verus! {

#[derive(Debug)]
pub enum AdifError {
    InvalidField(String),
    EncodingError(String),
    ParseError(String),
}

/// The unit that a field's declared length was found to count.
#[derive(Debug, Clone, Copy, PartialEq, Eq, Structural)]
pub enum FieldCountMode {
    Bytes,
    Characters,
}

#[derive(Debug)]
pub struct Field {
    /// The name as written.
    pub name: String,
    /// The declared length as written.
    pub length: usize,
    pub field_type: Option<String>,
    /// The data decoded leniently as UTF-8.
    pub data: String,
    /// Bytes between the data and the next token, verbatim.
    pub excess_data: Vec<u8>,
    /// The data bytes, verbatim.
    pub original_bytes: Vec<u8>,
    /// The tag (`<name:length>` or `<name:length:type>`), verbatim.
    pub tag: Vec<u8>,
    /// The unit in which `length` was found to count the data.
    pub count_mode: FieldCountMode,
}

#[derive(Debug)]
pub struct Record {
    pub fields: Vec<Field>,
    /// The `<eor>` sentinel as written; empty when the input ended first.
    pub end_tag: Vec<u8>,
    /// Bytes between the end of the record and the next field, verbatim.
    pub excess_data: Vec<u8>,
}

#[derive(Debug)]
pub struct AdifFile {
    /// Bytes before the first field or header sentinel, verbatim.
    pub preamble: Vec<u8>,
    pub header_fields: Vec<Field>,
    /// The `<eoh>` sentinel as written; empty when the file has no header.
    pub header_end: Vec<u8>,
    /// Bytes between `<eoh>` and the first record, verbatim.
    pub header_excess_data: Vec<u8>,
    pub records: Vec<Record>,
    /// The data of the first header field named `encoding`, if any.
    pub encoding: Option<String>,
}

pub open spec fn field_bytes(f: Field) -> Seq<u8> {
    f.tag@ + f.original_bytes@ + f.excess_data@
}

pub open spec fn fields_bytes(fs: Seq<Field>) -> Seq<u8>
    decreases fs.len(),
{
    if fs.len() == 0 {
        seq![]
    } else {
        fields_bytes(fs.drop_last()) + field_bytes(fs.last())
    }
}

pub open spec fn record_bytes(r: Record) -> Seq<u8> {
    fields_bytes(r.fields@) + r.end_tag@ + r.excess_data@
}

pub open spec fn records_bytes(rs: Seq<Record>) -> Seq<u8>
    decreases rs.len(),
{
    if rs.len() == 0 {
        seq![]
    } else {
        records_bytes(rs.drop_last()) + record_bytes(rs.last())
    }
}

/// The bytes a document stands for: its pieces in order.
pub open spec fn document_bytes(d: AdifFile) -> Seq<u8> {
    d.preamble@ + fields_bytes(d.header_fields@) + d.header_end@ + d.header_excess_data@
        + records_bytes(d.records@)
}

/// A field's data agrees with its declared length in the unit resolved for
/// it, and its text is the lenient decoding of its bytes.
pub open spec fn field_wf(f: Field) -> bool {
    &&& f.data@ == lenient_chars(f.original_bytes@)
    &&& f.count_mode == FieldCountMode::Bytes ==> f.original_bytes@.len() == f.length
    &&& f.count_mode == FieldCountMode::Characters ==> {
        &&& char_span(f.original_bytes@, f.length as nat) == Some(f.original_bytes@.len() as int)
        &&& f.data@.len() == f.length
    }
}

/// Decimal digits of a number, as characters.
pub open spec fn decimal_text(n: nat) -> Seq<char>
    decreases n,
{
    if n < 10 {
        seq![(0x30 + n) as char]
    } else {
        decimal_text(n / 10).push((0x30 + n % 10) as char)
    }
}

/// The message for a field whose length cannot be read: its name and the
/// offset of its tag.
pub open spec fn field_error(b: Seq<u8>, p: int) -> Seq<char> {
    ascii_chars(b.subrange(p + 1, name_end(b, p))) + " at offset "@ + decimal_text(p as nat)
}

fn push_decimal_text(s: &mut String, n: usize)
    ensures
        final(s)@ == old(s)@ + decimal_text(n as nat),
    decreases n,
{
    if n >= 10 {
        push_decimal_text(s, n / 10);
    }
    push_char(s, (0x30 + (n % 10) as u8) as char);
    assert(final(s)@ =~= old(s)@ + decimal_text(n as nat));
}

fn field_error_text(b: &[u8], p: usize, c: usize) -> (r: String)
    requires
        p + 1 <= c <= b@.len(),
        c as int == name_end(b@, p as int),
    ensures
        r@ == field_error(b@, p as int),
{
    let mut s = ascii_string(b, p + 1, c);
    let tail = " at offset ";
    let tc = chars_of(tail);
    let mut i: usize = 0;
    let ghost start = s@;
    while i < tc.len()
        invariant
            tc@ == tail@,
            i <= tc@.len(),
            s@ == start + tc@.subrange(0, i as int),
        decreases tc@.len() - i,
    {
        push_char(&mut s, tc[i]);
        i += 1;
        assert(s@ =~= start + tc@.subrange(0, i as int));
    }
    assert(tc@.subrange(0, tc@.len() as int) =~= tc@);
    push_decimal_text(&mut s, p);
    s
}

/// The declared length of the tag at `p`.
pub open spec fn declared_length(b: Seq<u8>, p: int) -> nat {
    digits_value(b.subrange(name_end(b, p) + 1, length_end(b, p)))
}

/// The declared length fits a `usize` and that many bytes follow the tag.
pub open spec fn tag_fits(b: Seq<u8>, p: int) -> bool {
    &&& declared_length(b, p) <= usize::MAX
    &&& tag_end(b, p) + declared_length(b, p) <= b.len()
}

/// The length-unit policy. With the data starting at `start` and `n`
/// declared, the byte reading ends at `start + n`. It is replaced by the
/// character reading only when the text after the byte cut holds
/// non-whitespace, the bytes read decode to fewer than `n` characters, `n`
/// characters can be read, and the text after the character cut holds
/// strictly fewer non-whitespace bytes.
pub open spec fn resolve(b: Seq<u8>, start: int, n: nat, stop: TextStop) -> (int, FieldCountMode) {
    let be = start + n;
    let ee = text_end(b, be, stop);
    let noise = non_space_count(b.subrange(be, ee));
    if noise > 0 && lenient_chars(b.subrange(start, be)).len() < n {
        match char_span(b.subrange(start, b.len() as int), n) {
            Some(k) => {
                let ce = start + k;
                if non_space_count(b.subrange(ce, text_end(b, ce, stop))) < noise {
                    (ce, FieldCountMode::Characters)
                } else {
                    (be, FieldCountMode::Bytes)
                }
            },
            None => (be, FieldCountMode::Bytes),
        }
    } else {
        (be, FieldCountMode::Bytes)
    }
}

/// `f` is the field read from the tag at `p`, and reading it (trailing text
/// included) ends at `end`.
pub open spec fn field_parsed(b: Seq<u8>, p: int, stop: TextStop, f: Field, end: int) -> bool {
    let s = tag_end(b, p);
    let n = declared_length(b, p);
    let de = resolve(b, s, n, stop).0;
    &&& f.tag@ == b.subrange(p, s)
    &&& f.name@ == ascii_chars(b.subrange(p + 1, name_end(b, p)))
    &&& f.length == n
    &&& match f.field_type {
        Some(t) => has_type(b, p) && t@ == ascii_chars(
            b.subrange(length_end(b, p) + 1, close_at(b, p)),
        ),
        None => !has_type(b, p),
    }
    &&& f.count_mode == resolve(b, s, n, stop).1
    &&& f.original_bytes@ == b.subrange(s, de)
    &&& end == text_end(b, de, stop)
    &&& f.excess_data@ == b.subrange(de, end)
    &&& field_wf(f)
}

/// Every field of `fs`, laid out in `b` from offset `at`, is what reading
/// the tag at its own offset gives.
pub open spec fn fields_read(b: Seq<u8>, at: int, fs: Seq<Field>, stop: TextStop) -> bool
    decreases fs.len(),
{
    if fs.len() == 0 {
        true
    } else {
        let p = at + fields_bytes(fs.drop_last()).len();
        &&& fields_read(b, at, fs.drop_last(), stop)
        &&& field_parsed(b, p, stop, fs.last(), p + field_bytes(fs.last()).len())
    }
}

/// A record laid out in `b` from offset `at`: its fields as read there, then
/// its `<eor>` (or, without one, the end of the input or a stray `<eoh>`),
/// then the text up to the next field.
pub open spec fn record_read(b: Seq<u8>, at: int, r: Record) -> bool {
    let e = at + fields_bytes(r.fields@).len();
    let x = e + r.end_tag@.len();
    &&& fields_read(b, at, r.fields@, TextStop::Token)
    &&& r.end_tag@.len() == 0 ==> e == b.len() || eoh_at(b, e)
    &&& r.excess_data@ == b.subrange(x, text_end(b, x, TextStop::Field))
}

pub open spec fn records_read(b: Seq<u8>, at: int, rs: Seq<Record>) -> bool
    decreases rs.len(),
{
    if rs.len() == 0 {
        true
    } else {
        records_read(b, at, rs.drop_last()) && record_read(
            b,
            at + records_bytes(rs.drop_last()).len(),
            rs.last(),
        )
    }
}

pub open spec fn all_fields_wf(fs: Seq<Field>) -> bool {
    forall|i: int| 0 <= i < fs.len() ==> field_wf(#[trigger] fs[i])
}

pub open spec fn records_wf(rs: Seq<Record>) -> bool {
    forall|i: int|
        0 <= i < rs.len() ==> {
            &&& all_fields_wf((#[trigger] rs[i]).fields@)
            &&& rs[i].fields@.len() > 0
            &&& rs[i].end_tag@.len() == 0 || (rs[i].end_tag@.len() == 5 && eor_at(rs[i].end_tag@, 0))
        }
}

/// A name that reads `encoding`, in lower or upper case.
pub open spec fn names_encoding(name: Seq<char>) -> bool {
    name.len() == 8 && forall|i: int|
        0 <= i < 8 ==> (#[trigger] name[i] == "encoding"@[i] || name[i] == "ENCODING"@[i])
}

/// Some field of the buffer declares a length that cannot be read.
pub open spec fn some_tag_unfit(b: Seq<u8>) -> bool {
    exists|p: int| field_at(b, p) && !tag_fits(b, p)
}

pub open spec fn all_tags_fit(b: Seq<u8>) -> bool {
    forall|p: int| field_at(b, p) ==> tag_fits(b, p)
}

/// The data of the first field named `encoding`, in any letter case.
pub open spec fn encoding_of(fs: Seq<Field>) -> Option<Seq<char>>
    decreases fs.len(),
{
    if fs.len() == 0 {
        None
    } else if names_encoding(fs[0].name@) {
        Some(fs[0].data@)
    } else {
        encoding_of(fs.subrange(1, fs.len() as int))
    }
}

/// Reading header fields from `at` ends somewhere other than at `<eoh>`:
/// at the end of the input or at a stray `<eor>`.
pub open spec fn header_runs_to_end(b: Seq<u8>, at: int) -> bool {
    exists|fs: Seq<Field>|
        fields_read(b, at, fs, TextStop::Token) && !field_at(b, at + (#[trigger] fields_bytes(fs)).len())
            && !eoh_at(b, at + fields_bytes(fs).len())
}

/// What a successful parse of `b` guarantees of the document.
pub open spec fn parsed_document(b: Seq<u8>, d: AdifFile) -> bool {
    &&& document_bytes(d) == b
    &&& d.preamble@ == b.subrange(0, text_end(b, 0, TextStop::FieldOrEoh))
    &&& all_fields_wf(d.header_fields@)
    &&& records_wf(d.records@)
    &&& fields_read(b, d.preamble@.len() as int, d.header_fields@, TextStop::Token)
    &&& d.header_end@.len() != 0 ==> {
        let y = (d.preamble@.len() + fields_bytes(d.header_fields@).len() + 5) as int;
        d.header_excess_data@ == b.subrange(y, text_end(b, y, TextStop::Field))
    }
    &&& records_read(
        b,
        (d.preamble@.len() + fields_bytes(d.header_fields@).len() + d.header_end@.len()
            + d.header_excess_data@.len()) as int,
        d.records@,
    )
    &&& d.header_end@.len() == 0 ==> d.header_fields@.len() == 0 && d.header_excess_data@.len()
        == 0
    &&& d.header_end@.len() == 0 ==> header_runs_to_end(b, d.preamble@.len() as int)
    &&& d.header_end@.len() != 0 ==> d.header_end@.len() == 5 && eoh_at(d.header_end@, 0)
    &&& match d.encoding {
        Some(e) => encoding_of(d.header_fields@) == Some(e@),
        None => encoding_of(d.header_fields@) is None,
    }
}

/// Whether a name is `encoding` in any letter case.
pub fn is_encoding_name(name: &String) -> (r: bool)
    ensures
        r == names_encoding(name@),
{
    let cs = chars_of(name.as_str());
    if cs.len() != 8 {
        return false;
    }
    let lower = ['e', 'n', 'c', 'o', 'd', 'i', 'n', 'g'];
    let upper = ['E', 'N', 'C', 'O', 'D', 'I', 'N', 'G'];
    proof {
        reveal_strlit("encoding");
        reveal_strlit("ENCODING");
    }
    assert(lower@ =~= "encoding"@);
    assert(upper@ =~= "ENCODING"@);
    let mut i: usize = 0;
    while i < 8
        invariant
            cs@ == name@,
            cs@.len() == 8,
            0 <= i <= 8,
            lower@ == "encoding"@,
            upper@ == "ENCODING"@,
            forall|k: int| 0 <= k < i ==> (#[trigger] cs@[k] == "encoding"@[k] || cs@[k] == "ENCODING"@[k]),
        decreases 8 - i,
    {
        if !(cs[i] == lower[i] || cs[i] == upper[i]) {
            return false;
        }
        i += 1;
    }
    true
}

/// The data of the first field named `encoding`.
pub fn find_encoding(fs: &Vec<Field>) -> (r: Option<String>)
    ensures
        match r {
            Some(e) => encoding_of(fs@) == Some(e@),
            None => encoding_of(fs@) is None,
        },
{
    let mut i: usize = 0;
    assert(fs@.subrange(0, fs@.len() as int) =~= fs@);
    while i < fs.len()
        invariant
            i <= fs@.len(),
            encoding_of(fs@) == encoding_of(fs@.subrange(i as int, fs@.len() as int)),
        decreases fs@.len() - i,
    {
        let ghost rest = fs@.subrange(i as int, fs@.len() as int);
        assert(rest.subrange(1, rest.len() as int) =~= fs@.subrange(i + 1, fs@.len() as int));
        if is_encoding_name(&fs[i].name) {
            let d = fs[i].data.as_str().to_owned();
            return Some(d);
        }
        i += 1;
    }
    None
}

impl AdifFile {
    /// Parses a whole buffer.
    pub fn parse(data: &[u8]) -> (r: Result<Self, AdifError>)
        ensures
            r is Ok ==> parsed_document(data@, r->Ok_0),
            r is Err ==> some_tag_unfit(data@),
            all_tags_fit(data@) ==> r is Ok,
    {
        let mut parser = AdifParser::new(data);
        parser.parse()
    }

    pub fn new() -> (r: Self)
        ensures
            r.preamble@.len() == 0,
            r.header_fields@.len() == 0,
            r.header_end@.len() == 0,
            r.header_excess_data@.len() == 0,
            r.records@.len() == 0,
            r.encoding is None,
    {
        AdifFile {
            preamble: Vec::new(),
            header_fields: Vec::new(),
            header_end: Vec::new(),
            header_excess_data: Vec::new(),
            records: Vec::new(),
            encoding: None,
        }
    }
}

pub struct AdifParser<'a> {
    pub data: &'a [u8],
    pub position: usize,
}

impl<'a> AdifParser<'a> {
    pub fn new(data: &'a [u8]) -> (r: Self)
        ensures
            r.data@ == data@,
            r.position == 0,
    {
        AdifParser { data, position: 0 }
    }

    /// Reads the field whose tag starts at the current position, with its
    /// trailing text up to the next stop of the given kind.
    #[verifier::rlimit(60)]
    #[verifier::spinoff_prover]
    pub fn parse_field_until(&mut self, stop: TextStop) -> (r: Result<Field, AdifError>)
        requires
            field_at(old(self).data@, old(self).position as int),
        ensures
            final(self).data@ == old(self).data@,
            final(self).position <= final(self).data@.len(),
            r is Ok <==> tag_fits(old(self).data@, old(self).position as int),
            r is Err ==> r->Err_0 is InvalidField && r->Err_0->InvalidField_0@ == field_error(
                old(self).data@,
                old(self).position as int,
            ),
            r is Ok ==> field_parsed(
                old(self).data@,
                old(self).position as int,
                stop,
                r->Ok_0,
                final(self).position as int,
            ),
            r is Ok ==> final(self).position > old(self).position,
            r is Ok ==> field_bytes(r->Ok_0) == old(self).data@.subrange(
                old(self).position as int,
                final(self).position as int,
            ),
            r is Ok ==> final(self).position == final(self).data@.len() || stops_at(
                final(self).data@,
                final(self).position as int,
                stop,
            ),
    {
        let b = self.data;
        let p = self.position;
        let ghost bs = b@;
        let len = b.len();
        let c = ident_run(b, p + 1);
        assert(field_at(bs, p as int));
        assert(c as int == name_end(bs, p as int));
        assert(c < bs.len());
        let d = digit_run(b, c + 1);
        let n = match parse_digits(b, c + 1, d) {
            Some(v) => v,
            None => {
                return Err(AdifError::InvalidField(field_error_text(b, p, c)));
            },
        };
        let close: usize;
        let field_type: Option<String>;
        if b[d] == 0x3A {
            let t = ident_run(b, d + 1);
            field_type = Some(ascii_string(b, d + 1, t));
            close = t;
        } else {
            field_type = None;
            close = d;
        }
        let s = close + 1;
        assert(s as int == tag_end(bs, p as int));
        if n > b.len() - s {
            return Err(AdifError::InvalidField(field_error_text(b, p, c)));
        }
        let be = s + n;
        let ee = scan_text(b, be, stop);
        let noise = count_non_space(b, be, ee);
        let mut de = be;
        let mut end = ee;
        let mut mode = FieldCountMode::Bytes;
        let window = &b[s..be];
        assert(window@ =~= bs.subrange(s as int, be as int));
        if noise > 0 && chars_of(lenient_decode(window).as_str()).len() < n {
            match char_walk(b, s, n) {
                Some(ce) => {
                    proof {
                        lemma_span_prefix(bs.subrange(s as int, bs.len() as int), n as nat);
                    }
                    let ee2 = scan_text(b, ce, stop);
                    if count_non_space(b, ce, ee2) < noise {
                        de = ce;
                        end = ee2;
                        mode = FieldCountMode::Characters;
                    }
                },
                None => {},
            }
        }
        assert(de as int == resolve(bs, s as int, n as nat, stop).0);
        let original_bytes = copy_range(b, s, de);
        let data = lenient_decode(original_bytes.as_slice());
        proof {
            if mode == FieldCountMode::Characters {
                let rest = bs.subrange(s as int, bs.len() as int);
                lemma_span_prefix(rest, n as nat);
                assert(rest.subrange(0, (de - s) as int) =~= original_bytes@);
            }
        }
        self.position = end;
        let f = Field {
            name: ascii_string(b, p + 1, c),
            length: n,
            field_type,
            data,
            excess_data: copy_range(b, de, end),
            original_bytes,
            tag: copy_range(b, p, s),
            count_mode: mode,
        };
        assert(field_bytes(f) =~= bs.subrange(p as int, end as int));
        Ok(f)
    }

    /// Parses the whole buffer: the preamble up to the first field or
    /// `<eoh>`; the header fields and `<eoh>` when the sentinel follows them
    /// (else the header stays empty and the fields are read as records); the
    /// text after `<eoh>`; then the records.
    #[verifier::rlimit(100)]
    #[verifier::spinoff_prover]
    pub fn parse(&mut self) -> (r: Result<AdifFile, AdifError>)
        requires
            old(self).position == 0,
        ensures
            final(self).data@ == old(self).data@,
            r is Ok ==> parsed_document(old(self).data@, r->Ok_0),
            r is Err ==> some_tag_unfit(old(self).data@),
            all_tags_fit(old(self).data@) ==> r is Ok,
    {
        let b = self.data;
        let ghost bs = b@;
        let len = b.len();
        let p0 = scan_text(b, 0, TextStop::FieldOrEoh);
        let preamble = copy_range(b, 0, p0);
        self.position = p0;
        assert(p0 == len || stops_at(bs, p0 as int, TextStop::Token));
        let mut header_fields = match self.parse_header_fields() {
            Ok(fs) => fs,
            Err(e) => {
                return Err(e);
            },
        };
        let mut header_end: Vec<u8> = Vec::new();
        let mut header_excess_data: Vec<u8> = Vec::new();
        let pos = self.position;
        if is_at_eoh(b, pos) {
            header_end = copy_range(b, pos, pos + 5);
            let xe = scan_text(b, pos + 5, TextStop::Field);
            header_excess_data = copy_range(b, pos + 5, xe);
            self.position = xe;
            assert(bs.subrange(p0 as int, xe as int) =~= bs.subrange(p0 as int, pos as int)
                + header_end@ + header_excess_data@);
        } else {
            assert(fields_read(bs, p0 as int, header_fields@, TextStop::Token) && !field_at(
                bs,
                p0 + fields_bytes(header_fields@).len(),
            ) && !eoh_at(bs, p0 + fields_bytes(header_fields@).len()));
            assert(header_runs_to_end(bs, p0 as int));
            header_fields = Vec::new();
            self.position = p0;
            assert(bs.subrange(p0 as int, p0 as int) =~= Seq::<u8>::empty());
        }
        let mid = self.position;
        let records = match self.parse_records() {
            Ok(rs) => rs,
            Err(e) => {
                return Err(e);
            },
        };
        let encoding = find_encoding(&header_fields);
        let doc = AdifFile {
            preamble,
            header_fields,
            header_end,
            header_excess_data,
            records,
            encoding,
        };
        assert(bs =~= bs.subrange(0, p0 as int) + bs.subrange(p0 as int, mid as int) + bs.subrange(
            mid as int,
            len as int,
        ));
        assert(document_bytes(doc) =~= bs);
        Ok(doc)
    }

    /// Reads the fields from the current position on as long as a field
    /// follows, each with its trailing text up to the next token.
    pub fn parse_header_fields(&mut self) -> (r: Result<Vec<Field>, AdifError>)
        requires
            old(self).position <= old(self).data@.len(),
            old(self).position == old(self).data@.len() || stops_at(
                old(self).data@,
                old(self).position as int,
                TextStop::Token,
            ),
        ensures
            final(self).data@ == old(self).data@,
            r is Err ==> some_tag_unfit(old(self).data@),
            all_tags_fit(old(self).data@) ==> r is Ok,
            r is Ok ==> {
                &&& old(self).position <= final(self).position <= final(self).data@.len()
                &&& fields_bytes(r->Ok_0@) == old(self).data@.subrange(
                    old(self).position as int,
                    final(self).position as int,
                )
                &&& all_fields_wf(r->Ok_0@)
                &&& fields_read(old(self).data@, old(self).position as int, r->Ok_0@, TextStop::Token)
                &&& !field_at(final(self).data@, final(self).position as int)
                &&& (!field_at(old(self).data@, old(self).position as int) ==> final(self).position
                    == old(self).position)
                &&& (final(self).position == final(self).data@.len() || stops_at(
                    final(self).data@,
                    final(self).position as int,
                    TextStop::Token,
                ))
            },
    {
        let b = self.data;
        let ghost bs = b@;
        let len = b.len();
        let p0 = self.position;
        let mut header_fields: Vec<Field> = Vec::new();
        while is_at_field(b, self.position)
            invariant
                self.data@ == bs,
                b@ == bs,
                old(self).data@ == bs,
                old(self).position == p0,
                self.position == p0 || field_at(bs, p0 as int),
                len == bs.len(),
                p0 <= self.position <= len,
                fields_bytes(header_fields@) == bs.subrange(p0 as int, self.position as int),
                all_fields_wf(header_fields@),
                fields_read(bs, p0 as int, header_fields@, TextStop::Token),
                self.position == len || stops_at(bs, self.position as int, TextStop::Token),
            decreases len - self.position,
        {
            let pos = self.position;
            match self.parse_field_until(TextStop::Token) {
                Ok(f) => {
                    let ghost before = header_fields@;
                    header_fields.push(f);
                    assert(header_fields@.drop_last() =~= before);
                    assert(bs.subrange(p0 as int, self.position as int) =~= bs.subrange(
                        p0 as int,
                        pos as int,
                    ) + bs.subrange(pos as int, self.position as int));
                },
                Err(e) => {
                    return Err(e);
                },
            }
        }
        Ok(header_fields)
    }

    /// Reads one field, its trailing text stopping at the next field or
    /// sentinel.
    pub fn parse_field(&mut self) -> (r: Result<Field, AdifError>)
        requires
            field_at(old(self).data@, old(self).position as int),
        ensures
            final(self).data@ == old(self).data@,
            r is Ok <==> tag_fits(old(self).data@, old(self).position as int),
            r is Err ==> r->Err_0 is InvalidField && r->Err_0->InvalidField_0@ == field_error(
                old(self).data@,
                old(self).position as int,
            ),
            r is Ok ==> field_parsed(
                old(self).data@,
                old(self).position as int,
                TextStop::Token,
                r->Ok_0,
                final(self).position as int,
            ),
    {
        self.parse_field_until(TextStop::Token)
    }

    /// Reads a record that starts with the field at the current position:
    /// its fields up to `<eor>` or the end of the input, the sentinel, and
    /// the text up to the next field.
    pub fn parse_record(&mut self) -> (r: Result<Record, AdifError>)
        requires
            field_at(old(self).data@, old(self).position as int),
        ensures
            final(self).data@ == old(self).data@,
            r is Ok ==> old(self).position < final(self).position <= final(self).data@.len(),
            r is Err ==> some_tag_unfit(old(self).data@),
            all_tags_fit(old(self).data@) ==> r is Ok,
            r is Ok ==> {
                &&& record_bytes(r->Ok_0) == old(self).data@.subrange(
                    old(self).position as int,
                    final(self).position as int,
                )
                &&& records_wf(seq![r->Ok_0])
                &&& record_read(old(self).data@, old(self).position as int, r->Ok_0)
                &&& (final(self).position == final(self).data@.len() || field_at(
                    final(self).data@,
                    final(self).position as int,
                ))
            },
    {
        let b = self.data;
        let ghost bs = b@;
        let len = b.len();
        let start = self.position;
        let mut fields: Vec<Field> = Vec::new();
        let mut end_tag: Vec<u8> = Vec::new();
        while is_at_field(b, self.position)
            invariant
                self.data@ == bs,
                b@ == bs,
                old(self).data@ == bs,
                len == bs.len(),
                start <= self.position <= len,
                fields_bytes(fields@) == bs.subrange(start as int, self.position as int),
                all_fields_wf(fields@),
                fields_read(bs, start as int, fields@, TextStop::Token),
                end_tag@.len() == 0,
                fields@.len() == 0 ==> self.position == start && field_at(bs, start as int),
                fields@.len() > 0 ==> self.position > start,
                fields@.len() > 0 ==> self.position == len || field_at(bs, self.position as int)
                    || eor_at(bs, self.position as int) || eoh_at(bs, self.position as int),
            decreases len - self.position,
        {
            let pos = self.position;
            match self.parse_field_until(TextStop::Token) {
                Ok(f) => {
                    let ghost before = fields@;
                    fields.push(f);
                    assert(fields@.drop_last() =~= before);
                    assert(bs.subrange(start as int, self.position as int) =~= bs.subrange(
                        start as int,
                        pos as int,
                    ) + bs.subrange(pos as int, self.position as int));
                    assert(field_bytes(f) =~= bs.subrange(pos as int, self.position as int));
                },
                Err(e) => {
                    return Err(e);
                },
            }
        }
        let mut pos = self.position;
        if is_at_eor(b, pos) {
            end_tag = copy_range(b, pos, pos + 5);
            assert(bs.subrange(start as int, pos + 5) =~= bs.subrange(start as int, pos as int)
                + end_tag@);
            pos = pos + 5;
        }
        let xe = scan_text(b, pos, TextStop::Field);
        let excess_data = copy_range(b, pos, xe);
        self.position = xe;
        let r = Record { fields, end_tag, excess_data };
        assert(bs.subrange(start as int, xe as int) =~= bs.subrange(start as int, pos as int)
            + excess_data@);
        assert(fields_bytes(fields@) + end_tag@ == bs.subrange(start as int, pos as int));
        assert(record_bytes(r) =~= bs.subrange(start as int, xe as int));
        assert(r.fields@.len() > 0);
        assert(seq![r][0] == r);
        assert(xe == len || field_at(bs, xe as int));
        Ok(r)
    }

    /// Reads records from the current position, which holds a field or the
    /// end of the input, to the end of the input.
    pub fn parse_records(&mut self) -> (r: Result<Vec<Record>, AdifError>)
        requires
            old(self).position == old(self).data@.len() || field_at(
                old(self).data@,
                old(self).position as int,
            ),
            old(self).position <= old(self).data@.len(),
        ensures
            final(self).data@ == old(self).data@,
            r is Err ==> some_tag_unfit(old(self).data@),
            all_tags_fit(old(self).data@) ==> r is Ok,
            r is Ok ==> {
                &&& records_bytes(r->Ok_0@) == old(self).data@.subrange(
                    old(self).position as int,
                    old(self).data@.len() as int,
                )
                &&& records_wf(r->Ok_0@)
                &&& records_read(old(self).data@, old(self).position as int, r->Ok_0@)
            },
    {
        let b = self.data;
        let ghost bs = b@;
        let len = b.len();
        let start = self.position;
        let mut records: Vec<Record> = Vec::new();
        while self.position < len
            invariant
                self.data@ == bs,
                b@ == bs,
                old(self).data@ == bs,
                len == bs.len(),
                start <= self.position <= len,
                self.position == len || field_at(bs, self.position as int),
                records_bytes(records@) == bs.subrange(start as int, self.position as int),
                records_wf(records@),
                records_read(bs, start as int, records@),
            decreases len - self.position,
        {
            let pos = self.position;
            match self.parse_record() {
                Ok(rec) => {
                    let ghost before = records@;
                    records.push(rec);
                    assert(records@.drop_last() =~= before);
                    assert(records@.last() == rec);
                    assert(records_wf(seq![rec]) ==> records_wf(records@)) by {
                        if records_wf(seq![rec]) {
                            assert forall|i: int| 0 <= i < records@.len() implies {
                                &&& all_fields_wf((#[trigger] records@[i]).fields@)
                                &&& records@[i].fields@.len() > 0
                                &&& records@[i].end_tag@.len() == 0 || (records@[i].end_tag@.len()
                                    == 5 && eor_at(records@[i].end_tag@, 0))
                            } by {
                                if i < before.len() {
                                    assert(records@[i] == before[i]);
                                } else {
                                    assert(records@[i] == seq![rec][0]);
                                }
                            }
                        }
                    }
                    assert(bs.subrange(start as int, self.position as int) =~= bs.subrange(
                        start as int,
                        pos as int,
                    ) + bs.subrange(pos as int, self.position as int));
                },
                Err(e) => {
                    return Err(e);
                },
            }
        }
        Ok(records)
    }
}

} // verus!
