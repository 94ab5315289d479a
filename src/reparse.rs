//! What the parser reads back from a field that the encoder wrote.

use vstd::prelude::*;
use vstd::utf8::{
    encode_scalar, encode_utf8, encode_utf8_first_scalar, is_ascii_chars,
    is_ascii_chars_encode_utf8, length_of_first_scalar, valid_first_scalar,
};
use crate::text::{char_span, lenient_chars, step_len};
use crate::bytes::{digits_value, non_space_count};
use crate::adif::{declared_length, field_parsed, resolve, tag_fits, Field, FieldCountMode};
use crate::encoding::{codec_label, decoded_with, encoded_with, processed, AdifEncoding, EncodingProcessor};
use crate::output::{decimal, field_with_text, tag_bytes, type_suffix, written_length};
use crate::tokenizer::{
    digits_end, eoh_at, eor_at, field_at, ident_end, is_digit,
    is_ident_byte, is_letter, stops_at, tag_end, text_end, TextStop,
};

verus! {

proof fn lemma_decimal(n: nat)
    ensures
        decimal(n).len() >= 1,
        forall|i: int| 0 <= i < decimal(n).len() ==> is_digit(#[trigger] decimal(n)[i]),
        digits_value(decimal(n)) == n,
    decreases n,
{
    if n >= 10 {
        lemma_decimal(n / 10);
        let p = decimal(n / 10);
        let d = decimal(n);
        assert(d.drop_last() =~= p);
        assert forall|i: int| 0 <= i < d.len() implies is_digit(#[trigger] d[i]) by {
            if i < p.len() {
                assert(d[i] == p[i]);
            }
        }
        assert((n / 10) * 10 + n % 10 == n) by (nonlinear_arith);
        assert(d.last() == (0x30 + n % 10) as u8);
        assert(d.last() as int - 0x30 == n % 10);
        assert(digits_value(d) == digits_value(p) * 10 + (d.last() as int - 0x30) as nat);
        assert(digits_value(p) == n / 10);
        assert(digits_value(d) == (n / 10) * 10 + n % 10);
    } else {
        let d = decimal(n);
        assert(d.drop_last() =~= Seq::<u8>::empty());
        assert(d.last() as int - 0x30 == n);
        assert(digits_value(Seq::<u8>::empty()) == 0);
        assert(digits_value(d) == digits_value(d.drop_last()) * 10 + (d.last() as int - 0x30) as nat);
    }
}

proof fn lemma_ident_run(b: Seq<u8>, i: int, j: int)
    requires
        0 <= i <= j <= b.len(),
        forall|k: int| i <= k < j ==> is_ident_byte(#[trigger] b[k]),
        j == b.len() || !is_ident_byte(b[j]),
    ensures
        ident_end(b, i) == j,
    decreases j - i,
{
    if i < j {
        lemma_ident_run(b, i + 1, j);
    }
}

proof fn lemma_digit_run(b: Seq<u8>, i: int, j: int)
    requires
        0 <= i <= j <= b.len(),
        forall|k: int| i <= k < j ==> is_digit(#[trigger] b[k]),
        j == b.len() || !is_digit(b[j]),
    ensures
        digits_end(b, i) == j,
    decreases j - i,
{
    if i < j {
        lemma_digit_run(b, i + 1, j);
    }
}

proof fn lemma_shift_ident(b: Seq<u8>, q: int, k: int)
    requires
        0 <= q <= b.len(),
        0 <= k,
    ensures
        ident_end(b, q + k) == q + ident_end(b.subrange(q, b.len() as int), k),
    decreases b.len() - (q + k),
{
    let s = b.subrange(q, b.len() as int);
    if q + k < b.len() {
        assert(s[k] == b[q + k]);
        if is_ident_byte(b[q + k]) {
            lemma_shift_ident(b, q, k + 1);
        }
    }
}

proof fn lemma_shift_digits(b: Seq<u8>, q: int, k: int)
    requires
        0 <= q <= b.len(),
        0 <= k,
    ensures
        digits_end(b, q + k) == q + digits_end(b.subrange(q, b.len() as int), k),
    decreases b.len() - (q + k),
{
    let s = b.subrange(q, b.len() as int);
    if q + k < b.len() {
        assert(s[k] == b[q + k]);
        if is_digit(b[q + k]) {
            lemma_shift_digits(b, q, k + 1);
        }
    }
}

/// Whether a stop starts at a position depends only on the bytes from there
/// on.
proof fn lemma_shift_stop(b: Seq<u8>, q: int, k: int, stop: TextStop)
    requires
        0 <= q <= b.len(),
        0 <= k,
    ensures
        stops_at(b, q + k, stop) == stops_at(b.subrange(q, b.len() as int), k, stop),
{
    let s = b.subrange(q, b.len() as int);
    let p = q + k;
    lemma_shift_ident(b, q, k + 1);
    let c = ident_end(s, k + 1);
    assert(c >= k + 1) by {
        lemma_ident_end_ge(s, k + 1);
    }
    lemma_shift_digits(b, q, c + 1);
    let d = digits_end(s, c + 1);
    assert(d >= c + 1) by {
        lemma_digits_end_ge(s, c + 1);
    }
    lemma_shift_ident(b, q, d + 1);
    if p + 4 < b.len() {
        assert(s[k] == b[p] && s[k + 1] == b[p + 1] && s[k + 2] == b[p + 2] && s[k + 3] == b[p + 3]
            && s[k + 4] == b[p + 4]);
    }
    if p + 1 < b.len() {
        assert(s[k] == b[p] && s[k + 1] == b[p + 1]);
    }
    if c < s.len() {
        assert(s[c] == b[q + c]);
    }
    if d < s.len() {
        assert(s[d] == b[q + d]);
    }
    if d + 1 < s.len() {
        assert(s[d + 1] == b[q + d + 1]);
    }
    let t = ident_end(s, d + 1);
    lemma_ident_end_ge(s, d + 1);
    if t < s.len() {
        assert(s[t] == b[q + t]);
    }
    assert(field_at(b, p) == field_at(s, k));
    assert(eoh_at(b, p) == eoh_at(s, k));
    assert(eor_at(b, p) == eor_at(s, k));
}

proof fn lemma_ident_end_ge(b: Seq<u8>, i: int)
    ensures
        ident_end(b, i) >= i,
    decreases b.len() - i,
{
    if 0 <= i < b.len() && is_ident_byte(b[i]) {
        lemma_ident_end_ge(b, i + 1);
    }
}

proof fn lemma_digits_end_ge(b: Seq<u8>, i: int)
    ensures
        digits_end(b, i) >= i,
    decreases b.len() - i,
{
    if 0 <= i < b.len() && is_digit(b[i]) {
        lemma_digits_end_ge(b, i + 1);
    }
}

proof fn lemma_text_run(b: Seq<u8>, i: int, j: int, stop: TextStop)
    requires
        0 <= i <= j <= b.len(),
        forall|k: int| i <= k < j ==> !stops_at(b, k, stop),
        j == b.len() || stops_at(b, j, stop),
    ensures
        text_end(b, i, stop) == j,
    decreases j - i,
{
    if i < j {
        lemma_text_run(b, i + 1, j, stop);
    }
}

/// Letters, digits and underscores, at least one: the text of a type tag.
pub open spec fn ident_text(s: Seq<char>) -> bool {
    &&& s.len() > 0
    &&& is_ascii_chars(s)
    &&& forall|i: int| 0 <= i < s.len() ==> is_ident_byte(#[trigger] s[i] as u8)
}

/// A field name: identifier text that starts with a letter.
pub open spec fn identifier(s: Seq<char>) -> bool {
    ident_text(s) && is_letter(s[0] as u8)
}

pub open spec fn type_is_identifier(ty: Option<String>) -> bool {
    match ty {
        Some(y) => ident_text(y@),
        None => true,
    }
}

/// The bytes after a field's data hold no stop before the field's own
/// trailing bytes end, and a stop or the end of the input follows them.
pub open spec fn trailing_ends_cleanly(excess: Seq<u8>, rest: Seq<u8>, stop: TextStop) -> bool {
    let tail = excess + rest;
    &&& forall|k: int| 0 <= k < excess.len() ==> !stops_at(tail, k, stop)
    &&& rest.len() == 0 || stops_at(tail, excess.len() as int, stop)
}

/// An identifier's UTF-8 bytes start at `at` in `w` and are followed by the
/// byte `next`, which is not an identifier byte.
proof fn lemma_identifier_in(w: Seq<u8>, at: int, s: Seq<char>)
    requires
        ident_text(s),
        0 <= at,
        at + s.len() < w.len(),
        w.subrange(at, at + s.len()) == encode_utf8(s),
        !is_ident_byte(w[at + s.len()]),
    ensures
        ident_end(w, at) == at + s.len(),
        w[at] == s[0] as u8,
        is_ident_byte(w[at]),
{
    is_ascii_chars_encode_utf8(s);
    assert forall|k: int| at <= k < at + s.len() implies is_ident_byte(#[trigger] w[k]) by {
        assert(w[k] == w.subrange(at, at + s.len())[k - at]);
        assert(encode_utf8(s)[k - at] == s[k - at] as u8);
    }
    assert(w[at] == w.subrange(at, at + s.len())[0]);
    assert(encode_utf8(s)[0] == s[0] as u8);
    lemma_ident_run(w, at, at + s.len());
}

/// A tag written with an identifier name, a length and an identifier-text type
/// reads back, whatever follows it, as a tag of that length ending where it
/// was written to end.
proof fn lemma_written_tag(name: Seq<char>, n: nat, ty: Option<String>, after: Seq<u8>)
    requires
        identifier(name),
        type_is_identifier(ty),
    ensures
        field_at(tag_bytes(name, n, ty) + after, 0),
        tag_end(tag_bytes(name, n, ty) + after, 0) == tag_bytes(name, n, ty).len(),
        declared_length(tag_bytes(name, n, ty) + after, 0) == n,
{
    let nb = encode_utf8(name);
    let dd = decimal(n);
    let ts = type_suffix(ty);
    let tag = tag_bytes(name, n, ty);
    let w = tag + after;
    assert(tag =~= seq![0x3Cu8] + nb + seq![0x3Au8] + dd + ts + seq![0x3Eu8]);
    is_ascii_chars_encode_utf8(name);
    lemma_decimal(n);
    let c: int = 1 + nb.len() as int;
    let d: int = c + 1 + dd.len() as int;
    assert(w[0] == 0x3C);
    assert(w.subrange(1, c) =~= nb);
    assert(w[c] == 0x3A);
    assert forall|k: int| c + 1 <= k < d implies w[k] == dd[k - c - 1] by {}
    lemma_identifier_in(w, 1, name);
    assert forall|k: int| c + 1 <= k < d implies is_digit(#[trigger] w[k]) by {
        assert(w[k] == dd[k - c - 1]);
    }
    match ty {
        Some(y) => {
            let yb = encode_utf8(y@);
            let yl: int = yb.len() as int;
            is_ascii_chars_encode_utf8(y@);
            assert(ts =~= seq![0x3Au8] + yb);
            assert(w[d] == 0x3A);
            lemma_digit_run(w, c + 1, d);
            assert(w.subrange(d + 1, d + 1 + yl) =~= yb);
            assert(w[d + 1 + yl] == 0x3E);
            lemma_identifier_in(w, d + 1, y@);
        },
        None => {
            assert(w[d] == 0x3E);
            lemma_digit_run(w, c + 1, d);
        },
    }
    assert(field_at(w, 0));
    assert(w.subrange(c + 1, d) =~= dd);
}

/// Self-consistency of the encoder with the parser: a field written with
/// text `t` in encoding `e` (its length counted as the byte count of the
/// encoded text) is read back, whatever follows it, with exactly the encoded
/// bytes as data, and strict decoding in `e` gives `t` again, whenever `e`
/// represents `t` (its decoder returns `t`, without error, from the encoded
/// bytes), the name and type are identifiers, and the trailing text after the
/// data is blank or the encoded bytes decode to as many characters as they
/// have bytes.
#[verifier::rlimit(60)]
#[verifier::spinoff_prover]
pub proof fn lemma_written_field_reads_back(
    e: AdifEncoding,
    fd: Field,
    t: Seq<char>,
    rest: Seq<u8>,
    stop: TextStop,
    g: Field,
    end: int,
    p: EncodingProcessor,
)
    requires
        identifier(fd.name@),
        type_is_identifier(fd.field_type),
        encoded_with(codec_label(e), t).0.len() <= usize::MAX,
        written_length(e, t) == encoded_with(codec_label(e), t).0.len(),
        decoded_with(codec_label(e), encoded_with(codec_label(e), t).0) == (t, false),
        trailing_ends_cleanly(fd.excess_data@, rest, stop),
        non_space_count(fd.excess_data@) == 0 || lenient_chars(encoded_with(codec_label(e), t).0).len()
            >= encoded_with(codec_label(e), t).0.len(),
        p.input_encoding == Some(e),
        p.strict_mode,
    ensures
        field_at(field_with_text(e, fd, t) + rest, 0),
        tag_fits(field_with_text(e, fd, t) + rest, 0),
        field_parsed(field_with_text(e, fd, t) + rest, 0, stop, g, end) ==> {
            &&& g.original_bytes@ == encoded_with(codec_label(e), t).0
            &&& g.count_mode == FieldCountMode::Bytes
            &&& g.length == written_length(e, t)
            &&& processed(p, g.original_bytes@) == Some(t)
        },
{
    let enc = encoded_with(codec_label(e), t).0;
    let n = written_length(e, t);
    let tag = tag_bytes(fd.name@, n, fd.field_type);
    let tail = fd.excess_data@ + rest;
    let w = field_with_text(e, fd, t) + rest;
    assert(w =~= tag + (enc + tail));
    lemma_written_tag(fd.name@, n, fd.field_type, enc + tail);
    let s = tag.len() as int;
    let be = s + n;
    assert(w.subrange(s, be) =~= enc);
    assert(w.subrange(be, w.len() as int) =~= tail);
    let xl = fd.excess_data@.len() as int;
    assert forall|k: int| be <= k < be + xl implies !stops_at(w, k, stop) by {
        lemma_shift_stop(w, be, k - be, stop);
    }
    if rest.len() != 0 {
        lemma_shift_stop(w, be, xl, stop);
    }
    lemma_text_run(w, be, be + xl, stop);
    assert(w.subrange(be, be + xl) =~= fd.excess_data@);
    assert(resolve(w, s, n, stop) == (be, FieldCountMode::Bytes));
}

/// A scalar encoded at the start of a prefix is encoded at the start of the
/// whole sequence too.
proof fn lemma_step_extend(s: Seq<u8>, m: int)
    requires
        0 < m <= s.len(),
        valid_first_scalar(s.subrange(0, m)),
    ensures
        valid_first_scalar(s),
        length_of_first_scalar(s) == length_of_first_scalar(s.subrange(0, m)),
{
    let t = s.subrange(0, m);
    assert(t[0] == s[0]);
    if m >= 2 {
        assert(t[1] == s[1]);
    }
    if m >= 3 {
        assert(t[2] == s[2]);
    }
    if m >= 4 {
        assert(t[3] == s[3]);
    }
}

/// Walking as many lenient characters as `t` has over its UTF-8 encoding,
/// whatever follows, covers exactly the encoding.
proof fn lemma_span_of_encoded(t: Seq<char>, x: Seq<u8>)
    ensures
        char_span(encode_utf8(t) + x, t.len()) == Some(encode_utf8(t).len() as int),
    decreases t.len(),
{
    if t.len() > 0 {
        let e = encode_utf8(t);
        let b = e + x;
        encode_utf8_first_scalar(t);
        let w = encode_scalar(t[0] as u32).len() as int;
        let rest = encode_utf8(t.drop_first());
        assert(e == encode_scalar(t[0] as u32) + rest);
        assert(b.subrange(0, e.len() as int) =~= e);
        lemma_step_extend(b, e.len() as int);
        assert(step_len(b) == w);
        assert(b.subrange(w, b.len() as int) =~= rest + x);
        lemma_span_of_encoded(t.drop_first(), x);
    } else {
        assert(encode_utf8(t) =~= Seq::<u8>::empty());
    }
}

proof fn lemma_non_space_concat(a: Seq<u8>, b: Seq<u8>)
    ensures
        non_space_count(a + b) == non_space_count(a) + non_space_count(b),
    decreases b.len(),
{
    if b.len() > 0 {
        assert((a + b).drop_last() =~= a + b.drop_last());
        lemma_non_space_concat(a, b.drop_last());
    } else {
        assert(a + b =~= a);
    }
}

/// The same law for UTF-8, where the written length counts characters: the
/// byte cut then falls inside the data, and the parser recovers the whole
/// encoded text by counting characters. This holds when the bytes the byte
/// cut keeps decode to fewer characters than the written length, the
/// data after the byte cut is not blank, and neither it nor the trailing text
/// holds a stop.
#[verifier::rlimit(60)]
#[verifier::spinoff_prover]
pub proof fn lemma_written_utf8_field_reads_back(
    fd: Field,
    t: Seq<char>,
    rest: Seq<u8>,
    stop: TextStop,
    g: Field,
    end: int,
    p: EncodingProcessor,
)
    requires
        identifier(fd.name@),
        type_is_identifier(fd.field_type),
        encoded_with(codec_label(AdifEncoding::Utf8), t).0 == encode_utf8(t),
        encode_utf8(t).len() <= usize::MAX,
        decoded_with(codec_label(AdifEncoding::Utf8), encode_utf8(t)) == (t, false),
        lenient_chars(encode_utf8(t).subrange(0, t.len() as int)).len() < t.len(),
        non_space_count(encode_utf8(t).subrange(t.len() as int, encode_utf8(t).len() as int)) > 0,
        trailing_ends_cleanly(
            encode_utf8(t).subrange(t.len() as int, encode_utf8(t).len() as int) + fd.excess_data@,
            rest,
            stop,
        ),
        trailing_ends_cleanly(fd.excess_data@, rest, stop),
        p.input_encoding == Some(AdifEncoding::Utf8),
        p.strict_mode,
    ensures
        field_at(field_with_text(AdifEncoding::Utf8, fd, t) + rest, 0),
        tag_fits(field_with_text(AdifEncoding::Utf8, fd, t) + rest, 0),
        field_parsed(field_with_text(AdifEncoding::Utf8, fd, t) + rest, 0, stop, g, end) ==> {
            &&& g.original_bytes@ == encode_utf8(t)
            &&& g.count_mode == FieldCountMode::Characters
            &&& g.length == t.len()
            &&& processed(p, g.original_bytes@) == Some(t)
        },
{
    let e = AdifEncoding::Utf8;
    let enc = encode_utf8(t);
    let n = t.len() as int;
    lemma_encoded_len(t);
    assert(written_length(e, t) == n);
    let tag = tag_bytes(fd.name@, n as nat, fd.field_type);
    let tail = fd.excess_data@ + rest;
    let w = field_with_text(e, fd, t) + rest;
    assert(w =~= tag + (enc + tail));
    lemma_written_tag(fd.name@, n as nat, fd.field_type, enc + tail);
    let s0 = tag.len() as int;
    let be = s0 + n;
    let ce = s0 + enc.len();
    let cut = enc.subrange(n, enc.len() as int);
    assert(w.subrange(s0, be) =~= enc.subrange(0, n));
    // Text after the byte cut: the rest of the data and the trailing text.
    let xl = cut.len() + fd.excess_data@.len();
    assert(w.subrange(be, w.len() as int) =~= cut + fd.excess_data@ + rest);
    assert forall|k: int| be <= k < be + xl implies !stops_at(w, k, stop) by {
        lemma_shift_stop(w, be, k - be, stop);
    }
    if rest.len() != 0 {
        lemma_shift_stop(w, be, xl as int, stop);
    }
    lemma_text_run(w, be, be + xl, stop);
    assert(w.subrange(be, be + xl) =~= cut + fd.excess_data@);
    lemma_non_space_concat(cut, fd.excess_data@);
    // Text after the character cut: the trailing text alone.
    assert(w.subrange(s0, w.len() as int) =~= enc + tail);
    lemma_span_of_encoded(t, tail);
    assert(w.subrange(ce, w.len() as int) =~= tail);
    let xl2 = fd.excess_data@.len() as int;
    assert forall|k: int| ce <= k < ce + xl2 implies !stops_at(w, k, stop) by {
        lemma_shift_stop(w, ce, k - ce, stop);
    }
    if rest.len() != 0 {
        lemma_shift_stop(w, ce, xl2, stop);
    }
    lemma_text_run(w, ce, ce + xl2, stop);
    assert(w.subrange(ce, ce + xl2) =~= fd.excess_data@);
    assert(resolve(w, s0, n as nat, stop) == (ce, FieldCountMode::Characters));
    assert(w.subrange(s0, ce) =~= enc);
}

/// A text has no more characters than its UTF-8 encoding has bytes.
proof fn lemma_encoded_len(t: Seq<char>)
    ensures
        t.len() <= encode_utf8(t).len(),
    decreases t.len(),
{
    if t.len() > 0 {
        encode_utf8_first_scalar(t);
        lemma_encoded_len(t.drop_first());
    }
}

} // verus!
