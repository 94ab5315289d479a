//! Recognition of field tags (`<name:length>` or `<name:length:type>`) and of
//! the two sentinels (`<eoh>`, `<eor>`, in any letter case) at a byte offset.

use vstd::prelude::*;

verus! {

pub open spec fn is_letter(c: u8) -> bool {
    (0x41 <= c <= 0x5A) || (0x61 <= c <= 0x7A)
}

pub open spec fn is_digit(c: u8) -> bool {
    0x30 <= c <= 0x39
}

/// Letters, digits and underscore: the bytes of a name or a type tag.
pub open spec fn is_ident_byte(c: u8) -> bool {
    is_letter(c) || is_digit(c) || c == 0x5F
}

/// First index at or after `i` that does not hold an identifier byte.
pub open spec fn ident_end(b: Seq<u8>, i: int) -> int
    decreases b.len() - i,
{
    if 0 <= i < b.len() && is_ident_byte(b[i]) {
        ident_end(b, i + 1)
    } else {
        i
    }
}

/// First index at or after `i` that does not hold a decimal digit.
pub open spec fn digits_end(b: Seq<u8>, i: int) -> int
    decreases b.len() - i,
{
    if 0 <= i < b.len() && is_digit(b[i]) {
        digits_end(b, i + 1)
    } else {
        i
    }
}

/// Index of the `:` that ends the name of a tag starting at `p`.
pub open spec fn name_end(b: Seq<u8>, p: int) -> int {
    ident_end(b, p + 1)
}

/// Index just past the length digits of a tag starting at `p`.
pub open spec fn length_end(b: Seq<u8>, p: int) -> int {
    digits_end(b, name_end(b, p) + 1)
}

/// Whether the tag starting at `p` carries a type after its length.
pub open spec fn has_type(b: Seq<u8>, p: int) -> bool {
    b[length_end(b, p)] == 0x3A
}

/// Index of the closing `>` of a tag starting at `p`.
pub open spec fn close_at(b: Seq<u8>, p: int) -> int {
    if has_type(b, p) {
        ident_end(b, length_end(b, p) + 1)
    } else {
        length_end(b, p)
    }
}

/// A field tag starts at `p`: `<`, a name (a letter, then letters, digits or
/// underscores), `:`, one or more digits, optionally `:` and a type of one or
/// more letters, digits or underscores, then `>`.
pub open spec fn field_at(b: Seq<u8>, p: int) -> bool {
    let c = name_end(b, p);
    let d = length_end(b, p);
    &&& 0 <= p
    &&& p + 1 < b.len()
    &&& b[p] == 0x3C
    &&& is_letter(b[p + 1])
    &&& c < b.len()
    &&& b[c] == 0x3A
    &&& d > c + 1
    &&& d < b.len()
    &&& if b[d] == 0x3A {
        &&& d + 1 < b.len()
        &&& is_ident_byte(b[d + 1])
        &&& ident_end(b, d + 1) < b.len()
        &&& b[ident_end(b, d + 1)] == 0x3E
    } else {
        b[d] == 0x3E
    }
}

/// Index just past the tag that starts at `p`.
pub open spec fn tag_end(b: Seq<u8>, p: int) -> int {
    close_at(b, p) + 1
}

/// The letters of a sentinel: `t0 t1 t2` in lower case.
pub open spec fn sentinel_at(b: Seq<u8>, p: int, t0: u8, t1: u8, t2: u8) -> bool {
    &&& 0 <= p
    &&& p + 5 <= b.len()
    &&& b[p] == 0x3C
    &&& (b[p + 1] == t0 || b[p + 1] + 0x20 == t0)
    &&& (b[p + 2] == t1 || b[p + 2] + 0x20 == t1)
    &&& (b[p + 3] == t2 || b[p + 3] + 0x20 == t2)
    &&& b[p + 4] == 0x3E
}

/// `<eoh>` in any letter case starts at `p`.
pub open spec fn eoh_at(b: Seq<u8>, p: int) -> bool {
    sentinel_at(b, p, 0x65, 0x6F, 0x68)
}

/// `<eor>` in any letter case starts at `p`.
pub open spec fn eor_at(b: Seq<u8>, p: int) -> bool {
    sentinel_at(b, p, 0x65, 0x6F, 0x72)
}

/// Where free text stops, depending on the part of the file being read.
#[derive(Clone, Copy, PartialEq, Eq, Structural, Debug)]
pub enum TextStop {
    /// Before the first token: a field tag or `<eoh>`.
    FieldOrEoh,
    /// After a field's data: a field tag or either sentinel.
    Token,
    /// After a sentinel: the next field tag.
    Field,
}

pub open spec fn stops_at(b: Seq<u8>, p: int, stop: TextStop) -> bool {
    match stop {
        TextStop::FieldOrEoh => field_at(b, p) || eoh_at(b, p),
        TextStop::Token => field_at(b, p) || eor_at(b, p) || eoh_at(b, p),
        TextStop::Field => field_at(b, p),
    }
}

/// The end of the free text that begins at `i`: the first stop at or after
/// `i`, or the end of the buffer.
pub open spec fn text_end(b: Seq<u8>, i: int, stop: TextStop) -> int
    decreases b.len() - i,
{
    if i < b.len() && !stops_at(b, i, stop) {
        text_end(b, i + 1, stop)
    } else {
        i
    }
}

pub fn is_letter_byte(c: u8) -> (r: bool)
    ensures
        r == is_letter(c),
{
    (0x41 <= c && c <= 0x5A) || (0x61 <= c && c <= 0x7A)
}

pub fn is_ident(c: u8) -> (r: bool)
    ensures
        r == is_ident_byte(c),
{
    is_letter_byte(c) || (0x30 <= c && c <= 0x39) || c == 0x5F
}

pub fn ident_run(b: &[u8], i: usize) -> (r: usize)
    requires
        i <= b@.len(),
    ensures
        r as int == ident_end(b@, i as int),
        i <= r <= b@.len(),
{
    let mut j = i;
    while j < b.len() && is_ident(b[j])
        invariant
            i <= j <= b@.len(),
            ident_end(b@, j as int) == ident_end(b@, i as int),
        decreases b@.len() - j,
    {
        j += 1;
    }
    j
}

pub fn digit_run(b: &[u8], i: usize) -> (r: usize)
    requires
        i <= b@.len(),
    ensures
        r as int == digits_end(b@, i as int),
        i <= r <= b@.len(),
        forall|k: int| i <= k < r ==> is_digit(#[trigger] b@[k]),
{
    let mut j = i;
    while j < b.len() && 0x30 <= b[j] && b[j] <= 0x39
        invariant
            i <= j <= b@.len(),
            digits_end(b@, j as int) == digits_end(b@, i as int),
            forall|k: int| i <= k < j ==> is_digit(#[trigger] b@[k]),
        decreases b@.len() - j,
    {
        j += 1;
    }
    j
}

/// Whether a field tag starts at `p`.
pub fn is_at_field(b: &[u8], p: usize) -> (r: bool)
    ensures
        r == field_at(b@, p as int),
{
    if p >= b.len() || p + 1 >= b.len() || b[p] != 0x3C || !is_letter_byte(b[p + 1]) {
        return false;
    }
    let c = ident_run(b, p + 1);
    if c >= b.len() || b[c] != 0x3A {
        return false;
    }
    let d = digit_run(b, c + 1);
    if d <= c + 1 || d >= b.len() {
        return false;
    }
    if b[d] == 0x3A {
        if d + 1 >= b.len() || !is_ident(b[d + 1]) {
            return false;
        }
        let t = ident_run(b, d + 1);
        t < b.len() && b[t] == 0x3E
    } else {
        b[d] == 0x3E
    }
}

fn letter_matches(c: u8, lower: u8) -> (r: bool)
    requires
        0x61 <= lower <= 0x7A,
    ensures
        r == (c == lower || c + 0x20 == lower),
{
    c == lower || (c < 0xE0 && c + 0x20 == lower)
}

fn is_at_sentinel(b: &[u8], p: usize, t0: u8, t1: u8, t2: u8) -> (r: bool)
    requires
        0x61 <= t0 <= 0x7A,
        0x61 <= t1 <= 0x7A,
        0x61 <= t2 <= 0x7A,
    ensures
        r == sentinel_at(b@, p as int, t0, t1, t2),
{
    if p >= b.len() || b.len() - p < 5 {
        return false;
    }
    b[p] == 0x3C && letter_matches(b[p + 1], t0) && letter_matches(b[p + 2], t1)
        && letter_matches(b[p + 3], t2) && b[p + 4] == 0x3E
}

/// Whether `<eoh>`, in any letter case, starts at `p`.
pub fn is_at_eoh(b: &[u8], p: usize) -> (r: bool)
    ensures
        r == eoh_at(b@, p as int),
{
    is_at_sentinel(b, p, 0x65, 0x6F, 0x68)
}

/// Whether `<eor>`, in any letter case, starts at `p`.
pub fn is_at_eor(b: &[u8], p: usize) -> (r: bool)
    ensures
        r == eor_at(b@, p as int),
{
    is_at_sentinel(b, p, 0x65, 0x6F, 0x72)
}

pub fn is_at_stop(b: &[u8], p: usize, stop: TextStop) -> (r: bool)
    ensures
        r == stops_at(b@, p as int, stop),
{
    match stop {
        TextStop::FieldOrEoh => is_at_field(b, p) || is_at_eoh(b, p),
        TextStop::Token => is_at_field(b, p) || is_at_eor(b, p) || is_at_eoh(b, p),
        TextStop::Field => is_at_field(b, p),
    }
}

/// Reads free text from `i` up to the next stop or the end of the buffer.
pub fn scan_text(b: &[u8], i: usize, stop: TextStop) -> (r: usize)
    requires
        i <= b@.len(),
    ensures
        r as int == text_end(b@, i as int, stop),
        i <= r <= b@.len(),
        r < b@.len() ==> stops_at(b@, r as int, stop),
        forall|k: int| i <= k < r ==> !stops_at(b@, k, stop),
{
    let mut j = i;
    while j < b.len() && !is_at_stop(b, j, stop)
        invariant
            i <= j <= b@.len(),
            text_end(b@, j as int, stop) == text_end(b@, i as int, stop),
            forall|k: int| i <= k < j ==> !stops_at(b@, k, stop),
        decreases b@.len() - j,
    {
        j += 1;
    }
    j
}

} // verus!
