//! Character classes and exact UTF-8 decoding of byte runs.

use vstd::prelude::*;
use vstd::utf8::{decode_first_scalar, decode_utf8, pop_first_scalar, valid_utf8};
use crate::text::scalar_at;

verus! {

/// What `char::is_alphabetic` returns: the Unicode `Alphabetic` property.
pub uninterp spec fn alphabetic(c: char) -> bool;

/// What `char::is_numeric` returns: general categories Nd, Nl and No.
pub uninterp spec fn numeric(c: char) -> bool;

/// Relies on `char::is_alphabetic`.
#[verifier::external_body]
pub(crate) fn char_is_alphabetic(c: char) -> (r: bool)
    ensures
        r == alphabetic(c),
{
    c.is_alphabetic()
}

/// Relies on `char::is_numeric`.
#[verifier::external_body]
pub(crate) fn char_is_numeric(c: char) -> (r: bool)
    ensures
        r == numeric(c),
{
    c.is_numeric()
}

/// The Unicode `White_Space` characters, which `char::is_whitespace` tests.
pub open spec fn whitespace(c: char) -> bool {
    let v = c as u32;
    (0x09 <= v <= 0x0D) || v == 0x20 || v == 0x85 || v == 0xA0 || v == 0x1680 || (0x2000 <= v
        <= 0x200A) || v == 0x2028 || v == 0x2029 || v == 0x202F || v == 0x205F || v == 0x3000
}

pub fn is_whitespace_char(c: char) -> (r: bool)
    ensures
        r == whitespace(c),
{
    let v = c as u32;
    (0x09 <= v && v <= 0x0D) || v == 0x20 || v == 0x85 || v == 0xA0 || v == 0x1680 || (0x2000
        <= v && v <= 0x200A) || v == 0x2028 || v == 0x2029 || v == 0x202F || v == 0x205F || v
        == 0x3000
}

/// Every character is at most U+00FF, so it can stand for one byte.
pub open spec fn all_latin1(cs: Seq<char>) -> bool {
    forall|i: int| 0 <= i < cs.len() ==> (#[trigger] cs[i]) as u32 <= 0xFF
}

/// The bytes that characters up to U+00FF stand for, one each.
pub open spec fn latin1_bytes(cs: Seq<char>) -> Seq<u8> {
    cs.map_values(|c: char| (c as u32) as u8)
}

/// The bytes that `cs` stands for, or `None` when a character is above U+00FF.
pub fn to_latin1(cs: &[char]) -> (r: Option<Vec<u8>>)
    ensures
        r is Some <==> all_latin1(cs@),
        r is Some ==> r->0@ == latin1_bytes(cs@),
{
    let mut v: Vec<u8> = Vec::new();
    let mut i: usize = 0;
    while i < cs.len()
        invariant
            i <= cs@.len(),
            forall|k: int| 0 <= k < i ==> (#[trigger] cs@[k]) as u32 <= 0xFF,
            v@ == latin1_bytes(cs@.subrange(0, i as int)),
        decreases cs@.len() - i,
    {
        let c = cs[i] as u32;
        if c > 0xFF {
            return None;
        }
        v.push(c as u8);
        i += 1;
        assert(v@ =~= latin1_bytes(cs@.subrange(0, i as int)));
    }
    assert(cs@.subrange(0, cs@.len() as int) =~= cs@);
    Some(v)
}

/// Decodes bytes that must be well-formed UTF-8 throughout; `None` otherwise.
pub fn decode_utf8_exact(b: &[u8]) -> (r: Option<Vec<char>>)
    ensures
        r is Some <==> valid_utf8(b@),
        r is Some ==> r->0@ == decode_utf8(b@),
{
    let mut out: Vec<char> = Vec::new();
    let mut i: usize = 0;
    assert(b@.subrange(0, b@.len() as int) =~= b@);
    while i < b.len()
        invariant
            i <= b@.len(),
            valid_utf8(b@) <==> valid_utf8(b@.subrange(i as int, b@.len() as int)),
            valid_utf8(b@) ==> out@ + decode_utf8(b@.subrange(i as int, b@.len() as int))
                == decode_utf8(b@),
        decreases b@.len() - i,
    {
        let ghost rest = b@.subrange(i as int, b@.len() as int);
        match scalar_at(b, i) {
            Some(sc) => {
                let ghost before = out@;
                assert(pop_first_scalar(rest) =~= b@.subrange(i + sc.width, b@.len() as int));
                out.push(sc.ch);
                proof {
                    if valid_utf8(b@) {
                        assert(decode_utf8(rest) == seq![decode_first_scalar(rest) as char]
                            + decode_utf8(pop_first_scalar(rest)));
                        assert(out@ + decode_utf8(pop_first_scalar(rest)) =~= before
                            + decode_utf8(rest));
                    }
                }
                i += sc.width;
            },
            None => {
                return None;
            },
        }
    }
    assert(b@.subrange(i as int, b@.len() as int) =~= Seq::<u8>::empty());
    assert(out@ + Seq::<char>::empty() =~= out@);
    Some(out)
}

} // verus!
