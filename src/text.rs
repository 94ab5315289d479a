//! Character-level helpers: UTF-8 scalar scanning and the small pieces of
//! std that building strings needs.

use vstd::prelude::*;
use vstd::utf8::*;
use vstd::std_specs::iter::IteratorSpec;

verus! {

/// Relies on `String::push`: appends one character to the string.
#[verifier::external_body]
pub(crate) fn push_char(s: &mut String, c: char)
    ensures
        final(s)@ == old(s)@.push(c),
{
    s.push(c);
}

/// The characters of the string, in order.
pub(crate) fn chars_of(s: &str) -> (r: Vec<char>)
    ensures
        r@ == s@,
{
    broadcast use vstd::string::group_string_axioms;

    let mut it = s.chars();
    let mut out: Vec<char> = Vec::new();
    loop
        invariant
            it.obeys_prophetic_iter_laws(),
            out@ + it.remaining() == s@,
        decreases s@.len() - out@.len(),
    {
        let ghost rem = it.remaining();
        match it.next() {
            Some(c) => {
                let ghost before = out@;
                out.push(c);
                assert(out@ + it.remaining() =~= before + rem);
            },
            None => {
                assert(out@ + Seq::<char>::empty() =~= out@);
                return out;
            },
        }
    }
}

/// Relies on `char::from_u32`: `Some` exactly for Unicode scalar values.
#[verifier::external_body]
pub(crate) fn char_from_u32(v: u32) -> (r: Option<char>)
    ensures
        r is Some <==> is_scalar(v),
        r is Some ==> r->0 == v as char,
{
    char::from_u32(v)
}

/// Builds a string from a sequence of characters.
pub fn string_from_chars(cs: &[char]) -> (r: String)
    ensures
        r@ == cs@,
{
    let mut s = String::new();
    let mut i: usize = 0;
    while i < cs.len()
        invariant
            i <= cs@.len(),
            s@ == cs@.subrange(0, i as int),
        decreases cs@.len() - i,
    {
        push_char(&mut s, cs[i]);
        i += 1;
        assert(s@ =~= cs@.subrange(0, i as int));
    }
    assert(cs@.subrange(0, cs@.len() as int) =~= cs@);
    s
}

/// The replacement character that stands for a byte which starts no valid
/// UTF-8 scalar.
pub open spec fn replacement() -> char {
    '\u{FFFD}'
}

pub open spec fn is_cont(x: u8) -> bool {
    0x80 <= x <= 0xBF
}

/// Whether the second byte can follow the first in a well-formed scalar.
pub open spec fn second_fits(b0: u8, b1: u8) -> bool {
    if b0 == 0xE0 {
        0xA0 <= b1 <= 0xBF
    } else if (0xE1 <= b0 <= 0xEC) || b0 == 0xEE || b0 == 0xEF {
        is_cont(b1)
    } else if b0 == 0xED {
        0x80 <= b1 <= 0x9F
    } else if b0 == 0xF0 {
        0x90 <= b1 <= 0xBF
    } else if 0xF1 <= b0 <= 0xF3 {
        is_cont(b1)
    } else if b0 == 0xF4 {
        0x80 <= b1 <= 0x8F
    } else {
        false
    }
}

/// Length of the maximal ill-formed subsequence at the start of `b`, which
/// starts no well-formed scalar: the longest prefix of a well-formed
/// sequence there, at least one byte.
pub open spec fn invalid_len(b: Seq<u8>) -> int {
    if b.len() > 1 && second_fits(b[0], b[1]) {
        if 0xF0 <= b[0] <= 0xF4 && b.len() > 2 && is_cont(b[2]) {
            3
        } else {
            2
        }
    } else {
        1
    }
}

/// Number of bytes that one lenient decoding step consumes at the start of
/// `b`: the whole scalar when one is encoded there, else the maximal
/// ill-formed subsequence.
pub open spec fn step_len(b: Seq<u8>) -> int {
    if valid_first_scalar(b) {
        length_of_first_scalar(b)
    } else {
        invalid_len(b)
    }
}

/// The character that one lenient decoding step yields at the start of `b`.
pub open spec fn step_char(b: Seq<u8>) -> char {
    if valid_first_scalar(b) {
        decode_first_scalar(b) as char
    } else {
        replacement()
    }
}

/// Lenient UTF-8 decoding, as `String::from_utf8_lossy` does it: every
/// well-formed scalar becomes its character, every maximal ill-formed
/// subsequence one replacement character.
pub open spec fn lenient_chars(b: Seq<u8>) -> Seq<char>
    decreases b.len(),
{
    if b.len() == 0 {
        seq![]
    } else {
        let n = step_len(b);
        if 1 <= n <= b.len() {
            seq![step_char(b)] + lenient_chars(b.subrange(n, b.len() as int))
        } else {
            seq![]
        }
    }
}

/// Where the first `n` leniently decoded characters of `b` end, if `b`
/// holds that many.
pub open spec fn char_span(b: Seq<u8>, n: nat) -> Option<int>
    decreases n,
{
    if n == 0 {
        Some(0)
    } else if b.len() == 0 {
        None
    } else {
        let k = step_len(b);
        if 1 <= k <= b.len() {
            match char_span(b.subrange(k, b.len() as int), (n - 1) as nat) {
                Some(e) => Some(k + e),
                None => None,
            }
        } else {
            None
        }
    }
}

/// A decoded character with the number of bytes that encoded it.
pub struct Scalar {
    pub ch: char,
    pub width: usize,
}

/// Tests whether a well-formed scalar is encoded at `b[i..]`, and returns it
/// with its length in bytes.
pub fn scalar_at(b: &[u8], i: usize) -> (r: Option<Scalar>)
    requires
        i < b@.len(),
    ensures
        r is Some <==> valid_first_scalar(b@.subrange(i as int, b@.len() as int)),
        r is Some ==> r->0.ch == decode_first_scalar(b@.subrange(i as int, b@.len() as int)) as char
            && r->0.width as int == length_of_first_scalar(b@.subrange(i as int, b@.len() as int)),
{
    let ghost s = b@.subrange(i as int, b@.len() as int);
    let n = b.len() - i;
    let b0 = b[i];
    let cp: u32;
    let w: usize;
    if b0 <= 0x7f {
        cp = (b0 & 0x7F) as u32;
        assert((b0 & 0x7F) as u32 <= 0x7F) by (bit_vector);
        w = 1;
    } else if 0xc0 <= b0 && b0 <= 0xdf {
        if n < 2 || !(0x80 <= b[i + 1] && b[i + 1] <= 0xbf) {
            return None;
        }
        let b1 = b[i + 1];
        cp = (((b0 & 0x1F) as u32) << 6) | ((b1 & 0x3f) as u32);
        assert((((b0 & 0x1F) as u32) << 6) | ((b1 & 0x3f) as u32) <= 0x7FF) by (bit_vector);
        w = 2;
    } else if 0xe0 <= b0 && b0 <= 0xef {
        if n < 3 || !(0x80 <= b[i + 1] && b[i + 1] <= 0xbf) || !(0x80 <= b[i + 2] && b[i + 2]
            <= 0xbf) {
            return None;
        }
        let b1 = b[i + 1];
        let b2 = b[i + 2];
        cp = (((b0 & 0x0F) as u32) << 12) | (((b1 & 0x3f) as u32) << 6) | ((b2 & 0x3f) as u32);
        assert((((b0 & 0x0F) as u32) << 12) | (((b1 & 0x3f) as u32) << 6) | ((b2 & 0x3f) as u32)
            <= 0xFFFF) by (bit_vector);
        w = 3;
    } else if 0xf0 <= b0 && b0 <= 0xf7 {
        if n < 4 || !(0x80 <= b[i + 1] && b[i + 1] <= 0xbf) || !(0x80 <= b[i + 2] && b[i + 2]
            <= 0xbf) || !(0x80 <= b[i + 3] && b[i + 3] <= 0xbf) {
            return None;
        }
        cp = (((b0 & 0x07) as u32) << 18) | (((b[i + 1] & 0x3f) as u32) << 12) | (((b[i + 2]
            & 0x3f) as u32) << 6) | ((b[i + 3] & 0x3f) as u32);
        w = 4;
    } else {
        return None;
    }
    assert(cp == decode_first_codepoint(s));
    assert(w as int == length_of_first_codepoint(s));
    if w == 2 && cp < 0x80 {
        return None;
    }
    if w == 3 && cp < 0x800 {
        return None;
    }
    if w == 4 && !(0x10000 <= cp && cp <= 0x10ffff) {
        return None;
    }
    if 0xD800 <= cp && cp <= 0xDFFF {
        return None;
    }
    match char_from_u32(cp) {
        Some(c) => Some(Scalar { ch: c, width: w }),
        None => None,
    }
}

/// One lenient step on a prefix that holds the whole step behaves as on the
/// full sequence.
proof fn lemma_step_prefix(s: Seq<u8>, m: int)
    requires
        s.len() > 0,
        step_len(s) <= m <= s.len(),
        m >= 1,
    ensures
        step_len(s.subrange(0, m)) == step_len(s),
        step_char(s.subrange(0, m)) == step_char(s),
{
    let t = s.subrange(0, m);
    assert(t.len() == m);
    assert(t[0] == s[0]);
    if m >= 2 {
        assert(t[1] == s[1]);
    }
    if m >= 3 {
        assert(t[2] == s[2]);
    }
    if m >= 4 {
        assert(t[3] == s[3]);
    }
}

/// Where the walk of `n` lenient characters ends, the prefix it covers
/// decodes to exactly `n` characters, and walking that prefix alone covers it
/// whole.
pub proof fn lemma_span_prefix(s: Seq<u8>, n: nat)
    requires
        char_span(s, n) is Some,
    ensures
        0 <= char_span(s, n)->0 <= s.len(),
        char_span(s.subrange(0, char_span(s, n)->0), n) == char_span(s, n),
        lenient_chars(s.subrange(0, char_span(s, n)->0)).len() == n,
    decreases n,
{
    if n == 0 {
        assert(s.subrange(0, 0) =~= Seq::<u8>::empty());
    } else {
        let st = step_len(s);
        let r = s.subrange(st, s.len() as int);
        lemma_span_prefix(r, (n - 1) as nat);
        let e = char_span(r, (n - 1) as nat)->0;
        let k = st + e;
        let t = s.subrange(0, k);
        lemma_step_prefix(s, k);
        assert(t.subrange(st, t.len() as int) =~= r.subrange(0, e));
    }
}

/// The length of the maximal ill-formed subsequence at `b[i..]`.
pub fn invalid_len_at(b: &[u8], i: usize) -> (r: usize)
    requires
        i < b@.len(),
    ensures
        r as int == invalid_len(b@.subrange(i as int, b@.len() as int)),
{
    let ghost s = b@.subrange(i as int, b@.len() as int);
    let n = b.len() - i;
    let b0 = b[i];
    if n < 2 {
        return 1;
    }
    let b1 = b[i + 1];
    let fits = if b0 == 0xE0 {
        0xA0 <= b1 && b1 <= 0xBF
    } else if (0xE1 <= b0 && b0 <= 0xEC) || b0 == 0xEE || b0 == 0xEF {
        0x80 <= b1 && b1 <= 0xBF
    } else if b0 == 0xED {
        0x80 <= b1 && b1 <= 0x9F
    } else if b0 == 0xF0 {
        0x90 <= b1 && b1 <= 0xBF
    } else if 0xF1 <= b0 && b0 <= 0xF3 {
        0x80 <= b1 && b1 <= 0xBF
    } else if b0 == 0xF4 {
        0x80 <= b1 && b1 <= 0x8F
    } else {
        false
    };
    assert(s[0] == b0 && s[1] == b1);
    if !fits {
        return 1;
    }
    if 0xF0 <= b0 && b0 <= 0xF4 && n > 2 && 0x80 <= b[i + 2] && b[i + 2] <= 0xBF {
        assert(s[2] == b@[i + 2]);
        3
    } else {
        proof {
            if n > 2 {
                assert(s[2] == b@[i + 2]);
            }
        }
        2
    }
}

/// Lenient UTF-8 decoding of `b`.
pub fn lenient_decode(b: &[u8]) -> (r: String)
    ensures
        r@ == lenient_chars(b@),
{
    let mut s = String::new();
    let mut i: usize = 0;
    assert(b@.subrange(0, b@.len() as int) =~= b@);
    while i < b.len()
        invariant
            i <= b@.len(),
            s@ + lenient_chars(b@.subrange(i as int, b@.len() as int)) == lenient_chars(b@),
        decreases b@.len() - i,
    {
        let ghost rest = b@.subrange(i as int, b@.len() as int);
        let ghost old_s = s@;
        let w: usize;
        match scalar_at(b, i) {
            Some(sc) => {
                push_char(&mut s, sc.ch);
                w = sc.width;
            },
            None => {
                push_char(&mut s, '\u{FFFD}');
                w = invalid_len_at(b, i);
            },
        }
        assert(w as int == step_len(rest));
        assert(rest.subrange(w as int, rest.len() as int) =~= b@.subrange(i + w, b@.len() as int));
        assert(s@ == old_s.push(step_char(rest)));
        assert(lenient_chars(rest) == seq![step_char(rest)] + lenient_chars(rest.subrange(w as int, rest.len() as int)));
        assert(s@ + lenient_chars(b@.subrange(i + w, b@.len() as int)) =~= old_s + lenient_chars(rest));
        i += w;
    }
    assert(b@.subrange(i as int, b@.len() as int) =~= Seq::<u8>::empty());
    assert(s@ =~= s@ + Seq::<char>::empty());
    s
}

/// Walks `n` lenient characters forward from `start`; the offset where they
/// end, or `None` when the buffer ends first.
pub fn char_walk(b: &[u8], start: usize, n: usize) -> (r: Option<usize>)
    requires
        start <= b@.len(),
    ensures
        match char_span(b@.subrange(start as int, b@.len() as int), n as nat) {
            Some(k) => r == Some((start + k) as usize),
            None => r is None,
        },
{
    let mut pos = start;
    let mut c: usize = 0;
    while c < n
        invariant
            start <= pos <= b@.len(),
            c <= n,
            char_span(b@.subrange(start as int, b@.len() as int), n as nat) == match char_span(
                b@.subrange(pos as int, b@.len() as int),
                (n - c) as nat,
            ) {
                Some(e) => Some(e + pos - start),
                None => None,
            },
        decreases n - c,
    {
        let ghost rest = b@.subrange(pos as int, b@.len() as int);
        if pos >= b.len() {
            return None;
        }
        let w: usize = match scalar_at(b, pos) {
            Some(sc) => sc.width,
            None => invalid_len_at(b, pos),
        };
        assert(w as int == step_len(rest));
        assert(rest.subrange(w as int, rest.len() as int) =~= b@.subrange(pos + w, b@.len() as int));
        pos += w;
        c += 1;
    }
    assert(char_span(b@.subrange(pos as int, b@.len() as int), 0) == Some(0int));
    Some(pos)
}

} // verus!
