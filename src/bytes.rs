//! Byte-sequence helpers shared by the parser and the encoder.

use vstd::prelude::*;
use crate::text::push_char;

verus! {

/// Characters of an ASCII byte sequence, one per byte.
pub open spec fn ascii_chars(s: Seq<u8>) -> Seq<char> {
    s.map_values(|c: u8| c as char)
}

/// `u8::is_ascii_whitespace`: space, tab, line feed, form feed, carriage return.
pub open spec fn is_space_byte(c: u8) -> bool {
    c == 0x20 || c == 0x09 || c == 0x0A || c == 0x0C || c == 0x0D
}

/// Number of bytes that are not ASCII whitespace.
pub open spec fn non_space_count(s: Seq<u8>) -> nat
    decreases s.len(),
{
    if s.len() == 0 {
        0
    } else {
        non_space_count(s.drop_last()) + if is_space_byte(s.last()) {
            0nat
        } else {
            1nat
        }
    }
}

/// Value of a run of decimal digits.
pub open spec fn digits_value(s: Seq<u8>) -> nat
    decreases s.len(),
{
    if s.len() == 0 {
        0
    } else {
        digits_value(s.drop_last()) * 10 + (s.last() as int - 0x30) as nat
    }
}

/// A lead byte at `i` followed by as many continuation bytes as it announces.
pub open spec fn multibyte_at(b: Seq<u8>, i: int) -> bool {
    let n = if 0xC0 <= b[i] <= 0xDF {
        1int
    } else if 0xE0 <= b[i] <= 0xEF {
        2int
    } else if 0xF0 <= b[i] <= 0xF7 {
        3int
    } else {
        0int
    };
    &&& 0 <= i < b.len()
    &&& n > 0
    &&& i + n < b.len()
    &&& forall|j: int| i < j <= i + n ==> 0x80 <= #[trigger] b[j] <= 0xBF
}

/// Whether the bytes hold something shaped like a multi-byte UTF-8 sequence.
pub open spec fn has_multibyte(b: Seq<u8>) -> bool {
    exists|i: int| multibyte_at(b, i)
}

pub fn copy_range(b: &[u8], lo: usize, hi: usize) -> (r: Vec<u8>)
    requires
        lo <= hi <= b@.len(),
    ensures
        r@ == b@.subrange(lo as int, hi as int),
{
    let mut v: Vec<u8> = Vec::new();
    let mut i = lo;
    while i < hi
        invariant
            lo <= i <= hi <= b@.len(),
            v@ == b@.subrange(lo as int, i as int),
        decreases hi - i,
    {
        v.push(b[i]);
        i += 1;
        assert(v@ =~= b@.subrange(lo as int, i as int));
    }
    v
}

/// Appends `src` to `dst`.
pub fn append_bytes(dst: &mut Vec<u8>, src: &[u8])
    ensures
        final(dst)@ == old(dst)@ + src@,
{
    let mut i: usize = 0;
    while i < src.len()
        invariant
            i <= src@.len(),
            dst@ == old(dst)@ + src@.subrange(0, i as int),
        decreases src@.len() - i,
    {
        dst.push(src[i]);
        i += 1;
        assert(dst@ =~= old(dst)@ + src@.subrange(0, i as int));
    }
    assert(src@.subrange(0, src@.len() as int) =~= src@);
}

/// A string of the characters that the ASCII bytes `b[lo..hi]` stand for.
pub fn ascii_string(b: &[u8], lo: usize, hi: usize) -> (r: String)
    requires
        lo <= hi <= b@.len(),
    ensures
        r@ == ascii_chars(b@.subrange(lo as int, hi as int)),
{
    let mut s = String::new();
    let mut i = lo;
    while i < hi
        invariant
            lo <= i <= hi <= b@.len(),
            s@ == ascii_chars(b@.subrange(lo as int, i as int)),
        decreases hi - i,
    {
        push_char(&mut s, b[i] as char);
        i += 1;
        assert(s@ =~= ascii_chars(b@.subrange(lo as int, i as int)));
    }
    s
}

/// Counts the bytes of `b[lo..hi]` that are not ASCII whitespace.
pub fn count_non_space(b: &[u8], lo: usize, hi: usize) -> (r: usize)
    requires
        lo <= hi <= b@.len(),
    ensures
        r as nat == non_space_count(b@.subrange(lo as int, hi as int)),
{
    let mut n: usize = 0;
    let mut i = lo;
    while i < hi
        invariant
            lo <= i <= hi <= b@.len(),
            n as nat == non_space_count(b@.subrange(lo as int, i as int)),
            n <= i - lo,
        decreases hi - i,
    {
        let c = b[i];
        assert(b@.subrange(lo as int, i + 1 as int).drop_last() =~= b@.subrange(lo as int, i as int));
        if !(c == 0x20 || c == 0x09 || c == 0x0A || c == 0x0C || c == 0x0D) {
            n += 1;
        }
        i += 1;
    }
    n
}

/// Whether the bytes hold a multi-byte UTF-8 lead byte followed by its
/// continuation bytes.
pub fn has_utf8_sequences_in_bytes(b: &[u8]) -> (r: bool)
    ensures
        r == has_multibyte(b@),
{
    let mut i: usize = 0;
    while i < b.len()
        invariant
            i <= b@.len(),
            forall|k: int| 0 <= k < i ==> !multibyte_at(b@, k),
        decreases b@.len() - i,
    {
        let c = b[i];
        let n: usize = if 0xC0 <= c && c <= 0xDF {
            1
        } else if 0xE0 <= c && c <= 0xEF {
            2
        } else if 0xF0 <= c && c <= 0xF7 {
            3
        } else {
            0
        };
        if n > 0 && n < b.len() - i {
            let mut ok = true;
            let mut j: usize = 1;
            while j <= n
                invariant
                    1 <= j <= n + 1,
                    n <= 3,
                    i + n < b@.len(),
                    i < b@.len(),
                    b@.len() <= usize::MAX,
                    ok == (forall|k: int| i < k < i + j ==> 0x80 <= #[trigger] b@[k] <= 0xBF),
                decreases n + 1 - j,
            {
                let d = b[i + j];
                if !(0x80 <= d && d <= 0xBF) {
                    ok = false;
                }
                j += 1;
            }
            if ok {
                assert(multibyte_at(b@, i as int));
                return true;
            }
        }
        i += 1;
    }
    false
}

/// Parses a run of decimal digits; `None` when the value does not fit.
pub fn parse_digits(b: &[u8], lo: usize, hi: usize) -> (r: Option<usize>)
    requires
        lo <= hi <= b@.len(),
        forall|k: int| lo <= k < hi ==> 0x30 <= #[trigger] b@[k] <= 0x39,
    ensures
        r is Some <==> digits_value(b@.subrange(lo as int, hi as int)) <= usize::MAX,
        r is Some ==> r->0 as nat == digits_value(b@.subrange(lo as int, hi as int)),
{
    let mut v: usize = 0;
    let mut i = lo;
    while i < hi
        invariant
            lo <= i <= hi <= b@.len(),
            forall|k: int| lo <= k < hi ==> 0x30 <= #[trigger] b@[k] <= 0x39,
            v as nat == digits_value(b@.subrange(lo as int, i as int)),
        decreases hi - i,
    {
        let d = (b[i] - 0x30) as usize;
        assert(b@.subrange(lo as int, i + 1 as int).drop_last() =~= b@.subrange(lo as int, i as int));
        if v > (usize::MAX - d) / 10 {
            proof {
                lemma_digits_grow(b@.subrange(lo as int, hi as int), (i + 1 - lo) as int);
                assert(b@.subrange(lo as int, hi as int).subrange(0, (i + 1 - lo) as int)
                    =~= b@.subrange(lo as int, i + 1 as int));
            }
            return None;
        }
        v = v * 10 + d;
        i += 1;
    }
    Some(v)
}

proof fn lemma_digits_grow(s: Seq<u8>, k: int)
    requires
        0 <= k <= s.len(),
    ensures
        digits_value(s.subrange(0, k)) <= digits_value(s),
    decreases s.len() - k,
{
    if k < s.len() {
        lemma_digits_grow(s, k + 1);
        assert(s.subrange(0, k + 1).drop_last() =~= s.subrange(0, k));
    } else {
        assert(s.subrange(0, k) =~= s);
    }
}

} // verus!
