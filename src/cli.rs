//! Parsing of command-line values that the library owns the rules for.

use vstd::prelude::*;
use crate::chars::{is_whitespace_char, whitespace};
use crate::text::chars_of;

verus! {

/// Index of the first comma at or after `i`, or the length.
pub open spec fn comma_from(cs: Seq<char>, i: int) -> int
    decreases cs.len() - i,
{
    if 0 <= i < cs.len() && cs[i] != ',' {
        comma_from(cs, i + 1)
    } else {
        i
    }
}

/// `s` with leading and trailing white space removed, as `str::trim` does.
pub open spec fn trimmed(s: Seq<char>) -> Seq<char>
    decreases s.len(),
{
    if s.len() > 0 && whitespace(s[0]) {
        trimmed(s.subrange(1, s.len() as int))
    } else if s.len() > 0 && whitespace(s.last()) {
        trimmed(s.drop_last())
    } else {
        s
    }
}

pub open spec fn all_digits(s: Seq<char>) -> bool {
    forall|i: int| 0 <= i < s.len() ==> '0' <= #[trigger] s[i] <= '9'
}

pub open spec fn char_digits_value(s: Seq<char>) -> nat
    decreases s.len(),
{
    if s.len() == 0 {
        0
    } else {
        char_digits_value(s.drop_last()) * 10 + (s.last() as u32 - '0' as u32) as nat
    }
}

/// What `usize::from_str` accepts: an optional `+`, then one or more digits
/// whose value fits.
pub open spec fn parsed_index(t: Seq<char>) -> Option<usize> {
    let d = if t.len() > 0 && t[0] == '+' {
        t.subrange(1, t.len() as int)
    } else {
        t
    };
    if d.len() > 0 && all_digits(d) && char_digits_value(d) <= usize::MAX {
        Some(char_digits_value(d) as usize)
    } else {
        None
    }
}

/// The indices in the comma-separated entries from `i` on; entries that are
/// not a number are skipped.
pub open spec fn indices_from(cs: Seq<char>, i: int) -> Seq<usize>
    decreases cs.len() - i,
{
    let k = comma_from(cs, i);
    if i < 0 || k < i || k > cs.len() {
        seq![]
    } else {
        let here = match parsed_index(trimmed(cs.subrange(i, k))) {
            Some(v) => seq![v],
            None => seq![],
        };
        if k < cs.len() {
            here + indices_from(cs, k + 1)
        } else {
            here
        }
    }
}

fn trim_chars(cs: &[char], lo: usize, hi: usize) -> (r: (usize, usize))
    requires
        lo <= hi <= cs@.len(),
    ensures
        lo <= r.0 <= r.1 <= hi,
        cs@.subrange(r.0 as int, r.1 as int) == trimmed(cs@.subrange(lo as int, hi as int)),
{
    let mut a = lo;
    let mut b = hi;
    while a < b && is_whitespace_char(cs[a])
        invariant
            lo <= a <= b <= hi <= cs@.len(),
            trimmed(cs@.subrange(a as int, b as int)) == trimmed(cs@.subrange(lo as int, hi as int)),
        decreases b - a,
    {
        assert(cs@.subrange(a as int, b as int).subrange(1, (b - a) as int) =~= cs@.subrange(a + 1, b as int));
        a += 1;
    }
    while a < b && is_whitespace_char(cs[b - 1])
        invariant
            lo <= a <= b <= hi <= cs@.len(),
            trimmed(cs@.subrange(a as int, b as int)) == trimmed(cs@.subrange(lo as int, hi as int)),
            a < b ==> !whitespace(cs@[a as int]),
        decreases b - a,
    {
        assert(cs@.subrange(a as int, b as int).drop_last() =~= cs@.subrange(a as int, b - 1));
        assert(cs@.subrange(a as int, b as int)[0] == cs@[a as int]);
        b -= 1;
    }
    proof {
        let s = cs@.subrange(a as int, b as int);
        if s.len() > 0 {
            assert(s[0] == cs@[a as int]);
            assert(s.last() == cs@[b - 1]);
        }
    }
    (a, b)
}

fn parse_index(cs: &[char], lo: usize, hi: usize) -> (r: Option<usize>)
    requires
        lo <= hi <= cs@.len(),
    ensures
        r == parsed_index(cs@.subrange(lo as int, hi as int)),
{
    let ghost t = cs@.subrange(lo as int, hi as int);
    let mut start = lo;
    if lo < hi && cs[lo] == '+' {
        start = lo + 1;
    }
    assert(cs@.subrange(start as int, hi as int) =~= if t.len() > 0 && t[0] == '+' {
        t.subrange(1, t.len() as int)
    } else {
        t
    });
    if start >= hi {
        return None;
    }
    let mut v: usize = 0;
    let mut fits = true;
    let mut i = start;
    while i < hi
        invariant
            start <= i <= hi <= cs@.len(),
            start < hi,
            t == cs@.subrange(lo as int, hi as int),
            cs@.subrange(start as int, hi as int) == (if t.len() > 0 && t[0] == '+' {
                t.subrange(1, t.len() as int)
            } else {
                t
            }),
            forall|k: int| start <= k < i ==> '0' <= #[trigger] cs@[k] <= '9',
            fits ==> v as nat == char_digits_value(cs@.subrange(start as int, i as int)),
            !fits ==> char_digits_value(cs@.subrange(start as int, i as int)) > usize::MAX,
        decreases hi - i,
    {
        let c = cs[i];
        if !('0' <= c && c <= '9') {
            assert(!all_digits(cs@.subrange(start as int, hi as int))) by {
                assert(cs@.subrange(start as int, hi as int)[i - start] == c);
            }
            return None;
        }
        let d = (c as u32 - '0' as u32) as usize;
        assert(cs@.subrange(start as int, i + 1 as int).drop_last() =~= cs@.subrange(start as int, i as int));
        if fits {
            if v > (usize::MAX - d) / 10 {
                fits = false;
            } else {
                v = v * 10 + d;
            }
        } else {
            assert(char_digits_value(cs@.subrange(start as int, i + 1 as int)) >= char_digits_value(
                cs@.subrange(start as int, i as int),
            )) by (nonlinear_arith)
                requires
                    char_digits_value(cs@.subrange(start as int, i + 1 as int))
                        == char_digits_value(cs@.subrange(start as int, i as int)) * 10 + d,
            {}
        }
        i += 1;
    }
    assert(all_digits(cs@.subrange(start as int, hi as int)));
    if fits {
        Some(v)
    } else {
        None
    }
}

/// The record indices in a comma-separated list such as `"0, 3,7"`; entries
/// that are not a number are skipped.
pub fn record_indices(list: &str) -> (r: Vec<usize>)
    ensures
        r@ == indices_from(list@, 0),
{
    let cs = chars_of(list);
    let mut out: Vec<usize> = Vec::new();
    let mut i: usize = 0;
    loop
        invariant
            cs@ == list@,
            i <= cs@.len(),
            out@ + indices_from(cs@, i as int) == indices_from(cs@, 0),
        decreases cs@.len() - i,
    {
        let mut k = i;
        while k < cs.len() && cs[k] != ','
            invariant
                i <= k <= cs@.len(),
                comma_from(cs@, k as int) == comma_from(cs@, i as int),
            decreases cs@.len() - k,
        {
            k += 1;
        }
        let ghost before = out@;
        let (a, b) = trim_chars(cs.as_slice(), i, k);
        match parse_index(cs.as_slice(), a, b) {
            Some(v) => out.push(v),
            None => {},
        }
        if k >= cs.len() {
            assert(out@ =~= before + indices_from(cs@, i as int));
            return out;
        }
        assert(out@ + indices_from(cs@, k + 1) =~= before + indices_from(cs@, i as int));
        i = k + 1;
    }
}

} // verus!
