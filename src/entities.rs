//! Expansion of character references: HTML named entities, decimal
//! (`&#65;`), hex (`&#x41;`) and the format's own hex form (`&0x41;`).

use vstd::prelude::*;
use crate::text::{chars_of, char_from_u32, string_from_chars};

verus! {

/// What `htmlescape::decode_html` returns: the decoded text, or `None` where
/// it reports a malformed or unknown entity.
pub uninterp spec fn html_decoded(s: Seq<char>) -> Option<Seq<char>>;

/// Relies on `htmlescape::decode_html`, here given one named entity such as
/// `&amp;`: its character, or an error for a name it does not know.
#[verifier::external_body]
fn decode_html(s: &str) -> (r: Option<String>)
    ensures
        match html_decoded(s@) {
            Some(t) => r is Some && r->0@ == t,
            None => r is None,
        },
{
    htmlescape::decode_html(s).ok()
}

pub open spec fn is_alpha(c: char) -> bool {
    ('a' <= c <= 'z') || ('A' <= c <= 'Z')
}

pub open spec fn is_alnum(c: char) -> bool {
    is_alpha(c) || ('0' <= c <= '9')
}

/// First index at or after `j` that does not hold a letter or digit.
pub open spec fn alnum_end(cs: Seq<char>, j: int) -> int
    decreases cs.len() - j,
{
    if 0 <= j < cs.len() && is_alnum(cs[j]) {
        alnum_end(cs, j + 1)
    } else {
        j
    }
}

/// A named reference `&name;` at `i` that htmlescape knows: its text and the
/// index after the `;`.
pub open spec fn named_at(cs: Seq<char>, i: int) -> Option<(Seq<char>, int)> {
    let e = alnum_end(cs, i + 1);
    if 0 <= i && i + 1 < e < cs.len() && cs[i] == '&' && is_alpha(cs[i + 1]) && cs[e] == ';' {
        match html_decoded(cs.subrange(i, e + 1)) {
            Some(t) => Some((t, e + 1)),
            None => None,
        }
    } else {
        None
    }
}

/// The value of a digit in base 10 or 16.
pub open spec fn digit_value(c: char, base: nat) -> Option<nat> {
    if '0' <= c <= '9' {
        Some((c as u32 - '0' as u32) as nat)
    } else if base == 16 && 'a' <= c <= 'f' {
        Some((c as u32 - 'a' as u32 + 10) as nat)
    } else if base == 16 && 'A' <= c <= 'F' {
        Some((c as u32 - 'A' as u32 + 10) as nat)
    } else {
        None
    }
}

/// First index at or after `j` that does not hold a digit of the base.
pub open spec fn digit_run_end(cs: Seq<char>, j: int, base: nat) -> int
    decreases cs.len() - j,
{
    if 0 <= j < cs.len() && digit_value(cs[j], base) is Some {
        digit_run_end(cs, j + 1, base)
    } else {
        j
    }
}

/// Value of the digits `cs[lo..hi]` in the base.
pub open spec fn run_value(cs: Seq<char>, lo: int, hi: int, base: nat) -> nat
    decreases hi - lo,
{
    if hi <= lo {
        0
    } else {
        run_value(cs, lo, hi - 1, base) * base + match digit_value(cs[hi - 1], base) {
            Some(d) => d,
            None => 0,
        }
    }
}

/// Where the digits of a reference at `i` start, and their base: after
/// `&#x`, `&0x` (hex) or `&#` (decimal).
pub open spec fn reference_digits(cs: Seq<char>, i: int) -> Option<(int, nat)> {
    if 0 <= i && i + 2 < cs.len() && cs[i] == '&' {
        if cs[i + 1] == '#' && cs[i + 2] == 'x' {
            Some((i + 3, 16))
        } else if cs[i + 1] == '0' && cs[i + 2] == 'x' {
            Some((i + 3, 16))
        } else if cs[i + 1] == '#' {
            Some((i + 2, 10))
        } else {
            None
        }
    } else {
        None
    }
}

/// A numeric reference at `i` whose value fits `u32` and is a Unicode scalar:
/// the character and the index after the `;`.
pub open spec fn reference_at(cs: Seq<char>, i: int) -> Option<(char, int)> {
    match reference_digits(cs, i) {
        Some(db) => {
            let d = db.0;
            let base = db.1;
            let e = digit_run_end(cs, d, base);
            let v = run_value(cs, d, e, base);
            if d < e < cs.len() && cs[e] == ';' && v <= u32::MAX && vstd::utf8::is_scalar(
                v as u32,
            ) {
                Some(((v as u32) as char, e + 1))
            } else {
                None
            }
        },
        None => None,
    }
}

/// The text from `i` on with every numeric reference and every known named
/// reference replaced; anything else is kept as written.
pub open spec fn references_expanded(cs: Seq<char>, i: int) -> Seq<char>
    decreases cs.len() - i,
{
    if i < 0 || i >= cs.len() {
        seq![]
    } else {
        match reference_at(cs, i) {
            Some(ce) => if i < ce.1 <= cs.len() {
                seq![ce.0] + references_expanded(cs, ce.1)
            } else {
                seq![]
            },
            None => match named_at(cs, i) {
                Some(te) => if i < te.1 <= cs.len() {
                    te.0 + references_expanded(cs, te.1)
                } else {
                    seq![]
                },
                None => seq![cs[i]] + references_expanded(cs, i + 1),
            },
        }
    }
}

pub open spec fn entities_decoded(s: Seq<char>) -> Seq<char> {
    references_expanded(s, 0)
}

fn digit_of(c: char, base: u32) -> (r: Option<u32>)
    requires
        base == 10 || base == 16,
    ensures
        match digit_value(c, base as nat) {
            Some(d) => r == Some(d as u32),
            None => r is None,
        },
        r is Some ==> r->0 < base,
{
    if '0' <= c && c <= '9' {
        Some(c as u32 - '0' as u32)
    } else if base == 16 && 'a' <= c && c <= 'f' {
        Some(c as u32 - 'a' as u32 + 10)
    } else if base == 16 && 'A' <= c && c <= 'F' {
        Some(c as u32 - 'A' as u32 + 10)
    } else {
        None
    }
}

proof fn lemma_run_value_grows(cs: Seq<char>, lo: int, k: int, hi: int, base: nat)
    requires
        lo <= k <= hi,
        base >= 1,
    ensures
        run_value(cs, lo, k, base) <= run_value(cs, lo, hi, base),
    decreases hi - k,
{
    if k < hi {
        lemma_run_value_grows(cs, lo, k, hi - 1, base);
        assert(run_value(cs, lo, hi - 1, base) <= run_value(cs, lo, hi - 1, base) * base) by (nonlinear_arith)
            requires base >= 1;
    }
}

/// A referenced character and the index just past its reference.
struct Reference {
    ch: char,
    end: usize,
}

/// The numeric reference at `i`, if one is there.
fn reference_at_exec(cs: &[char], i: usize) -> (r: Option<Reference>)
    requires
        i < cs@.len(),
    ensures
        match reference_at(cs@, i as int) {
            Some(ce) => r is Some && r->0.ch == ce.0 && r->0.end as int == ce.1,
            None => r is None,
        },
{
    if !(cs.len() - i > 2 && cs[i] == '&') {
        return None;
    }
    let d: usize;
    let base: u32;
    if cs[i + 1] == '#' && cs[i + 2] == 'x' {
        d = i + 3;
        base = 16;
    } else if cs[i + 1] == '0' && cs[i + 2] == 'x' {
        d = i + 3;
        base = 16;
    } else if cs[i + 1] == '#' {
        d = i + 2;
        base = 10;
    } else {
        return None;
    }
    let mut e = d;
    let mut v: u64 = 0;
    let mut fits = true;
    while e < cs.len() && digit_of(cs[e], base).is_some()
        invariant
            d <= e <= cs@.len(),
            base == 10 || base == 16,
            digit_run_end(cs@, e as int, base as nat) == digit_run_end(cs@, d as int, base as nat),
            fits ==> v as nat == run_value(cs@, d as int, e as int, base as nat),
            fits ==> v <= u32::MAX,
            !fits ==> run_value(cs@, d as int, e as int, base as nat) > u32::MAX,
        decreases cs@.len() - e,
    {
        let dv = digit_of(cs[e], base).unwrap();
        proof {
            lemma_run_value_grows(cs@, d as int, e as int, e + 1, base as nat);
        }
        if fits {
            let nv = v * (base as u64) + dv as u64;
            if nv > u32::MAX as u64 {
                fits = false;
            } else {
                v = nv;
            }
        }
        e += 1;
    }
    if !(d < e && e < cs.len() && cs[e] == ';') || !fits {
        return None;
    }
    match char_from_u32(v as u32) {
        Some(c) => Some(Reference { ch: c, end: e + 1 }),
        None => None,
    }
}

/// The named reference at `i`, if htmlescape knows it.
fn named_at_exec(cs: &[char], i: usize) -> (r: Option<(String, usize)>)
    requires
        i < cs@.len(),
    ensures
        match named_at(cs@, i as int) {
            Some(te) => r matches Some((t, e)) && t@ == te.0 && e as int == te.1,
            None => r is None,
        },
{
    if !(cs.len() - i > 1 && cs[i] == '&' && (('a' <= cs[i + 1] && cs[i + 1] <= 'z') || ('A'
        <= cs[i + 1] && cs[i + 1] <= 'Z'))) {
        return None;
    }
    let mut e = i + 1;
    while e < cs.len() && (('a' <= cs[e] && cs[e] <= 'z') || ('A' <= cs[e] && cs[e] <= 'Z') || (
    '0' <= cs[e] && cs[e] <= '9'))
        invariant
            i + 1 <= e <= cs@.len(),
            alnum_end(cs@, e as int) == alnum_end(cs@, i + 1),
        decreases cs@.len() - e,
    {
        e += 1;
    }
    if !(e > i + 1 && e < cs.len() && cs[e] == ';') {
        return None;
    }
    let window = &cs[i..e + 1];
    assert(window@ =~= cs@.subrange(i as int, e + 1));
    let token = string_from_chars(window);
    match decode_html(token.as_str()) {
        Some(t) => Some((t, e + 1)),
        None => None,
    }
}

/// Replaces every numeric reference and known named reference.
fn expand_references(cs: &[char]) -> (r: Vec<char>)
    ensures
        r@ == references_expanded(cs@, 0),
{
    let mut out: Vec<char> = Vec::new();
    let mut i: usize = 0;
    while i < cs.len()
        invariant
            i <= cs@.len(),
            out@ + references_expanded(cs@, i as int) == references_expanded(cs@, 0),
        decreases cs@.len() - i,
    {
        let ghost before = out@;
        match reference_at_exec(cs, i) {
            Some(ce) => {
                out.push(ce.ch);
                assert(out@ + references_expanded(cs@, ce.end as int) =~= before
                    + references_expanded(cs@, i as int));
                i = ce.end;
            },
            None => match named_at_exec(cs, i) {
                Some((t, e)) => {
                    let tc = chars_of(t.as_str());
                    let mut k: usize = 0;
                    while k < tc.len()
                        invariant
                            k <= tc@.len(),
                            out@ == before + tc@.subrange(0, k as int),
                        decreases tc@.len() - k,
                    {
                        out.push(tc[k]);
                        k += 1;
                        assert(out@ =~= before + tc@.subrange(0, k as int));
                    }
                    assert(tc@.subrange(0, tc@.len() as int) =~= tc@);
                    assert(out@ + references_expanded(cs@, e as int) =~= before
                        + references_expanded(cs@, i as int));
                    i = e;
                },
                None => {
                    out.push(cs[i]);
                    assert(out@ + references_expanded(cs@, i + 1) =~= before
                        + references_expanded(cs@, i as int));
                    i += 1;
                },
            },
        }
    }
    assert(out@ + Seq::<char>::empty() =~= out@);
    out
}

/// Expands numeric references (`&#65;`, `&#x41;`, `&0x41;`) and the named
/// ones htmlescape knows (`&amp;`); anything else stays as written.
pub fn decode_entities(text: &str) -> (r: String)
    ensures
        r@ == entities_decoded(text@),
{
    let cs = chars_of(text);
    string_from_chars(expand_references(cs.as_slice()).as_slice())
}

} // verus!
