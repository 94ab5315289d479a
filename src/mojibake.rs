//! Repair of text that was UTF-8 but got decoded one byte at a time under a
//! single-byte code page, possibly more than once.

use vstd::prelude::*;
use vstd::utf8::{decode_utf8, valid_utf8};
use crate::chars::{
    all_latin1, alphabetic, char_is_alphabetic, char_is_numeric, decode_utf8_exact,
    is_whitespace_char, latin1_bytes, numeric, to_latin1, whitespace,
};
use crate::text::{chars_of, string_from_chars};

verus! {

/// Punctuation that counts as ordinary text.
pub open spec fn punctuation(c: char) -> bool {
    c == '.' || c == ',' || c == '!' || c == '?' || c == ':' || c == ';' || c == '-' || c == '_'
        || c == '(' || c == ')' || c == '[' || c == ']' || c == '{' || c == '}' || c == '\''
        || c == '"' || c == '@' || c == '#' || c == '$' || c == '%' || c == '&' || c == '*' || c
        == '+' || c == '=' || c == '/' || c == '\\' || c == '|' || c == '~' || c == '`' || c == '^'
}

/// Hangul, CJK ideographs, kana and emoticons: scripts that legitimately
/// need multi-byte UTF-8.
pub open spec fn recognized_script(c: char) -> bool {
    let v = c as u32;
    (0x1100 <= v <= 0x11FF) || (0x3130 <= v <= 0x318F) || (0xAC00 <= v <= 0xD7AF) || (0x4E00 <= v
        <= 0x9FFF) || (0x3040 <= v <= 0x309F) || (0x30A0 <= v <= 0x30FF) || (0x1F600 <= v
        <= 0x1F64F)
}

pub open spec fn meaningful_char(c: char) -> bool {
    alphabetic(c) || numeric(c) || whitespace(c) || punctuation(c) || recognized_script(c)
}

/// Cyrillic and Latin Extended-A: what over-correction tends to produce.
pub open spec fn unusual_char(c: char) -> bool {
    let v = c as u32;
    (0x400 <= v <= 0x4FF) || (0x100 <= v <= 0x17F)
}

pub open spec fn count_meaningful(cs: Seq<char>) -> nat
    decreases cs.len(),
{
    if cs.len() == 0 {
        0
    } else {
        count_meaningful(cs.drop_last()) + if meaningful_char(cs.last()) {
            1nat
        } else {
            0nat
        }
    }
}

pub open spec fn count_unusual(cs: Seq<char>) -> nat
    decreases cs.len(),
{
    if cs.len() == 0 {
        0
    } else {
        count_unusual(cs.drop_last()) + if unusual_char(cs.last()) {
            1nat
        } else {
            0nat
        }
    }
}

/// More than 80% of the characters are ordinary text and fewer than 10% are
/// of the over-correction ranges.
pub open spec fn meaningful(cs: Seq<char>) -> bool {
    &&& cs.len() > 0
    &&& 10 * count_meaningful(cs) > 8 * cs.len()
    &&& 10 * count_unusual(cs) < cs.len()
}

/// The characters read back as bytes and decoded as UTF-8, when that is
/// possible, changes them, and gives meaningful text.
pub open spec fn reinterpreted(cs: Seq<char>) -> Option<Seq<char>> {
    if all_latin1(cs) && valid_utf8(latin1_bytes(cs)) && decode_utf8(latin1_bytes(cs)) != cs
        && meaningful(decode_utf8(latin1_bytes(cs))) {
        Some(decode_utf8(latin1_bytes(cs)))
    } else {
        None
    }
}

pub open spec fn fix_word(w: Seq<char>) -> Seq<char> {
    match reinterpreted(w) {
        Some(d) => d,
        None => w,
    }
}

/// Index of the first space at or after `i`, or the length.
pub open spec fn space_from(cs: Seq<char>, i: int) -> int
    decreases cs.len() - i,
{
    if 0 <= i < cs.len() && cs[i] != ' ' {
        space_from(cs, i + 1)
    } else {
        i
    }
}

/// Every space-separated word from `i` on, each reinterpreted on its own.
pub open spec fn words_fixed(cs: Seq<char>, i: int) -> Seq<char>
    decreases cs.len() - i,
{
    let k = space_from(cs, i);
    if 0 <= i <= k < cs.len() {
        fix_word(cs.subrange(i, k)) + seq![' '] + words_fixed(cs, k + 1)
    } else if 0 <= i <= cs.len() {
        fix_word(cs.subrange(i, cs.len() as int))
    } else {
        seq![]
    }
}

/// First index at or after `j` that does not hold a continuation value
/// (U+0080 to U+00BF).
pub open spec fn cont_end(cs: Seq<char>, j: int) -> int
    decreases cs.len() - j,
{
    if 0 <= j < cs.len() && 0x80 <= cs[j] as u32 <= 0xBF {
        cont_end(cs, j + 1)
    } else {
        j
    }
}

/// A lead value (U+00C0 to U+00F7) at `i` with its continuation values,
/// decoded as UTF-8 when that works and changes them.
pub open spec fn run_fix(cs: Seq<char>, i: int) -> Option<Seq<char>> {
    let j = cont_end(cs, i + 1);
    let run = cs.subrange(i, j);
    if 0 <= i && i + 1 < j <= cs.len() && 0xC0 <= cs[i] as u32 <= 0xF7 && valid_utf8(
        latin1_bytes(run),
    ) && decode_utf8(latin1_bytes(run)) != run {
        Some(decode_utf8(latin1_bytes(run)))
    } else {
        None
    }
}

/// Doubly encoded vowels and `ñ` that went through Windows-1252, where
/// byte 0x83 became U+0192.
pub open spec fn known_double(cs: Seq<char>, i: int) -> Option<char> {
    if 0 <= i && i + 3 < cs.len() && cs[i] == '\u{C3}' && cs[i + 1] == '\u{192}' && cs[i + 2]
        == '\u{C2}' {
        let c = cs[i + 3];
        if c == '\u{A1}' {
            Some('\u{E1}')
        } else if c == '\u{B1}' {
            Some('\u{F1}')
        } else if c == '\u{A9}' {
            Some('\u{E9}')
        } else if c == '\u{B3}' {
            Some('\u{F3}')
        } else if c == '\u{BA}' {
            Some('\u{FA}')
        } else if c == '\u{AD}' {
            Some('\u{ED}')
        } else {
            None
        }
    } else {
        None
    }
}

/// The local repair from `i` on: each corrupted run is replaced by what it
/// decodes to, everything else is kept.
pub open spec fn patterns_fixed(cs: Seq<char>, i: int) -> Seq<char>
    decreases cs.len() - i,
{
    if i < 0 || i >= cs.len() {
        seq![]
    } else {
        let j = cont_end(cs, i + 1);
        if i + 1 < j <= cs.len() && run_fix(cs, i) is Some {
            run_fix(cs, i)->0 + patterns_fixed(cs, j)
        } else if known_double(cs, i) is Some {
            seq![known_double(cs, i)->0] + patterns_fixed(cs, i + 4)
        } else {
            seq![cs[i]] + patterns_fixed(cs, i + 1)
        }
    }
}

/// One correction pass: the whole text, else its words, else local runs.
pub open spec fn fix_once(cs: Seq<char>) -> Seq<char> {
    match reinterpreted(cs) {
        Some(d) => d,
        None => {
            let w = words_fixed(cs, 0);
            if w != cs {
                w
            } else {
                patterns_fixed(cs, 0)
            }
        },
    }
}

/// At most `passes` passes, stopping early at a fixed point.
pub open spec fn corrected_within(cs: Seq<char>, passes: nat) -> Seq<char>
    decreases passes,
{
    if passes == 0 {
        cs
    } else if fix_once(cs) == cs {
        cs
    } else {
        corrected_within(fix_once(cs), (passes - 1) as nat)
    }
}

/// The pass cap that guards against oscillation.
pub const MAX_PASSES: usize = 5;

pub open spec fn corrected(cs: Seq<char>) -> Seq<char> {
    corrected_within(cs, MAX_PASSES as nat)
}

/// Correcting text that is already at a fixed point of one pass leaves it
/// unchanged; in particular correcting a corrected text again changes
/// nothing whenever the first correction reached such a fixed point within
/// the pass cap.
pub proof fn lemma_correct_idempotent(cs: Seq<char>)
    requires
        fix_once(corrected(cs)) == corrected(cs),
    ensures
        corrected(corrected(cs)) == corrected(cs),
{
}

fn is_punctuation(c: char) -> (r: bool)
    ensures
        r == punctuation(c),
{
    c == '.' || c == ',' || c == '!' || c == '?' || c == ':' || c == ';' || c == '-' || c == '_'
        || c == '(' || c == ')' || c == '[' || c == ']' || c == '{' || c == '}' || c == '\''
        || c == '"' || c == '@' || c == '#' || c == '$' || c == '%' || c == '&' || c == '*' || c
        == '+' || c == '=' || c == '/' || c == '\\' || c == '|' || c == '~' || c == '`' || c == '^'
}

fn is_recognized_script(c: char) -> (r: bool)
    ensures
        r == recognized_script(c),
{
    let v = c as u32;
    (0x1100 <= v && v <= 0x11FF) || (0x3130 <= v && v <= 0x318F) || (0xAC00 <= v && v <= 0xD7AF)
        || (0x4E00 <= v && v <= 0x9FFF) || (0x3040 <= v && v <= 0x309F) || (0x30A0 <= v && v
        <= 0x30FF) || (0x1F600 <= v && v <= 0x1F64F)
}

/// Whether text reads as meaningful rather than as corruption.
pub fn is_meaningful_text(cs: &[char]) -> (r: bool)
    ensures
        r == meaningful(cs@),
{
    let mut good: usize = 0;
    let mut odd: usize = 0;
    let mut i: usize = 0;
    while i < cs.len()
        invariant
            i <= cs@.len(),
            good as nat == count_meaningful(cs@.subrange(0, i as int)),
            odd as nat == count_unusual(cs@.subrange(0, i as int)),
            good <= i,
            odd <= i,
        decreases cs@.len() - i,
    {
        let c = cs[i];
        assert(cs@.subrange(0, i + 1 as int).drop_last() =~= cs@.subrange(0, i as int));
        if char_is_alphabetic(c) || char_is_numeric(c) || is_whitespace_char(c) || is_punctuation(c)
            || is_recognized_script(c) {
            good += 1;
        }
        let v = c as u32;
        if (0x400 <= v && v <= 0x4FF) || (0x100 <= v && v <= 0x17F) {
            odd += 1;
        }
        i += 1;
    }
    assert(cs@.subrange(0, cs@.len() as int) =~= cs@);
    let n = cs.len() as u128;
    n > 0 && 10 * (good as u128) > 8 * n && 10 * (odd as u128) < n
}

pub fn chars_equal(a: &[char], b: &[char]) -> (r: bool)
    ensures
        r == (a@ == b@),
{
    if a.len() != b.len() {
        return false;
    }
    let mut i: usize = 0;
    while i < a.len()
        invariant
            a@.len() == b@.len(),
            i <= a@.len(),
            forall|k: int| 0 <= k < i ==> a@[k] == b@[k],
        decreases a@.len() - i,
    {
        if a[i] != b[i] {
            return false;
        }
        i += 1;
    }
    assert(a@ =~= b@);
    true
}

/// Reads the characters back as bytes and decodes them as UTF-8; the result
/// when that changes them and is meaningful.
pub fn reinterpret(cs: &[char]) -> (r: Option<Vec<char>>)
    ensures
        match reinterpreted(cs@) {
            Some(d) => r is Some && r->0@ == d,
            None => r is None,
        },
{
    let bytes = match to_latin1(cs) {
        Some(b) => b,
        None => {
            return None;
        },
    };
    let decoded = match decode_utf8_exact(bytes.as_slice()) {
        Some(d) => d,
        None => {
            return None;
        },
    };
    if chars_equal(decoded.as_slice(), cs) || !is_meaningful_text(decoded.as_slice()) {
        return None;
    }
    Some(decoded)
}

fn push_all(out: &mut Vec<char>, src: &[char])
    ensures
        final(out)@ == old(out)@ + src@,
{
    let mut i: usize = 0;
    while i < src.len()
        invariant
            i <= src@.len(),
            out@ == old(out)@ + src@.subrange(0, i as int),
        decreases src@.len() - i,
    {
        out.push(src[i]);
        i += 1;
        assert(out@ =~= old(out)@ + src@.subrange(0, i as int));
    }
    assert(src@.subrange(0, src@.len() as int) =~= src@);
}

fn copy_chars(cs: &[char], lo: usize, hi: usize) -> (r: Vec<char>)
    requires
        lo <= hi <= cs@.len(),
    ensures
        r@ == cs@.subrange(lo as int, hi as int),
{
    let mut v: Vec<char> = Vec::new();
    let mut i = lo;
    while i < hi
        invariant
            lo <= i <= hi <= cs@.len(),
            v@ == cs@.subrange(lo as int, i as int),
        decreases hi - i,
    {
        v.push(cs[i]);
        i += 1;
        assert(v@ =~= cs@.subrange(lo as int, i as int));
    }
    v
}

/// The word-by-word pass.
fn fix_words(cs: &[char]) -> (r: Vec<char>)
    ensures
        r@ == words_fixed(cs@, 0),
{
    let mut out: Vec<char> = Vec::new();
    let mut i: usize = 0;
    loop
        invariant
            i <= cs@.len(),
            out@ + words_fixed(cs@, i as int) == words_fixed(cs@, 0),
        decreases cs@.len() - i,
    {
        let mut k = i;
        while k < cs.len() && cs[k] != ' '
            invariant
                i <= k <= cs@.len(),
                space_from(cs@, k as int) == space_from(cs@, i as int),
            decreases cs@.len() - k,
        {
            k += 1;
        }
        let word = copy_chars(cs, i, k);
        let ghost before = out@;
        match reinterpret(word.as_slice()) {
            Some(d) => push_all(&mut out, d.as_slice()),
            None => push_all(&mut out, word.as_slice()),
        }
        if k >= cs.len() {
            assert(out@ == before + words_fixed(cs@, i as int));
            return out;
        }
        out.push(' ');
        assert(out@ + words_fixed(cs@, k + 1) =~= before + words_fixed(cs@, i as int));
        i = k + 1;
    }
}

/// The run that starts at `i` and ends before `j`, decoded, when that
/// repairs it.
fn try_run(cs: &[char], i: usize, j: usize) -> (r: Option<Vec<char>>)
    requires
        i < cs@.len(),
        i + 1 <= j <= cs@.len(),
        j as int == cont_end(cs@, i + 1),
        forall|k: int| i < k < j ==> 0x80 <= #[trigger] (cs@[k] as u32) <= 0xBF,
    ensures
        match run_fix(cs@, i as int) {
            Some(d) => r is Some && r->0@ == d,
            None => r is None,
        },
{
    let c = cs[i] as u32;
    if !(j > i + 1 && 0xC0 <= c && c <= 0xF7) {
        return None;
    }
    let run = copy_chars(cs, i, j);
    assert(all_latin1(run@)) by {
        assert forall|k: int| 0 <= k < run@.len() implies (#[trigger] run@[k]) as u32 <= 0xFF by {
            assert(run@[k] == cs@[i + k]);
        }
    }
    let bytes = match to_latin1(run.as_slice()) {
        Some(b) => b,
        None => {
            return None;
        },
    };
    match decode_utf8_exact(bytes.as_slice()) {
        Some(d) => {
            if chars_equal(d.as_slice(), run.as_slice()) {
                None
            } else {
                Some(d)
            }
        },
        None => None,
    }
}

fn try_known_double(cs: &[char], i: usize) -> (r: Option<char>)
    requires
        i < cs@.len(),
    ensures
        r == known_double(cs@, i as int),
{
    if !(cs.len() - i > 3 && cs[i] == '\u{C3}' && cs[i + 1] == '\u{192}' && cs[i + 2] == '\u{C2}') {
        return None;
    }
    let d = cs[i + 3];
    if d == '\u{A1}' {
        Some('\u{E1}')
    } else if d == '\u{B1}' {
        Some('\u{F1}')
    } else if d == '\u{A9}' {
        Some('\u{E9}')
    } else if d == '\u{B3}' {
        Some('\u{F3}')
    } else if d == '\u{BA}' {
        Some('\u{FA}')
    } else if d == '\u{AD}' {
        Some('\u{ED}')
    } else {
        None
    }
}

/// The local repair pass.
fn fix_patterns(cs: &[char]) -> (r: Vec<char>)
    ensures
        r@ == patterns_fixed(cs@, 0),
{
    let mut out: Vec<char> = Vec::new();
    let mut i: usize = 0;
    while i < cs.len()
        invariant
            i <= cs@.len(),
            out@ + patterns_fixed(cs@, i as int) == patterns_fixed(cs@, 0),
        decreases cs@.len() - i,
    {
        let ghost before = out@;
        let mut j = i + 1;
        while j < cs.len() && 0x80 <= cs[j] as u32 && cs[j] as u32 <= 0xBF
            invariant
                i + 1 <= j <= cs@.len(),
                cont_end(cs@, j as int) == cont_end(cs@, i + 1),
                forall|k: int| i < k < j ==> 0x80 <= #[trigger] (cs@[k] as u32) <= 0xBF,
            decreases cs@.len() - j,
        {
            j += 1;
        }
        match try_run(cs, i, j) {
            Some(d) => {
                push_all(&mut out, d.as_slice());
                assert(out@ + patterns_fixed(cs@, j as int) =~= before + patterns_fixed(
                    cs@,
                    i as int,
                ));
                i = j;
            },
            None => {
                match try_known_double(cs, i) {
                    Some(f) => {
                        out.push(f);
                        assert(out@ + patterns_fixed(cs@, i + 4) =~= before + patterns_fixed(
                            cs@,
                            i as int,
                        ));
                        i = i + 4;
                    },
                    None => {
                        out.push(cs[i]);
                        assert(out@ + patterns_fixed(cs@, i + 1) =~= before + patterns_fixed(
                            cs@,
                            i as int,
                        ));
                        i += 1;
                    },
                }
            },
        }
    }
    assert(out@ + Seq::<char>::empty() =~= out@);
    out
}

/// One correction pass over the characters.
pub fn fix_mojibake_once(cs: &[char]) -> (r: Vec<char>)
    ensures
        r@ == fix_once(cs@),
{
    match reinterpret(cs) {
        Some(d) => {
            return d;
        },
        None => {},
    }
    let w = fix_words(cs);
    if !chars_equal(w.as_slice(), cs) {
        return w;
    }
    fix_patterns(cs)
}

/// Repairs mojibake, repeating passes until nothing changes or the pass cap
/// is reached. Text that no pass improves comes back unchanged.
pub fn fix_mojibake(text: &str) -> (r: String)
    ensures
        r@ == corrected(text@),
{
    let mut cur = chars_of(text);
    let mut passes: usize = 0;
    let mut settled = false;
    while passes < MAX_PASSES && !settled
        invariant
            passes <= MAX_PASSES,
            corrected(text@) == corrected_within(cur@, (MAX_PASSES - passes) as nat),
            settled ==> fix_once(cur@) == cur@,
        decreases MAX_PASSES - passes + if settled {
            0int
        } else {
            1int
        },
    {
        let next = fix_mojibake_once(cur.as_slice());
        if chars_equal(next.as_slice(), cur.as_slice()) {
            settled = true;
        } else {
            cur = next;
            passes += 1;
        }
    }
    string_from_chars(cur.as_slice())
}

/// First index at or after `i` that holds a byte up to 0x7F.
pub open spec fn high_end(b: Seq<u8>, i: int) -> int
    decreases b.len() - i,
{
    if 0 <= i < b.len() && b[i] > 0x7F {
        high_end(b, i + 1)
    } else {
        i
    }
}

/// Some maximal run of two or more bytes above 0x7F, from `i` on, is
/// well-formed UTF-8.
pub open spec fn utf8_run_from(b: Seq<u8>, i: int) -> bool
    decreases b.len() - i,
{
    if i < 0 || i >= b.len() {
        false
    } else if b[i] > 0x7F {
        let e = high_end(b, i);
        (i + 2 <= e <= b.len() && valid_utf8(b.subrange(i, e))) || (i < e <= b.len() && utf8_run_from(b, e))
    } else {
        utf8_run_from(b, i + 1)
    }
}

/// Whether the bytes hold a run of two or more high bytes that is valid
/// UTF-8, a sign of UTF-8 text read under another encoding.
pub fn detect_utf8_in_bytes(bytes: &[u8]) -> (r: bool)
    ensures
        r == utf8_run_from(bytes@, 0),
{
    let mut i: usize = 0;
    while i < bytes.len()
        invariant
            i <= bytes@.len(),
            utf8_run_from(bytes@, 0) == utf8_run_from(bytes@, i as int),
        decreases bytes@.len() - i,
    {
        if bytes[i] > 0x7F {
            let start = i;
            let mut e = i;
            while e < bytes.len() && bytes[e] > 0x7F
                invariant
                    start <= e <= bytes@.len(),
                    high_end(bytes@, e as int) == high_end(bytes@, start as int),
                    e == start ==> bytes@[start as int] > 0x7F,
                decreases bytes@.len() - e,
            {
                e += 1;
            }
            if e - start >= 2 {
                let run = &bytes[start..e];
                assert(run@ =~= bytes@.subrange(start as int, e as int));
                if decode_utf8_exact(run).is_some() {
                    return true;
                }
            }
            i = e;
        } else {
            i += 1;
        }
    }
    false
}

} // verus!
