//! Byte-exact comparison of a program's output against an expected file,
//! and the records a test run produces. Finding files and running the
//! program is left to the caller.

use vstd::prelude::*;
use crate::text::{lenient_chars, lenient_decode};

verus! {

#[verifier::external_type_specification]
#[verifier::external_body]
pub struct ExPathBuf(std::path::PathBuf);

/// Relies on `Duration::from_secs`.
#[verifier::external_body]
fn seconds(n: u64) -> (r: std::time::Duration)
{
    std::time::Duration::from_secs(n)
}

#[derive(Debug)]
pub enum TestError {
    Io(String),
    Timeout(String),
    CommandParsing(String),
    Execution(String),
}

pub struct TestCase {
    pub name: String,
    pub input_file: std::path::PathBuf,
    pub expected_output_file: std::path::PathBuf,
    pub command: String,
}

pub struct TestResult {
    pub test_case: TestCase,
    pub passed: bool,
    pub error: Option<String>,
    pub execution_time: std::time::Duration,
    pub differences: Vec<ByteDifference>,
}

#[derive(Debug)]
pub struct ByteDifference {
    pub position: usize,
    pub expected: u8,
    pub actual: u8,
    pub context: String,
}

pub struct TestRunner {
    pub timeout: std::time::Duration,
    pub executable_path: std::path::PathBuf,
}

/// The byte at `i`, or 0 past the end (how a missing byte is reported).
pub open spec fn byte_or_zero(b: Seq<u8>, i: int) -> u8 {
    if 0 <= i < b.len() {
        b[i]
    } else {
        0
    }
}

/// Whether the outputs differ at `i`: one of them has no byte there, or the
/// bytes differ.
pub open spec fn differs_at(expected: Seq<u8>, actual: Seq<u8>, i: int) -> bool {
    i >= expected.len() || i >= actual.len() || expected[i] != actual[i]
}

/// The positions, in order, where the two outputs differ.
pub open spec fn differing_positions(expected: Seq<u8>, actual: Seq<u8>, n: int) -> Seq<int>
    decreases n,
{
    if n <= 0 {
        seq![]
    } else {
        let before = differing_positions(expected, actual, n - 1);
        if differs_at(expected, actual, n - 1) {
            before.push(n - 1)
        } else {
            before
        }
    }
}

proof fn lemma_no_differences(expected: Seq<u8>, actual: Seq<u8>, n: int)
    requires
        n >= 0,
    ensures
        differing_positions(expected, actual, n).len() == 0 <==> forall|i: int|
            0 <= i < n ==> !#[trigger] differs_at(expected, actual, i),
    decreases n,
{
    if n > 0 {
        lemma_no_differences(expected, actual, n - 1);
        if differs_at(expected, actual, n - 1) {
            assert(differing_positions(expected, actual, n).len() > 0);
        }
    }
}

pub open spec fn max_len(a: Seq<u8>, b: Seq<u8>) -> int {
    if a.len() >= b.len() {
        a.len() as int
    } else {
        b.len() as int
    }
}

fn byte_at(b: &[u8], i: usize) -> (r: u8)
    ensures
        r == byte_or_zero(b@, i as int),
{
    if i < b.len() {
        b[i]
    } else {
        0
    }
}

/// The bytes from twenty before `position` to twenty after it, cut to the
/// buffer.
pub open spec fn context_window(b: Seq<u8>, position: int) -> Seq<u8> {
    let lo = if position >= 20 { position - 20 } else { 0 };
    let hi = if position + 20 < b.len() { position + 20 } else { b.len() as int };
    if lo < b.len() {
        b.subrange(lo, hi)
    } else {
        seq![]
    }
}

/// The context line for a difference at `position`.
pub open spec fn context_text(expected: Seq<u8>, actual: Seq<u8>, position: int) -> Seq<char> {
    "Expected: "@ + debug_text(lenient_chars(context_window(expected, position))) + " | Actual: "@
        + debug_text(lenient_chars(context_window(actual, position)))
}

/// Copies `b[lo..min(hi, len)]`, or nothing when `lo` is past the end.
fn window(b: &[u8], lo: usize, hi: usize) -> (r: Vec<u8>)
    requires
        lo <= hi,
    ensures
        lo < b@.len() ==> r@ == b@.subrange(lo as int, if hi < b@.len() { hi as int } else { b@.len() as int }),
        lo >= b@.len() ==> r@ == Seq::<u8>::empty(),
{
    if lo >= b.len() {
        return Vec::new();
    }
    let end = if hi < b.len() {
        hi
    } else {
        b.len()
    };
    crate::bytes::copy_range(b, lo, end)
}

/// What the `Debug` formatting of `str` writes: the text quoted, with
/// escapes.
pub uninterp spec fn debug_text(s: Seq<char>) -> Seq<char>;

/// Relies on the `Debug` formatting of `str`.
#[verifier::external_body]
fn debug_quoted(s: &str) -> (r: String)
    ensures
        r@ == debug_text(s@),
{
    format!("{:?}", s)
}

fn append_str(s: &mut String, t: &str)
    ensures
        final(s)@ == old(s)@ + t@,
{
    let cs = crate::text::chars_of(t);
    let mut i: usize = 0;
    while i < cs.len()
        invariant
            cs@ == t@,
            i <= cs@.len(),
            s@ == old(s)@ + cs@.subrange(0, i as int),
        decreases cs@.len() - i,
    {
        crate::text::push_char(s, cs[i]);
        i += 1;
        assert(s@ =~= old(s)@ + cs@.subrange(0, i as int));
    }
    assert(cs@.subrange(0, cs@.len() as int) =~= cs@);
}

pub open spec fn hex_lower_digit(d: u8) -> char {
    if d < 10 {
        (0x30 + d) as char
    } else {
        (0x61 + d - 10) as char
    }
}

/// How a byte is shown in a diff: common escapes, printable ASCII as
/// itself, anything else as `\x` and two lower-case hex digits.
pub open spec fn byte_shown(b: u8) -> Seq<char> {
    if b == 0x0A {
        seq!['\\', 'n']
    } else if b == 0x0D {
        seq!['\\', 'r']
    } else if b == 0x09 {
        seq!['\\', 't']
    } else if b == 0x5C {
        seq!['\\', '\\']
    } else if 0x20 <= b <= 0x7E {
        seq![b as char]
    } else {
        seq!['\\', 'x', hex_lower_digit(b / 16), hex_lower_digit(b % 16)]
    }
}

fn hex_lower(d: u8) -> (r: char)
    requires
        d < 16,
    ensures
        r == hex_lower_digit(d),
{
    if d < 10 {
        (0x30 + d) as char
    } else {
        (0x61 + d - 10) as char
    }
}

/// Shows a byte for a diff.
pub fn format_byte_as_char(byte: u8) -> (r: String)
    ensures
        r@ == byte_shown(byte),
{
    let mut s = String::new();
    if byte == 0x0A {
        crate::text::push_char(&mut s, '\\');
        crate::text::push_char(&mut s, 'n');
    } else if byte == 0x0D {
        crate::text::push_char(&mut s, '\\');
        crate::text::push_char(&mut s, 'r');
    } else if byte == 0x09 {
        crate::text::push_char(&mut s, '\\');
        crate::text::push_char(&mut s, 't');
    } else if byte == 0x5C {
        crate::text::push_char(&mut s, '\\');
        crate::text::push_char(&mut s, '\\');
    } else if 0x20 <= byte && byte <= 0x7E {
        crate::text::push_char(&mut s, byte as char);
    } else {
        crate::text::push_char(&mut s, '\\');
        crate::text::push_char(&mut s, 'x');
        crate::text::push_char(&mut s, hex_lower(byte / 16));
        crate::text::push_char(&mut s, hex_lower(byte % 16));
    }
    assert(s@ =~= byte_shown(byte));
    s
}

impl TestRunner {
    pub fn new(executable_path: std::path::PathBuf) -> (r: Self)
        ensures
            r.executable_path == executable_path,
    {
        TestRunner { timeout: seconds(10), executable_path }
    }

    /// Every position where the outputs differ, in order: where the bytes
    /// differ, and every position past the end of the shorter output. A
    /// missing byte is reported as 0.
    pub fn compare_bytes(&self, expected: &[u8], actual: &[u8]) -> (r: Vec<ByteDifference>)
        ensures
            r@.len() == differing_positions(expected@, actual@, max_len(expected@, actual@)).len(),
            r@.len() == 0 <==> expected@ == actual@,
            forall|k: int|
                0 <= k < r@.len() ==> {
                    let p = differing_positions(expected@, actual@, max_len(expected@, actual@))[k];
                    &&& (#[trigger] r@[k]).position as int == p
                    &&& r@[k].expected == byte_or_zero(expected@, p)
                    &&& r@[k].actual == byte_or_zero(actual@, p)
                    &&& r@[k].context@ == context_text(expected@, actual@, p)
                },
    {
        let mut differences: Vec<ByteDifference> = Vec::new();
        let max = if expected.len() >= actual.len() {
            expected.len()
        } else {
            actual.len()
        };
        let mut i: usize = 0;
        while i < max
            invariant
                i <= max,
                max as int == max_len(expected@, actual@),
                differences@.len() == differing_positions(expected@, actual@, i as int).len(),
                forall|k: int|
                    0 <= k < differences@.len() ==> {
                        let p = differing_positions(expected@, actual@, i as int)[k];
                        &&& (#[trigger] differences@[k]).position as int == p
                        &&& differences@[k].expected == byte_or_zero(expected@, p)
                        &&& differences@[k].actual == byte_or_zero(actual@, p)
                        &&& differences@[k].context@ == context_text(expected@, actual@, p)
                    },
            decreases max - i,
        {
            let e = byte_at(expected, i);
            let a = byte_at(actual, i);
            if i >= expected.len() || i >= actual.len() || e != a {
                let context = self.get_context_string(expected, actual, i);
                differences.push(ByteDifference { position: i, expected: e, actual: a, context });
            }
            i += 1;
        }
        proof {
            lemma_no_differences(expected@, actual@, max as int);
            if differences@.len() == 0 {
                let m = if expected@.len() < actual@.len() { expected@.len() as int } else { actual@.len() as int };
                if expected@.len() != actual@.len() {
                    assert(differs_at(expected@, actual@, m));
                }
                assert(expected@ =~= actual@) by {
                    assert forall|i: int| 0 <= i < expected@.len() implies expected@[i] == actual@[i] by {
                        assert(!differs_at(expected@, actual@, i));
                    }
                }
            } else if expected@ == actual@ {
                assert forall|i: int| 0 <= i < max implies !#[trigger] differs_at(expected@, actual@, i) by {}
            }
        }
        differences
    }

    /// The text around a position in both outputs, twenty bytes each way.
    pub fn get_context_string(&self, expected: &[u8], actual: &[u8], position: usize) -> (r: String)
        ensures
            r@ == context_text(expected@, actual@, position as int),
    {
        let start = if position >= 20 {
            position - 20
        } else {
            0
        };
        let end = if position <= usize::MAX - 20 {
            position + 20
        } else {
            usize::MAX
        };
        let el = expected.len();
        let al = actual.len();
        let we = window(expected, start, end);
        let wa = window(actual, start, end);
        assert(we@ =~= context_window(expected@, position as int));
        assert(wa@ =~= context_window(actual@, position as int));
        let e = lenient_decode(we.as_slice());
        let a = lenient_decode(wa.as_slice());
        let mut s = String::new();
        append_str(&mut s, "Expected: ");
        append_str(&mut s, debug_quoted(e.as_str()).as_str());
        append_str(&mut s, " | Actual: ");
        append_str(&mut s, debug_quoted(a.as_str()).as_str());
        s
    }
}

} // verus!
