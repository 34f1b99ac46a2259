//! How the output of a solver is compared with the expected output.

use vstd::prelude::*;

verus! {

/// The line feed.
pub const LF: u8 = 10;

/// The carriage return.
pub const CR: u8 = 13;

/// The policy by which two texts count as the same.
#[derive(Clone, Copy, Debug, PartialEq, Eq, Structural)]
pub enum Matching {
    /// Byte for byte.
    Exact,
    /// Byte for byte, but for one line feed at the very end of either text.
    Lines,
}

/// `text` without the line feed at its end, if it has one.
pub open spec fn without_final_newline(text: Seq<u8>) -> Seq<u8> {
    if text.len() > 0 && text.last() == LF {
        text.drop_last()
    } else {
        text
    }
}

/// Whether `actual` counts as `expected` under `policy`.
pub open spec fn texts_match(policy: Matching, expected: Seq<u8>, actual: Seq<u8>) -> bool {
    match policy {
        Matching::Exact => expected == actual,
        Matching::Lines => without_final_newline(expected) == without_final_newline(actual),
    }
}

/// Whether the byte at `i` is a carriage return that a line feed follows.
pub open spec fn is_cr_before_lf(text: Seq<u8>, i: int) -> bool {
    0 <= i && i + 1 < text.len() && text[i] == CR && text[i + 1] == LF
}

/// The first `n` bytes of `text` without the carriage returns that a line
/// feed follows.
pub open spec fn normalized_prefix(text: Seq<u8>, n: nat) -> Seq<u8>
    decreases n,
{
    if n == 0 {
        Seq::empty()
    } else if is_cr_before_lf(text, n - 1) {
        normalized_prefix(text, (n - 1) as nat)
    } else {
        normalized_prefix(text, (n - 1) as nat).push(text[n - 1])
    }
}

/// `text` with every pair of carriage return and line feed replaced by a
/// line feed alone.
pub open spec fn crlf_to_lf(text: Seq<u8>) -> Seq<u8> {
    normalized_prefix(text, text.len())
}

/// Replaces every pair of carriage return and line feed by a line feed.
pub fn normalize_line_endings(text: &Vec<u8>) -> (r: Vec<u8>)
    ensures
        r@ == crlf_to_lf(text@),
{
    let mut out: Vec<u8> = Vec::new();
    let mut i: usize = 0;
    while i < text.len()
        invariant
            i <= text.len(),
            out@ == normalized_prefix(text@, i as nat),
        decreases text.len() - i,
    {
        let skip = text[i] == CR && i + 1 < text.len() && text[i + 1] == LF;
        if !skip {
            out.push(text[i]);
        }
        i = i + 1;
    }
    out
}

/// The length of `text` without the line feed at its end.
fn trimmed_len(text: &Vec<u8>) -> (n: usize)
    ensures
        n == without_final_newline(text@).len(),
        n <= text.len(),
        without_final_newline(text@) == text@.take(n as int),
{
    let len = text.len();
    if len > 0 && text[len - 1] == LF {
        assert(text@.drop_last() == text@.take(len - 1));
        len - 1
    } else {
        assert(text@ == text@.take(len as int));
        len
    }
}

/// Whether the first `n` bytes of `a` and of `b` are the same.
fn same_prefix(a: &Vec<u8>, b: &Vec<u8>, n: usize) -> (r: bool)
    requires
        n <= a.len(),
        n <= b.len(),
    ensures
        r == (a@.take(n as int) == b@.take(n as int)),
{
    let mut i: usize = 0;
    while i < n
        invariant
            i <= n,
            n <= a.len(),
            n <= b.len(),
            a@.take(i as int) == b@.take(i as int),
        decreases n - i,
    {
        if a[i] != b[i] {
            assert(a@.take(n as int)[i as int] != b@.take(n as int)[i as int]);
            return false;
        }
        assert(a@.take(i + 1) == a@.take(i as int).push(a@[i as int]));
        assert(b@.take(i + 1) == b@.take(i as int).push(b@[i as int]));
        i = i + 1;
    }
    true
}

/// Decides whether `actual` counts as `expected` under `policy`.
pub fn agrees(policy: Matching, expected: &Vec<u8>, actual: &Vec<u8>) -> (r: bool)
    ensures
        r == texts_match(policy, expected@, actual@),
{
    let (n, m) = match policy {
        Matching::Exact => {
            assert(expected@ == expected@.take(expected.len() as int));
            assert(actual@ == actual@.take(actual.len() as int));
            (expected.len(), actual.len())
        },
        Matching::Lines => (trimmed_len(expected), trimmed_len(actual)),
    };
    if n != m {
        assert(expected@.take(n as int).len() != actual@.take(m as int).len());
        return false;
    }
    same_prefix(expected, actual, n)
}

} // verus!
