//! The settings of the judge that come from outside: how the console
//! behaves, how many jobs run at a time, and how sizes are written.

use vstd::prelude::*;
use vstd::string::*;
use vstd::arithmetic::div_mod::lemma_basic_div;
use crate::decimal::{
    all_digits, digits_value, is_digit, lemma_digits_value_concat, lemma_pow10_add,
    lemma_pow10_mono, lemma_pow10_step, lemma_value_at_least, lemma_value_below_pow10,
    lemma_zero_value, lemma_zeros_before, pow10, NINE, ZERO,
};
use crate::rounding::{
    is_inexact, lemma_nearest_to_huge, lemma_nearest_to_zero, lemma_pow10_above_pow2,
    lemma_pow2_add, lemma_pow2_below_pow10, lemma_pow2_step, lemma_quotient_at_least,
    nearest_decimal, nearest_product, nearest_to_decimal, nearest_to_product, pow2, scaled,
    Binary64, SCALE,
};

verus! {

/// How the console measures and lays out text.
#[derive(Debug)]
pub struct Console {
    /// Whether characters of ambiguous width take two columns.
    pub cjk: bool,
    /// The width to assume where the console does not tell its own.
    pub alt_width: Option<usize>,
}

impl Default for Console {
    fn default() -> (r: Console)
        ensures
            !r.cjk,
            r.alt_width is None,
    {
        Console { cjk: false, alt_width: None }
    }
}

/// The number of jobs to run at a time: what was asked for on this run, else
/// what the settings hold, else one. A zero counts as not given.
pub open spec fn spec_effective_jobs(requested: Option<usize>, configured: Option<usize>) -> usize {
    if requested is Some && requested->0 > 0 {
        requested->0
    } else if configured is Some && configured->0 > 0 {
        configured->0
    } else {
        1
    }
}

/// The number of jobs to run at a time: what was asked for on this run, else
/// what the settings hold, else one.
pub fn effective_jobs(requested: Option<usize>, configured: Option<usize>) -> (jobs: usize)
    ensures
        jobs == spec_effective_jobs(requested, configured),
        jobs >= 1,
{
    match requested {
        Some(n) => {
            if n > 0 {
                return n;
            }
        },
        None => {},
    }
    match configured {
        Some(n) => {
            if n > 0 {
                return n;
            }
        },
        None => {},
    }
    1
}

/// The byte of the plus sign.
pub const PLUS: u8 = 43;

/// The byte of the decimal point.
pub const POINT: u8 = 46;

/// The byte of the letter `B`.
pub const UPPER_B: u8 = 66;

/// The byte of the letter `G`.
pub const UPPER_G: u8 = 71;

/// The byte of the letter `K`.
pub const UPPER_K: u8 = 75;

/// The byte of the letter `M`.
pub const UPPER_M: u8 = 77;

/// The byte of the letter `i`.
pub const LOWER_I: u8 = 105;

/// The byte of the minus sign.
pub const MINUS: u8 = 45;

/// The byte of the letter `e`.
pub const LOWER_E: u8 = 101;

/// The byte of the letter `E`.
pub const UPPER_E: u8 = 69;

/// Whether `s` is one white-space character in UTF-8: one of the characters
/// U+0009 to U+000D, U+0020, U+0085, U+00A0, U+1680, U+2000 to U+200A,
/// U+2028, U+2029, U+202F, U+205F and U+3000.
pub open spec fn is_blank(s: Seq<u8>) -> bool {
    ||| s.len() == 1 && (s[0] == 0x20 || 0x09 <= s[0] <= 0x0d)
    ||| s.len() == 2 && s[0] == 0xc2 && (s[1] == 0x85 || s[1] == 0xa0)
    ||| s.len() == 3 && s[0] == 0xe1 && s[1] == 0x9a && s[2] == 0x80
    ||| s.len() == 3 && s[0] == 0xe2 && s[1] == 0x80 && (0x80 <= s[2] <= 0x8a || s[2] == 0xa8
        || s[2] == 0xa9 || s[2] == 0xaf)
    ||| s.len() == 3 && s[0] == 0xe2 && s[1] == 0x81 && s[2] == 0x9f
    ||| s.len() == 3 && s[0] == 0xe3 && s[1] == 0x80 && s[2] == 0x80
}

/// The number of bytes that the white-space character at the start of `s`
/// takes, or zero if `s` starts with none.
pub open spec fn blank_prefix(s: Seq<u8>) -> nat {
    if s.len() >= 1 && is_blank(s.take(1)) {
        1
    } else if s.len() >= 2 && is_blank(s.take(2)) {
        2
    } else if s.len() >= 3 && is_blank(s.take(3)) {
        3
    } else {
        0
    }
}

/// The number of bytes that the white-space character at the end of `s`
/// takes, or zero if `s` ends with none.
pub open spec fn blank_suffix(s: Seq<u8>) -> nat {
    if s.len() >= 1 && is_blank(s.skip(s.len() - 1)) {
        1
    } else if s.len() >= 2 && is_blank(s.skip(s.len() - 2)) {
        2
    } else if s.len() >= 3 && is_blank(s.skip(s.len() - 3)) {
        3
    } else {
        0
    }
}

/// `s` without the white space at its start.
pub open spec fn trim_start(s: Seq<u8>) -> Seq<u8>
    decreases s.len(),
{
    if blank_prefix(s) > 0 {
        trim_start(s.skip(blank_prefix(s) as int))
    } else {
        s
    }
}

/// `s` without the white space at its end.
pub open spec fn trim_end(s: Seq<u8>) -> Seq<u8>
    decreases s.len(),
{
    if blank_suffix(s) > 0 {
        trim_end(s.take(s.len() - blank_suffix(s)))
    } else {
        s
    }
}

/// Whether `s` ends with the letter `B` and, before it, `letter`.
pub open spec fn ends_with_decimal_unit(s: Seq<u8>, letter: u8) -> bool {
    s.len() >= 2 && s[s.len() - 2] == letter && s[s.len() - 1] == UPPER_B
}

/// Whether `s` ends with `iB` and, before it, `letter`.
pub open spec fn ends_with_binary_unit(s: Seq<u8>, letter: u8) -> bool {
    s.len() >= 3 && s[s.len() - 3] == letter && s[s.len() - 2] == LOWER_I && s[s.len() - 1]
        == UPPER_B
}

/// The unit at the end of `s`: how many bytes it takes, and how many bytes
/// one of it stands for. A text without a unit counts in bytes.
pub open spec fn unit_of(s: Seq<u8>) -> (nat, nat) {
    if ends_with_binary_unit(s, UPPER_G) {
        (3, 0x4000_0000)
    } else if ends_with_decimal_unit(s, UPPER_G) {
        (2, 1_000_000_000)
    } else if ends_with_binary_unit(s, UPPER_M) {
        (3, 0x10_0000)
    } else if ends_with_decimal_unit(s, UPPER_M) {
        (2, 1_000_000)
    } else if ends_with_binary_unit(s, UPPER_K) {
        (3, 0x400)
    } else if ends_with_decimal_unit(s, UPPER_K) {
        (2, 1000)
    } else if s.len() >= 1 && s.last() == UPPER_B {
        (1, 1)
    } else {
        (0, 1)
    }
}

/// The place of the first byte of `s` that is `a` or `b`, or the length of
/// `s` if it holds neither.
pub open spec fn position_of(s: Seq<u8>, a: u8, b: u8) -> nat
    decreases s.len(),
{
    if s.len() == 0 || s[0] == a || s[0] == b {
        0
    } else {
        1 + position_of(s.skip(1), a, b)
    }
}

/// The place of the first decimal point in `s`, or the length of `s` if it
/// has none.
pub open spec fn point_position(s: Seq<u8>) -> nat {
    position_of(s, POINT, POINT)
}

/// The place of the first exponent mark in `s`, an `e` or an `E`, or the
/// length of `s` if it has none.
pub open spec fn mark_position(s: Seq<u8>) -> nat {
    position_of(s, LOWER_E, UPPER_E)
}

/// `s` without the plus sign at its start, if it has one.
pub open spec fn unsigned(s: Seq<u8>) -> Seq<u8> {
    if s.len() > 0 && s[0] == PLUS {
        s.skip(1)
    } else {
        s
    }
}

/// `s` without the sign at its start, if it has one.
pub open spec fn without_sign(s: Seq<u8>) -> Seq<u8> {
    if s.len() > 0 && (s[0] == PLUS || s[0] == MINUS) {
        s.skip(1)
    } else {
        s
    }
}

/// The exponent that `s` writes, if it writes one: an optional sign and at
/// least one digit.
pub open spec fn exponent_of(s: Seq<u8>) -> Option<int> {
    let digits = without_sign(s);
    if digits.len() > 0 && all_digits(digits) {
        if s[0] == MINUS {
            Some(-(digits_value(digits) as int))
        } else {
            Some(digits_value(digits) as int)
        }
    } else {
        None
    }
}

/// A number as it is written: the digits before and behind its decimal
/// point, and its exponent of ten.
pub struct Number {
    pub whole: Seq<u8>,
    pub fraction: Seq<u8>,
    pub exponent: int,
}

/// `n` zeros.
pub open spec fn zeros(n: nat) -> Seq<u8> {
    Seq::new(n, |i: int| ZERO)
}

/// The number of zeros at the start of `s`.
pub open spec fn leading_zeros(s: Seq<u8>) -> nat
    decreases s.len(),
{
    if s.len() > 0 && s[0] == ZERO {
        1 + leading_zeros(s.skip(1))
    } else {
        0
    }
}

impl Number {
    /// All digits of the number, in their order.
    pub open spec fn digits(self) -> Seq<u8> {
        self.whole + self.fraction
    }

    /// The place among the digits where the decimal point stands once the
    /// exponent has moved it: before the first digit if it is zero or less.
    pub open spec fn point(self) -> int {
        self.whole.len() + self.exponent
    }

    /// The digits before and behind the decimal point once the exponent has
    /// moved it, with zeros where the point has left the digits.
    pub open spec fn shifted(self) -> (Seq<u8>, Seq<u8>) {
        let digits = self.digits();
        let point = self.point();
        if point >= digits.len() {
            (digits + zeros((point - digits.len()) as nat), Seq::empty())
        } else if point <= 0 {
            (Seq::empty(), zeros((-point) as nat) + digits)
        } else {
            (digits.take(point), digits.skip(point))
        }
    }

    /// Whether the number is zero: it has no digit but zeros.
    pub open spec fn is_zero(self) -> bool {
        leading_zeros(self.digits()) == self.digits().len()
    }

    /// The number of places between the first digit that is not a zero and
    /// the decimal point: the number is `0.d1d2d3...` times ten to this
    /// power, with `d1` its first digit that is not a zero.
    pub open spec fn magnitude(self) -> int {
        self.point() - leading_zeros(self.digits())
    }

    /// The number of bytes that the number stands for in units of `factor`
    /// bytes, as binary floating-point arithmetic of 64 bits gives it: the
    /// number is rounded to the nearest binary floating-point number, the
    /// product of that and `factor` is rounded again, and what is left of a
    /// byte is cut off. There is no size where either rounding gives no
    /// finite number.
    pub open spec fn size(self, factor: nat) -> Option<nat> {
        let number = nearest_to_decimal(self.shifted().0, self.shifted().1);
        let product = nearest_to_product(number, factor);
        if number.is_finite() && product.is_finite() {
            Some(product.whole())
        } else {
            None
        }
    }
}

/// A magnitude beyond which every number is beyond the finite binary
/// floating-point numbers of 64 bits, which end below `2^1024`.
pub const LARGEST_MAGNITUDE: i128 = 400;

/// A place of the decimal point from which on downwards every number rounds
/// to zero: the least binary floating-point number of 64 bits above zero is
/// `2^-1074`.
pub const LEAST_POINT: i128 = -1200;

/// What stands before and behind the first decimal point of `s`; all of `s`
/// stands before it if `s` has none.
pub open spec fn mantissa_parts(s: Seq<u8>) -> (Seq<u8>, Seq<u8>) {
    let point = point_position(s) as int;
    (
        s.take(point),
        if point < s.len() {
            s.skip(point + 1)
        } else {
            Seq::empty()
        },
    )
}

/// The number that `s` writes, if it writes one: an optional plus sign, then
/// digits, with or without a decimal point among them, before them or behind
/// them, and at least one digit; then, optionally, an `e` or an `E` and an
/// exponent.
pub open spec fn number_parts(s: Seq<u8>) -> Option<Number> {
    let body = unsigned(s);
    let mark = mark_position(body) as int;
    let (whole, fraction) = mantissa_parts(body.take(mark));
    let exponent = if mark < body.len() {
        exponent_of(body.skip(mark + 1))
    } else {
        Some(0int)
    };
    if all_digits(whole) && all_digits(fraction) && whole.len() + fraction.len() > 0
        && exponent is Some {
        Some(Number { whole, fraction, exponent: exponent->0 })
    } else {
        None
    }
}

/// The number of bytes that `s` writes, if it writes one: a number and a
/// unit with nothing between them, white space around them disregarded. The
/// unit is the longest of `GiB`, `GB`, `MiB`, `MB`, `KiB`, `KB` and `B` that
/// the text ends with, or none. The size is counted as binary floating-point
/// arithmetic of 64 bits counts it, and a part of a byte does not count.
pub open spec fn size_of_text(s: Seq<u8>) -> Option<nat> {
    let text = trim_end(trim_start(s));
    let (unit_len, factor) = unit_of(text);
    match number_parts(text.take(text.len() - unit_len)) {
        Some(number) => number.size(factor),
        None => None,
    }
}

/// `size` as a machine integer, the largest one if it does not fit.
pub open spec fn saturated(size: nat) -> usize {
    if size > usize::MAX {
        usize::MAX
    } else {
        size as usize
    }
}

/// Where `n` places without `a` and `b` end at one of them or at the end of
/// `s`, there is the first place of either.
proof fn lemma_position(s: Seq<u8>, a: u8, b: u8, n: nat)
    requires
        n <= s.len(),
        forall|i: int| 0 <= i < n ==> s[i] != a && s[i] != b,
        n == s.len() || s[n as int] == a || s[n as int] == b,
    ensures
        position_of(s, a, b) == n,
    decreases n,
{
    if n > 0 {
        lemma_position(s.skip(1), a, b, (n - 1) as nat);
    }
}

/// The first place of `a` or `b` lies within the text, neither comes before
/// it, and one of them stands there.
proof fn lemma_position_bound(s: Seq<u8>, a: u8, b: u8)
    ensures
        position_of(s, a, b) <= s.len(),
        forall|i: int| 0 <= i < position_of(s, a, b) ==> s[i] != a && s[i] != b,
        position_of(s, a, b) < s.len() ==> s[position_of(s, a, b) as int] == a || s[position_of(
            s,
            a,
            b,
        ) as int] == b,
    decreases s.len(),
{
    if !(s.len() == 0 || s[0] == a || s[0] == b) {
        lemma_position_bound(s.skip(1), a, b);
        assert forall|i: int| 0 <= i < position_of(s, a, b) implies s[i] != a && s[i] != b by {
            if i > 0 {
                assert(s.skip(1)[i - 1] == s[i]);
            }
        }
    }
}

/// Tells whether `bytes[from..from + len]` is one white-space character.
fn is_blank_at(bytes: &[u8], from: usize, len: usize) -> (r: bool)
    requires
        from + len <= bytes@.len(),
    ensures
        r == is_blank(bytes@.subrange(from as int, from + len)),
{
    let ghost s = bytes@.subrange(from as int, from + len);
    if len == 1 {
        assert(s[0] == bytes@[from as int]);
        let a = bytes[from];
        a == 0x20 || (0x09 <= a && a <= 0x0d)
    } else if len == 2 {
        assert(s[0] == bytes@[from as int] && s[1] == bytes@[from + 1]);
        let (a, b) = (bytes[from], bytes[from + 1]);
        a == 0xc2 && (b == 0x85 || b == 0xa0)
    } else if len == 3 {
        assert(s[0] == bytes@[from as int] && s[1] == bytes@[from + 1] && s[2] == bytes@[from
            + 2]);
        let (a, b, c) = (bytes[from], bytes[from + 1], bytes[from + 2]);
        (a == 0xe1 && b == 0x9a && c == 0x80) || (a == 0xe2 && b == 0x80 && ((0x80 <= c && c
            <= 0x8a) || c == 0xa8 || c == 0xa9 || c == 0xaf)) || (a == 0xe2 && b == 0x81 && c
            == 0x9f) || (a == 0xe3 && b == 0x80 && c == 0x80)
    } else {
        false
    }
}

/// Counts the bytes of the white-space character at the start of
/// `bytes[lo..hi]`.
fn blank_prefix_at(bytes: &[u8], lo: usize, hi: usize) -> (n: usize)
    requires
        lo <= hi <= bytes@.len(),
    ensures
        n == blank_prefix(bytes@.subrange(lo as int, hi as int)),
        n <= hi - lo,
{
    let ghost s = bytes@.subrange(lo as int, hi as int);
    let len = hi - lo;
    proof {
        if len >= 1 {
            assert(s.take(1) == bytes@.subrange(lo as int, lo + 1));
        }
        if len >= 2 {
            assert(s.take(2) == bytes@.subrange(lo as int, lo + 2));
        }
        if len >= 3 {
            assert(s.take(3) == bytes@.subrange(lo as int, lo + 3));
        }
    }
    if len >= 1 && is_blank_at(bytes, lo, 1) {
        1
    } else if len >= 2 && is_blank_at(bytes, lo, 2) {
        2
    } else if len >= 3 && is_blank_at(bytes, lo, 3) {
        3
    } else {
        0
    }
}

/// Counts the bytes of the white-space character at the end of
/// `bytes[lo..hi]`.
fn blank_suffix_at(bytes: &[u8], lo: usize, hi: usize) -> (n: usize)
    requires
        lo <= hi <= bytes@.len(),
    ensures
        n == blank_suffix(bytes@.subrange(lo as int, hi as int)),
        n <= hi - lo,
{
    let ghost s = bytes@.subrange(lo as int, hi as int);
    let len = hi - lo;
    proof {
        if len >= 1 {
            assert(s.skip(s.len() - 1) == bytes@.subrange(hi - 1, hi as int));
        }
        if len >= 2 {
            assert(s.skip(s.len() - 2) == bytes@.subrange(hi - 2, hi as int));
        }
        if len >= 3 {
            assert(s.skip(s.len() - 3) == bytes@.subrange(hi - 3, hi as int));
        }
    }
    if len >= 1 && is_blank_at(bytes, hi - 1, 1) {
        1
    } else if len >= 2 && is_blank_at(bytes, hi - 2, 2) {
        2
    } else if len >= 3 && is_blank_at(bytes, hi - 3, 3) {
        3
    } else {
        0
    }
}

/// Finds where `bytes` begins and ends once the white space around it is
/// taken off.
fn trim_bounds(bytes: &[u8]) -> (r: (usize, usize))
    ensures
        r.0 <= r.1 <= bytes@.len(),
        bytes@.subrange(r.0 as int, r.1 as int) == trim_end(trim_start(bytes@)),
{
    let len = bytes.len();
    let mut lo: usize = 0;
    assert(bytes@.subrange(0, len as int) == bytes@);
    loop
        invariant
            lo <= len,
            len == bytes@.len(),
            trim_start(bytes@) == trim_start(bytes@.subrange(lo as int, len as int)),
        ensures
            lo <= len,
            trim_start(bytes@) == bytes@.subrange(lo as int, len as int),
        decreases len - lo,
    {
        let n = blank_prefix_at(bytes, lo, len);
        if n == 0 {
            break ;
        }
        assert(bytes@.subrange(lo as int, len as int).skip(n as int) == bytes@.subrange(
            lo + n,
            len as int,
        ));
        lo = lo + n;
    }
    let ghost rest = bytes@.subrange(lo as int, len as int);
    let mut hi: usize = len;
    loop
        invariant
            lo <= hi <= len,
            len == bytes@.len(),
            trim_end(rest) == trim_end(bytes@.subrange(lo as int, hi as int)),
        ensures
            lo <= hi <= len,
            trim_end(rest) == bytes@.subrange(lo as int, hi as int),
        decreases hi,
    {
        let n = blank_suffix_at(bytes, lo, hi);
        if n == 0 {
            break ;
        }
        assert(bytes@.subrange(lo as int, hi as int).take(hi - lo - n) == bytes@.subrange(
            lo as int,
            hi - n,
        ));
        hi = hi - n;
    }
    (lo, hi)
}

/// Tells the unit at the end of `bytes[start..end]`: where the unit begins,
/// and how many bytes one of it stands for.
fn split_unit(bytes: &[u8], start: usize, end: usize) -> (r: (usize, u64))
    requires
        start <= end <= bytes@.len(),
    ensures
        start <= r.0 <= end,
        r.0 == end - unit_of(bytes@.subrange(start as int, end as int)).0,
        r.1 == unit_of(bytes@.subrange(start as int, end as int)).1,
        1 <= r.1 <= 0x4000_0000,
{
    let ghost text = bytes@.subrange(start as int, end as int);
    let len = end - start;
    if len == 0 || bytes[end - 1] != UPPER_B {
        return (end, 1);
    }
    assert(text.last() == bytes@[end - 1]);
    if len >= 2 {
        assert(text[text.len() - 2] == bytes@[end - 2]);
    }
    if len >= 3 {
        assert(text[text.len() - 3] == bytes@[end - 3]);
    }
    let binary = len >= 3 && bytes[end - 2] == LOWER_I;
    let letter: u8 = if binary {
        bytes[end - 3]
    } else if len >= 2 {
        bytes[end - 2]
    } else {
        0
    };
    let factor: u64 = if letter == UPPER_G {
        if binary {
            0x4000_0000
        } else {
            1_000_000_000
        }
    } else if letter == UPPER_M {
        if binary {
            0x10_0000
        } else {
            1_000_000
        }
    } else if letter == UPPER_K {
        if binary {
            0x400
        } else {
            1000
        }
    } else {
        return (end - 1, 1);
    };
    if binary {
        (end - 3, factor)
    } else {
        (end - 2, factor)
    }
}

/// Reads the digits of `bytes` from `start` on, up to `end` or the first
/// byte that is no digit. The number that they write comes back unless it is
/// more than `u64::MAX`.
fn read_whole(bytes: &[u8], start: usize, end: usize) -> (r: (usize, Option<u64>))
    requires
        start <= end <= bytes@.len(),
    ensures
        start <= r.0 <= end,
        all_digits(bytes@.subrange(start as int, r.0 as int)),
        r.0 == end || !is_digit(bytes@[r.0 as int]),
        match r.1 {
            Some(value) => value == digits_value(bytes@.subrange(start as int, r.0 as int)),
            None => digits_value(bytes@.subrange(start as int, r.0 as int)) > u64::MAX,
        },
{
    let mut i: usize = start;
    let mut value: Option<u64> = Some(0);
    assert(bytes@.subrange(start as int, start as int).len() == 0);
    while i < end && ZERO <= bytes[i] && bytes[i] <= NINE
        invariant
            start <= i <= end <= bytes@.len(),
            all_digits(bytes@.subrange(start as int, i as int)),
            match value {
                Some(v) => v == digits_value(bytes@.subrange(start as int, i as int)),
                None => digits_value(bytes@.subrange(start as int, i as int)) > u64::MAX,
            },
        decreases end - i,
    {
        let digit: u64 = (bytes[i] - ZERO) as u64;
        let ghost read = bytes@.subrange(start as int, i + 1);
        assert(read.drop_last() == bytes@.subrange(start as int, i as int));
        assert(read.last() == bytes@[i as int]);
        value = match value {
            Some(v) => {
                if v > (u64::MAX - digit) / 10 {
                    None
                } else {
                    Some(v * 10 + digit)
                }
            },
            None => None,
        };
        i = i + 1;
    }
    (i, value)
}

/// The cap on the exponents that are told apart: an exponent beyond it
/// moves the point out of every text that a machine can hold.
pub const EXPONENT_CAP: u128 = 0x10_0000_0000_0000_0000_0000_0000;

/// `e`, or the cap with the sign of `e` if `e` lies beyond the cap.
pub open spec fn capped(e: int) -> int {
    if e > EXPONENT_CAP {
        EXPONENT_CAP as int
    } else if e < -EXPONENT_CAP {
        -(EXPONENT_CAP as int)
    } else {
        e
    }
}

/// The zeros at the start of a text are zeros, and they end within the text
/// at a byte that is not a zero.
proof fn lemma_leading_zeros(s: Seq<u8>)
    ensures
        leading_zeros(s) <= s.len(),
        forall|i: int| 0 <= i < leading_zeros(s) ==> s[i] == ZERO,
        leading_zeros(s) < s.len() ==> s[leading_zeros(s) as int] != ZERO,
    decreases s.len(),
{
    if s.len() > 0 && s[0] == ZERO {
        lemma_leading_zeros(s.skip(1));
        assert forall|i: int| 0 <= i < leading_zeros(s) implies s[i] == ZERO by {
            if i > 0 {
                assert(s.skip(1)[i - 1] == s[i]);
            }
        }
    }
}

/// Finds the first exponent mark in `bytes[start..end]`.
fn find_mark(bytes: &[u8], start: usize, end: usize) -> (mark: usize)
    requires
        start <= end <= bytes@.len(),
    ensures
        start <= mark <= end,
        mark == start + mark_position(bytes@.subrange(start as int, end as int)),
{
    let ghost text = bytes@.subrange(start as int, end as int);
    let mut i: usize = start;
    while i < end && bytes[i] != LOWER_E && bytes[i] != UPPER_E
        invariant
            start <= i <= end <= bytes@.len(),
            text == bytes@.subrange(start as int, end as int),
            forall|k: int| 0 <= k < i - start ==> text[k] != LOWER_E && text[k] != UPPER_E,
        decreases end - i,
    {
        i = i + 1;
    }
    proof {
        lemma_position(text, LOWER_E, UPPER_E, (i - start) as nat);
    }
    i
}

/// Reads the digits `bytes[start..end]` as a number that is capped.
fn read_capped(bytes: &[u8], start: usize, end: usize) -> (r: Option<u128>)
    requires
        start <= end <= bytes@.len(),
    ensures
        r is Some <==> all_digits(bytes@.subrange(start as int, end as int)),
        r is Some ==> r->0 == capped(
            digits_value(bytes@.subrange(start as int, end as int)) as int,
        ),
{
    let mut i: usize = start;
    let mut value: u128 = 0;
    assert(bytes@.subrange(start as int, start as int).len() == 0);
    while i < end
        invariant
            start <= i <= end <= bytes@.len(),
            all_digits(bytes@.subrange(start as int, i as int)),
            value == capped(digits_value(bytes@.subrange(start as int, i as int)) as int),
        decreases end - i,
    {
        let byte = bytes[i];
        let ghost read = bytes@.subrange(start as int, i + 1);
        assert(read.drop_last() == bytes@.subrange(start as int, i as int));
        assert(read.last() == byte);
        if byte < ZERO || byte > NINE {
            assert(!is_digit(bytes@.subrange(start as int, end as int)[i - start]));
            return None;
        }
        if value < EXPONENT_CAP {
            value = value * 10 + (byte - ZERO) as u128;
            if value > EXPONENT_CAP {
                value = EXPONENT_CAP;
            }
        }
        i = i + 1;
    }
    Some(value)
}

/// Reads the exponent `bytes[start..end]`, capped.
fn read_exponent(bytes: &[u8], start: usize, end: usize) -> (r: Option<i128>)
    requires
        start <= end <= bytes@.len(),
    ensures
        match exponent_of(bytes@.subrange(start as int, end as int)) {
            Some(e) => r == Some(capped(e) as i128),
            None => r is None,
        },
{
    let ghost text = bytes@.subrange(start as int, end as int);
    let signed = start < end && (bytes[start] == PLUS || bytes[start] == MINUS);
    let from = if signed {
        start + 1
    } else {
        start
    };
    assert(without_sign(text) == bytes@.subrange(from as int, end as int));
    if from == end {
        return None;
    }
    match read_capped(bytes, from, end) {
        Some(value) => {
            if bytes[start] == MINUS {
                Some(-(value as i128))
            } else {
                Some(value as i128)
            }
        },
        None => None,
    }
}

/// Appends `bytes[start..end]`.
fn push_range(out: &mut Vec<u8>, bytes: &[u8], start: usize, end: usize)
    requires
        start <= end <= bytes@.len(),
    ensures
        final(out)@ == old(out)@ + bytes@.subrange(start as int, end as int),
{
    let mut i: usize = start;
    assert(out@ =~= old(out)@ + bytes@.subrange(start as int, start as int));
    while i < end
        invariant
            start <= i <= end <= bytes@.len(),
            out@ == old(out)@ + bytes@.subrange(start as int, i as int),
        decreases end - i,
    {
        out.push(bytes[i]);
        i = i + 1;
        assert(out@ =~= old(out)@ + bytes@.subrange(start as int, i as int));
    }
}

/// Appends `n` zeros.
fn push_zeros(out: &mut Vec<u8>, n: usize)
    ensures
        final(out)@ == old(out)@ + zeros(n as nat),
{
    let mut i: usize = 0;
    assert(out@ =~= old(out)@ + zeros(0));
    while i < n
        invariant
            i <= n,
            out@ == old(out)@ + zeros(i as nat),
        decreases n - i,
    {
        out.push(ZERO);
        i = i + 1;
        assert(out@ =~= old(out)@ + zeros(i as nat));
    }
}

/// Counts the zeros at the start of `digits`.
fn count_leading_zeros(digits: &Vec<u8>) -> (n: usize)
    ensures
        n == leading_zeros(digits@),
        n <= digits@.len(),
{
    let mut i: usize = 0;
    assert(digits@.skip(0) == digits@);
    while i < digits.len() && digits[i] == ZERO
        invariant
            i <= digits@.len(),
            leading_zeros(digits@) == i + leading_zeros(digits@.skip(i as int)),
        decreases digits@.len() - i,
    {
        assert(digits@.skip(i as int).skip(1) == digits@.skip(i + 1));
        i = i + 1;
    }
    i
}

/// What is rounded to zero stands for no byte in any unit.
proof fn lemma_size_of_zero(number: Number, factor: nat)
    requires
        nearest_to_decimal(number.shifted().0, number.shifted().1) == (Binary64 {
            mantissa: 0,
            exponent: -1074,
        }),
    ensures
        number.size(factor) == Some(0nat),
{
    lemma_nearest_to_zero(false);
    lemma_pow2_step(1074);
    assert(0nat * factor == 0);
    assert(0nat / pow2(1074) == 0) by (nonlinear_arith)
        requires
            pow2(1074) >= 1,
    ;
}

/// A number without a digit but zeros stands for no byte, whatever its
/// exponent.
pub proof fn lemma_zero_number(number: Number, factor: nat)
    requires
        number.is_zero(),
    ensures
        number.size(factor) == Some(0nat),
{
    let digits = number.digits();
    let (whole, fraction) = number.shifted();
    let all = whole + fraction;
    lemma_leading_zeros(digits);
    assert forall|i: int| 0 <= i < all.len() implies all[i] == ZERO by {
        if i < whole.len() {
            assert(whole[i] == ZERO);
        } else {
            assert(fraction[i - whole.len()] == ZERO);
        }
    }
    lemma_zero_value(all);
    lemma_pow10_step(fraction.len());
    let unit = pow10(fraction.len());
    assert(0nat * pow2(SCALE as nat) == 0);
    assert(0nat / unit == 0 && 0nat % unit == 0) by (nonlinear_arith)
        requires
            unit >= 1,
    ;
    lemma_nearest_to_zero(false);
    lemma_size_of_zero(number, factor);
}

/// A number whose decimal point stands 1200 places or more before its
/// first digit is rounded to zero and stands for no byte.
pub proof fn lemma_tiny_number(number: Number, factor: nat)
    requires
        all_digits(number.digits()),
        number.point() <= LEAST_POINT,
    ensures
        number.size(factor) == Some(0nat),
{
    let digits = number.digits();
    let lead = (-number.point()) as nat;
    let (whole, fraction) = number.shifted();
    assert(whole + fraction =~= zeros(lead) + digits);
    lemma_zeros_before(zeros(lead), digits);
    lemma_value_below_pow10(digits);
    lemma_pow10_add(lead, digits.len());
    lemma_pow10_mono(SCALE as nat, lead);
    lemma_pow2_below_pow10(SCALE as nat);
    let value = digits_value(digits);
    let scale = pow2(SCALE as nat);
    let units = value * scale;
    let (above, below) = (pow10(lead), pow10(digits.len()));
    lemma_pow10_step(lead);
    assert(value * scale <= value * above) by (nonlinear_arith)
        requires
            scale <= above,
    ;
    assert(value * above < above * below) by (nonlinear_arith)
        requires
            value < below,
            above >= 1,
    ;
    lemma_basic_div(units as int, pow10(fraction.len()) as int);
    lemma_nearest_to_zero(is_inexact(whole, fraction));
    lemma_size_of_zero(number, factor);
}

/// A number of `10^400` or more is rounded beyond the finite numbers and
/// stands for no size.
pub proof fn lemma_huge_number(number: Number, factor: nat)
    requires
        all_digits(number.digits()),
        !number.is_zero(),
        number.magnitude() > LARGEST_MAGNITUDE,
    ensures
        number.size(factor) is None,
{
    let digits = number.digits();
    let first = leading_zeros(digits) as int;
    let (whole, fraction) = number.shifted();
    lemma_leading_zeros(digits);
    assert(whole.len() == number.point());
    assert(whole[first] == digits[first]);
    assert forall|i: int| 0 <= i < whole.len() implies is_digit(#[trigger] whole[i]) by {
        if i < digits.len() {
            assert(is_digit(digits[i]));
        }
    }
    lemma_value_at_least(whole, first);
    lemma_pow10_mono(400, (whole.len() - 1 - first) as nat);
    lemma_pow10_above_pow2(400);
    lemma_digits_value_concat(whole, fraction);
    lemma_pow10_step(fraction.len());
    lemma_pow2_add(1200, SCALE as nat);
    let unit = pow10(fraction.len());
    let high = digits_value(whole);
    let low = digits_value(fraction);
    let scale = pow2(SCALE as nat);
    assert((high * unit + low) * scale >= (high * scale) * unit) by (nonlinear_arith);
    lemma_quotient_at_least(((high * unit + low) * scale) as nat, unit, high * scale);
    assert(high * scale >= pow2(1200) * scale) by (nonlinear_arith)
        requires
            high >= pow2(1200),
    ;
    lemma_nearest_to_huge(scaled(whole, fraction), is_inexact(whole, fraction));
}

/// Counts `number`, whose digits are `digits` and whose point stands at
/// `point` among them, in units of `factor`.
#[verifier::rlimit(50)]
fn size_of_number(digits: &Vec<u8>, point: i128, factor: u64, Ghost(number): Ghost<Number>) -> (r:
    Option<usize>)
    requires
        digits@ == number.digits(),
        all_digits(digits@),
        point == capped(number.exponent) + number.whole.len(),
        1 <= factor <= 0x4000_0000,
    ensures
        r == match number.size(factor as nat) {
            Some(size) => Some(saturated(size)),
            None => None::<usize>,
        },
{
    let len = digits.len();
    let zeros_before = count_leading_zeros(digits);
    if zeros_before == len {
        proof {
            lemma_zero_number(number, factor as nat);
        }
        return Some(0);
    }
    if point - zeros_before as i128 > LARGEST_MAGNITUDE {
        proof {
            lemma_huge_number(number, factor as nat);
        }
        return None;
    }
    if point <= LEAST_POINT {
        proof {
            lemma_tiny_number(number, factor as nat);
        }
        return Some(0);
    }
    assert(point == number.point());
    let lead: usize = if point < 0 {
        (-point) as usize
    } else {
        0
    };
    let trail: usize = if point > len as i128 {
        (point - len as i128) as usize
    } else {
        0
    };
    let mut moved: Vec<u8> = Vec::new();
    push_zeros(&mut moved, lead);
    push_range(&mut moved, digits.as_slice(), 0, len);
    push_zeros(&mut moved, trail);
    assert(digits@.subrange(0, len as int) == digits@);
    assert(moved@ == zeros(lead as nat) + digits@ + zeros(trail as nat));
    let split: usize = if point <= 0 {
        0
    } else if point >= len as i128 {
        moved.len()
    } else {
        point as usize
    };
    proof {
        let (whole, fraction) = number.shifted();
        assert(zeros(0) =~= Seq::<u8>::empty());
        assert(moved@.take(split as int) =~= whole);
        assert(moved@.skip(split as int) =~= fraction);
        assert forall|i: int| 0 <= i < moved@.len() implies is_digit(#[trigger] moved@[i]) by {
            if lead <= i < lead + len {
                assert(is_digit(digits@[i - lead]));
            }
        }
    }
    let rounded = nearest_decimal(&moved, split);
    if !rounded.is_finite() {
        return None;
    }
    let product = nearest_product(rounded, factor);
    if !product.is_finite() {
        return None;
    }
    Some(product.whole_saturated())
}

/// Reads the digits of `bytes[start..end]` around its decimal point: where
/// the digits before the point end and where those behind it begin, if
/// nothing but digits stands on either side.
fn read_mantissa(bytes: &[u8], start: usize, end: usize) -> (r: Option<(usize, usize)>)
    requires
        start <= end <= bytes@.len(),
    ensures
        ({
            let (whole, fraction) = mantissa_parts(bytes@.subrange(start as int, end as int));
            match r {
                Some((stop, behind)) => {
                    &&& start <= stop <= behind <= end
                    &&& all_digits(whole)
                    &&& all_digits(fraction)
                    &&& whole == bytes@.subrange(start as int, stop as int)
                    &&& fraction == bytes@.subrange(behind as int, end as int)
                },
                None => !(all_digits(whole) && all_digits(fraction)),
            }
        }),
{
    let ghost mantissa = bytes@.subrange(start as int, end as int);
    let (stop, _) = read_whole(bytes, start, end);
    let ghost whole = bytes@.subrange(start as int, stop as int);
    proof {
        assert(whole == mantissa.take(stop - start));
        assert forall|i: int| 0 <= i < stop - start implies mantissa[i] != POINT by {
            assert(is_digit(whole[i]));
        }
        lemma_position_bound(mantissa, POINT, POINT);
        if stop < end && bytes[stop as int] == POINT {
            lemma_position(mantissa, POINT, POINT, (stop - start) as nat);
        } else if stop == end {
            lemma_position(mantissa, POINT, POINT, (stop - start) as nat);
        } else {
            assert(point_position(mantissa) > stop - start);
            assert(!is_digit(mantissa.take(point_position(mantissa) as int)[stop - start]));
        }
    }
    if stop < end && bytes[stop] != POINT {
        return None;
    }
    let behind = if stop < end {
        stop + 1
    } else {
        end
    };
    let ghost fraction = bytes@.subrange(behind as int, end as int);
    proof {
        if stop < end {
            assert(mantissa.skip(stop - start + 1) == fraction);
        } else {
            assert(fraction =~= Seq::<u8>::empty());
        }
    }
    let (fraction_end, _) = read_whole(bytes, behind, end);
    if fraction_end < end {
        assert(!is_digit(fraction[fraction_end - behind]));
        return None;
    }
    Some((stop, behind))
}

/// Copies the digits `bytes[start..stop]` and `bytes[behind..end]` into one
/// text.
fn join_digits(bytes: &[u8], start: usize, stop: usize, behind: usize, end: usize) -> (digits: Vec<
    u8,
>)
    requires
        start <= stop <= behind <= end <= bytes@.len(),
        all_digits(bytes@.subrange(start as int, stop as int)),
        all_digits(bytes@.subrange(behind as int, end as int)),
    ensures
        digits@ == bytes@.subrange(start as int, stop as int) + bytes@.subrange(
            behind as int,
            end as int,
        ),
        all_digits(digits@),
{
    let ghost whole = bytes@.subrange(start as int, stop as int);
    let ghost fraction = bytes@.subrange(behind as int, end as int);
    let mut digits: Vec<u8> = Vec::new();
    push_range(&mut digits, bytes, start, stop);
    push_range(&mut digits, bytes, behind, end);
    assert(digits@ =~= whole + fraction);
    assert forall|i: int| 0 <= i < digits@.len() implies is_digit(#[trigger] digits@[i]) by {
        if i < whole.len() {
            assert(is_digit(whole[i]));
        } else {
            assert(is_digit(fraction[i - whole.len()]));
        }
    }
    digits
}

/// Reads the number `bytes[start..end]` and counts it in units of `factor`.
#[verifier::rlimit(80)]
fn read_number(bytes: &[u8], start: usize, end: usize, factor: u64) -> (r: Option<usize>)
    requires
        start <= end <= bytes@.len(),
        1 <= factor <= 0x4000_0000,
    ensures
        r == match number_parts(bytes@.subrange(start as int, end as int)) {
            Some(number) => match number.size(factor as nat) {
                Some(size) => Some(saturated(size)),
                None => None::<usize>,
            },
            None => None,
        },
{
    let ghost text = bytes@.subrange(start as int, end as int);
    let ghost body = unsigned(text);
    let from = if start < end && bytes[start] == PLUS {
        start + 1
    } else {
        start
    };
    assert(body == bytes@.subrange(from as int, end as int));
    let mark = find_mark(bytes, from, end);
    assert(bytes@.subrange(from as int, mark as int) == body.take(mark - from));
    let (stop, behind) = match read_mantissa(bytes, from, mark) {
        Some(places) => places,
        None => {
            return None;
        },
    };
    if (stop - from) + (mark - behind) == 0 {
        return None;
    }
    let exponent: i128 = if mark < end {
        assert(body.skip(mark - from + 1) == bytes@.subrange(mark + 1, end as int));
        match read_exponent(bytes, mark + 1, end) {
            Some(exponent) => exponent,
            None => {
                return None;
            },
        }
    } else {
        0
    };
    let digits = join_digits(bytes, from, stop, behind, mark);
    let ghost number = number_parts(text)->0;
    size_of_number(&digits, exponent + (stop - from) as i128, factor, Ghost(number))
}

/// Reads a size in bytes: a number, and after it one of the units `B`, `KB`,
/// `KiB`, `MB`, `MiB`, `GB`, `GiB` or none.
///
/// The number is written in decimal notation: digits with or without a
/// decimal point, with or without an exponent behind an `e` or an `E`, and
/// with no sign but a plus. White space around the text is disregarded.
///
/// The size is what binary floating-point arithmetic of 64 bits makes of the
/// number and its unit: the number is rounded to the nearest binary
/// floating-point number, and so is its product with the unit, so that
/// `1.001KB` is 1000 bytes. What is left of a byte is cut off, and a size
/// beyond the machine's integers counts as the largest of them. A text is
/// refused if it is no number, or if one of the two roundings leaves the
/// finite numbers.
pub fn parse_size(s: &str) -> (r: Result<usize, &'static str>)
    ensures
        match size_of_text(s.spec_bytes()) {
            Some(size) => r == Ok::<usize, &'static str>(saturated(size)),
            None => r is Err && r->Err_0@ == "invalid format"@,
        },
{
    let bytes = s.as_bytes();
    let (lo, hi) = trim_bounds(bytes);
    let (end, factor) = split_unit(bytes, lo, hi);
    assert(bytes@.subrange(lo as int, hi as int).take(end - lo) == bytes@.subrange(
        lo as int,
        end as int,
    ));
    match read_number(bytes, lo, end, factor) {
        Some(size) => Ok(size),
        None => Err("invalid format"),
    }
}

} // verus!
