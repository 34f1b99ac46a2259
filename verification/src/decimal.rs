//! Numbers in decimal notation.

use vstd::prelude::*;

verus! {

/// The byte of the digit zero.
pub const ZERO: u8 = 48;

/// The byte of the digit nine.
pub const NINE: u8 = 57;

/// Ten to the power `e`.
pub open spec fn pow10(e: nat) -> nat
    decreases e,
{
    if e == 0 {
        1
    } else {
        10 * pow10((e - 1) as nat)
    }
}

/// Each power of ten is ten times the one before, and none is zero.
pub proof fn lemma_pow10_step(e: nat)
    ensures
        pow10(e + 1) == 10 * pow10(e),
        pow10(e) >= 1,
    decreases e,
{
    if e > 0 {
        lemma_pow10_step((e - 1) as nat);
    }
}

/// The powers of ten grow with the exponent.
pub proof fn lemma_pow10_mono(a: nat, b: nat)
    requires
        a <= b,
    ensures
        pow10(a) <= pow10(b),
    decreases b,
{
    if a < b {
        lemma_pow10_mono(a, (b - 1) as nat);
        lemma_pow10_step((b - 1) as nat);
    }
}

/// A power of ten that a machine integer reaches has an exponent under
/// twenty.
pub proof fn lemma_pow10_bound(e: nat, n: nat)
    requires
        pow10(e) <= n,
        n <= u64::MAX,
    ensures
        e < 20,
{
    if e >= 20 {
        lemma_pow10_mono(20, e);
        assert(pow10(20) == 100000000000000000000nat) by {
            reveal_with_fuel(pow10, 21);
        }
    }
}

/// Whether `b` is the byte of a decimal digit.
pub open spec fn is_digit(b: u8) -> bool {
    ZERO <= b <= NINE
}

/// Whether `s` holds decimal digits and nothing else.
pub open spec fn all_digits(s: Seq<u8>) -> bool {
    forall|i: int| 0 <= i < s.len() ==> is_digit(#[trigger] s[i])
}

/// The number that the digits of `s` write; the empty text writes zero.
pub open spec fn digits_value(s: Seq<u8>) -> nat
    decreases s.len(),
{
    if s.len() == 0 {
        0
    } else {
        digits_value(s.drop_last()) * 10 + (s.last() - ZERO) as nat
    }
}

/// The first digit counts for as many tens as digits follow it.
pub proof fn lemma_digits_value_front(s: Seq<u8>)
    requires
        s.len() > 0,
        all_digits(s),
    ensures
        digits_value(s) == (s[0] - ZERO) * pow10((s.len() - 1) as nat) + digits_value(s.skip(1)),
    decreases s.len(),
{
    let lead = (s[0] - ZERO) as int;
    let unit = (s.last() - ZERO) as int;
    if s.len() == 1 {
        assert(s.drop_last().len() == 0);
        assert(s.skip(1).len() == 0);
        assert(digits_value(s.drop_last()) == 0);
        assert(pow10(0) == 1);
        assert(lead * 1 == lead);
    } else {
        let front = s.drop_last();
        let scale = pow10((s.len() - 2) as nat) as int;
        let rest = digits_value(front.skip(1)) as int;
        lemma_digits_value_front(front);
        assert(front.skip(1) == s.skip(1).drop_last());
        assert(s.skip(1).last() == s.last());
        lemma_pow10_step((s.len() - 2) as nat);
        assert(digits_value(front) == lead * scale + rest);
        assert(digits_value(s.skip(1)) == rest * 10 + unit);
        assert(digits_value(s) == (lead * scale + rest) * 10 + unit);
        assert((lead * scale + rest) * 10 == lead * (10 * scale) + rest * 10) by (nonlinear_arith);
    }
}

/// A text of zeros writes zero.
pub proof fn lemma_zero_value(s: Seq<u8>)
    requires
        forall|i: int| 0 <= i < s.len() ==> s[i] == ZERO,
    ensures
        digits_value(s) == 0,
    decreases s.len(),
{
    if s.len() > 0 {
        lemma_zero_value(s.drop_last());
    }
}

/// A text of digits writes a number below ten to the power of its length.
pub proof fn lemma_value_below_pow10(s: Seq<u8>)
    requires
        all_digits(s),
    ensures
        digits_value(s) < pow10(s.len()),
    decreases s.len(),
{
    if s.len() > 0 {
        lemma_value_below_pow10(s.drop_last());
        lemma_pow10_step((s.len() - 1) as nat);
        assert(is_digit(s.last()));
    } else {
        assert(pow10(0) == 1);
    }
}

/// A text of digits with a digit that is not zero writes a number that is
/// not zero.
pub proof fn lemma_nonzero_value(s: Seq<u8>, i: int)
    requires
        all_digits(s),
        0 <= i < s.len(),
        s[i] != ZERO,
    ensures
        digits_value(s) >= 1,
    decreases s.len(),
{
    assert(is_digit(s[i]));
    if i < s.len() - 1 {
        lemma_nonzero_value(s.drop_last(), i);
    }
}

/// The number that two texts write one after the other: the first counts
/// for as many tens as the second has digits.
pub proof fn lemma_digits_value_concat(a: Seq<u8>, b: Seq<u8>)
    ensures
        digits_value(a + b) == digits_value(a) * pow10(b.len()) + digits_value(b),
    decreases b.len(),
{
    if b.len() == 0 {
        assert(a + b == a);
        assert(pow10(0) == 1);
        assert(digits_value(a) * 1 == digits_value(a));
    } else {
        assert((a + b).drop_last() == a + b.drop_last());
        lemma_digits_value_concat(a, b.drop_last());
        lemma_pow10_step((b.len() - 1) as nat);
        assert(digits_value(a) * pow10((b.len() - 1) as nat) * 10 == digits_value(a) * pow10(
            b.len(),
        )) by (nonlinear_arith)
            requires
                pow10(b.len()) == 10 * pow10((b.len() - 1) as nat),
        ;
    }
}

/// A text of digits with a digit that is not zero writes a number that is
/// at least the power of ten of that digit's place.
pub proof fn lemma_value_at_least(s: Seq<u8>, i: int)
    requires
        all_digits(s),
        0 <= i < s.len(),
        s[i] != ZERO,
    ensures
        digits_value(s) >= pow10((s.len() - 1 - i) as nat),
    decreases s.len(),
{
    assert(is_digit(s[i]));
    if i < s.len() - 1 {
        lemma_value_at_least(s.drop_last(), i);
        lemma_pow10_step((s.len() - 2 - i) as nat);
    } else {
        assert(pow10(0) == 1);
    }
}

/// Zeros before a text do not change the number that it writes.
pub proof fn lemma_zeros_before(zeros: Seq<u8>, s: Seq<u8>)
    requires
        forall|i: int| 0 <= i < zeros.len() ==> zeros[i] == ZERO,
    ensures
        digits_value(zeros + s) == digits_value(s),
{
    lemma_digits_value_concat(zeros, s);
    lemma_zero_value(zeros);
    assert(0 * pow10(s.len()) == 0);
}

/// The power of a sum is the product of the powers.
pub proof fn lemma_pow10_add(a: nat, b: nat)
    ensures
        pow10(a + b) == pow10(a) * pow10(b),
    decreases a,
{
    if a == 0 {
        assert(pow10(0) == 1);
        assert(1 * pow10(b) == pow10(b));
    } else {
        lemma_pow10_add((a - 1) as nat, b);
        lemma_pow10_step((a - 1) as nat);
        lemma_pow10_step((a - 1 + b) as nat);
        assert(10 * (pow10((a - 1) as nat) * pow10(b)) == (10 * pow10((a - 1) as nat)) * pow10(b))
            by (nonlinear_arith);
    }
}

} // verus!
