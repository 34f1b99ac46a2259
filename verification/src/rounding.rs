//! Rounding to binary floating-point numbers of 64 bits, in whole numbers.
//!
//! Such a number is a mantissa below `2^53` times a power of two that is
//! `2^-1074` or more. A number is rounded to the nearest of them, and to
//! the one with the even mantissa where two are equally near. Nothing here
//! is computed with floating-point arithmetic: a number is cut down bit by
//! bit, and what is cut off decides the rounding.

use vstd::prelude::*;
use vstd::arithmetic::div_mod::{lemma_div_denominator, lemma_fundamental_div_mod_converse};
use crate::config::saturated;
use crate::decimal::{
    all_digits, digits_value, is_digit, lemma_digits_value_concat, lemma_digits_value_front,
    lemma_nonzero_value, lemma_pow10_step, lemma_value_below_pow10, lemma_zero_value, pow10,
    ZERO,
};

verus! {

/// Two to the power 53: the mantissas lie below it.
pub const MANTISSA_LIMIT: u64 = 0x20_0000_0000_0000;

/// The least exponent of two that a mantissa is multiplied with.
pub const LEAST_EXPONENT: i128 = -1074;

/// The exponent of two in whose unit a number is taken before it is cut
/// down: two bits below the least exponent, for the rounding.
pub const SCALE: usize = 1076;

/// Two to the power `n`.
pub open spec fn pow2(n: nat) -> nat
    decreases n,
{
    if n == 0 {
        1
    } else {
        2 * pow2((n - 1) as nat)
    }
}

/// A number while it is cut down: it lies between `mantissa` and
/// `mantissa + 1` times two to the power `exponent`. Of what has been cut
/// off, `round` is the last bit, and `sticky` says whether anything before
/// it was not zero.
pub struct Cut {
    pub mantissa: nat,
    pub exponent: int,
    pub round: bool,
    pub sticky: bool,
}

/// What is left to cut: the mantissa, and the steps to the least exponent.
pub open spec fn cut_measure(mantissa: nat, exponent: int) -> nat {
    if exponent < LEAST_EXPONENT {
        (mantissa + (LEAST_EXPONENT - exponent)) as nat
    } else {
        mantissa
    }
}

/// Cuts a number down to a mantissa below `2^53` and an exponent of
/// `-1074` or more: while it is not there, the last bit of the mantissa is
/// cut off and the exponent goes up by one.
pub open spec fn cut_down(mantissa: nat, exponent: int, round: bool, sticky: bool) -> Cut
    decreases cut_measure(mantissa, exponent),
{
    if mantissa < MANTISSA_LIMIT && exponent >= LEAST_EXPONENT {
        Cut { mantissa, exponent, round, sticky }
    } else {
        cut_down(mantissa / 2, exponent + 1, mantissa % 2 == 1, sticky || round)
    }
}

/// A binary floating-point number: `mantissa` times two to the power
/// `exponent`.
pub struct Binary64 {
    pub mantissa: nat,
    pub exponent: int,
}

/// The binary floating-point number nearest to a number that lies between
/// `mantissa` and `mantissa + 1` times two to the power `exponent`, and is
/// more than `mantissa` exactly if `inexact`. The number is cut down, and the
/// mantissa goes up by one if more than half a step was cut off, or just
/// half a step from an odd mantissa.
pub open spec fn nearest(mantissa: nat, exponent: int, inexact: bool) -> Binary64 {
    let cut = cut_down(mantissa, exponent, false, inexact);
    Binary64 {
        mantissa: if cut.round && (cut.sticky || cut.mantissa % 2 == 1) {
            cut.mantissa + 1
        } else {
            cut.mantissa
        },
        exponent: cut.exponent,
    }
}

impl Binary64 {
    /// Whether the number is below `2^1024`: from there on a binary
    /// floating-point number of 64 bits is infinite.
    pub open spec fn is_finite(self) -> bool {
        self.exponent < 0 || self.mantissa * pow2(self.exponent as nat) < pow2(1024)
    }

    /// The number without its fraction.
    pub open spec fn whole(self) -> nat {
        if self.exponent >= 0 {
            self.mantissa * pow2(self.exponent as nat)
        } else {
            self.mantissa / pow2((-self.exponent) as nat)
        }
    }
}

/// The number with the digits `whole` before its decimal point and the
/// digits `fraction` behind it, in units of `2^-1076` and without what is
/// less than one unit.
pub open spec fn scaled(whole: Seq<u8>, fraction: Seq<u8>) -> nat {
    digits_value(whole + fraction) * pow2(SCALE as nat) / pow10(fraction.len())
}

/// Whether the number with these digits is more than [`scaled`] units.
pub open spec fn is_inexact(whole: Seq<u8>, fraction: Seq<u8>) -> bool {
    digits_value(whole + fraction) * pow2(SCALE as nat) % pow10(fraction.len()) != 0
}

/// The binary floating-point number nearest to the number with the digits
/// `whole` before its decimal point and the digits `fraction` behind it.
pub open spec fn nearest_to_decimal(whole: Seq<u8>, fraction: Seq<u8>) -> Binary64 {
    nearest(scaled(whole, fraction), -(SCALE as int), is_inexact(whole, fraction))
}

/// The binary floating-point number nearest to `factor` times `number`.
pub open spec fn nearest_to_product(number: Binary64, factor: nat) -> Binary64 {
    nearest(number.mantissa * factor, number.exponent, false)
}

/// Each power of two is twice the one before, and none is zero.
pub proof fn lemma_pow2_step(n: nat)
    ensures
        pow2(n + 1) == 2 * pow2(n),
        pow2(n) >= 1,
    decreases n,
{
    if n > 0 {
        lemma_pow2_step((n - 1) as nat);
    }
}

/// The power of a sum is the product of the powers.
pub proof fn lemma_pow2_add(a: nat, b: nat)
    ensures
        pow2(a + b) == pow2(a) * pow2(b),
    decreases a,
{
    if a == 0 {
        assert(pow2(0) == 1);
        assert(1 * pow2(b) == pow2(b));
    } else {
        lemma_pow2_add((a - 1) as nat, b);
        lemma_pow2_step((a - 1) as nat);
        lemma_pow2_step((a - 1 + b) as nat);
        assert(2 * (pow2((a - 1) as nat) * pow2(b)) == (2 * pow2((a - 1) as nat)) * pow2(b))
            by (nonlinear_arith);
    }
}

/// The powers of two grow with the exponent.
pub proof fn lemma_pow2_mono(a: nat, b: nat)
    requires
        a <= b,
    ensures
        pow2(a) <= pow2(b),
    decreases b,
{
    if a < b {
        lemma_pow2_mono(a, (b - 1) as nat);
        lemma_pow2_step((b - 1) as nat);
    }
}

/// Some powers of two by their values.
proof fn lemma_pow2_small()
    ensures
        pow2(4) == 0x10,
        pow2(5) == 0x20,
        pow2(6) == 0x40,
        pow2(14) == 0x4000,
        pow2(16) == 0x1_0000,
{
    reveal_with_fuel(pow2, 17);
}

/// Two to the power 48.
proof fn lemma_pow2_48()
    ensures
        pow2(48) == 0x1_0000_0000_0000,
{
    lemma_pow2_small();
    lemma_pow2_add(16, 16);
    lemma_pow2_add(32, 16);
}

/// Two to the power 53.
proof fn lemma_pow2_53()
    ensures
        pow2(53) == MANTISSA_LIMIT,
{
    lemma_pow2_small();
    lemma_pow2_48();
    lemma_pow2_add(48, 5);
}

/// Two to the power 54.
proof fn lemma_pow2_54()
    ensures
        pow2(54) == 0x40_0000_0000_0000,
{
    lemma_pow2_small();
    lemma_pow2_48();
    lemma_pow2_add(48, 6);
}

/// Two to the power 62.
proof fn lemma_pow2_62()
    ensures
        pow2(62) == 0x4000_0000_0000_0000,
{
    lemma_pow2_small();
    lemma_pow2_48();
    lemma_pow2_add(48, 14);
}

/// Two to the power 84.
proof fn lemma_pow2_84()
    ensures
        pow2(84) == 0x10_0000_0000_0000_0000_0000,
{
    lemma_pow2_small();
    lemma_pow2_48();
    lemma_pow2_add(48, 16);
    lemma_pow2_add(64, 16);
    lemma_pow2_add(80, 4);
}

/// Doubles the number that `digits` writes; the result has one digit more.
pub fn double(digits: &Vec<u8>) -> (out: Vec<u8>)
    requires
        all_digits(digits@),
    ensures
        all_digits(out@),
        out@.len() == digits@.len() + 1,
        digits_value(out@) == 2 * digits_value(digits@),
{
    let len = digits.len();
    let mut out: Vec<u8> = Vec::new();
    let mut k: usize = 0;
    while k < len
        invariant
            k <= len,
            len == digits@.len(),
            out@.len() == k,
            all_digits(out@),
        decreases len - k,
    {
        out.push(ZERO);
        k = k + 1;
    }
    out.push(ZERO);
    let mut done: usize = 0;
    let mut carry: u8 = 0;
    proof {
        assert(out@.skip(len + 1 - done).len() == 0);
        assert(digits@.skip(len - done).len() == 0);
        assert(pow10(0) == 1);
    }
    while done < len
        invariant
            done <= len,
            len == digits@.len(),
            out@.len() == len + 1,
            all_digits(out@),
            all_digits(digits@),
            carry <= 1,
            digits_value(out@.skip(len + 1 - done)) + carry * pow10(done as nat) == 2
                * digits_value(digits@.skip(len - done)),
        decreases len - done,
    {
        let place = len - done - 1;
        let digit = digits[place] - ZERO;
        let twice = 2 * digit + carry;
        let ghost before = out@;
        out.set(place + 1, ZERO + twice % 10);
        proof {
            let lower_out = before.skip(len + 1 - done);
            let lower_in = digits@.skip(len - done);
            let upper_out = out@.skip(place + 1);
            let upper_in = digits@.skip(place as int);
            assert(upper_out.skip(1) =~= lower_out);
            assert(upper_in.skip(1) =~= lower_in);
            assert forall|i: int| 0 <= i < upper_out.len() implies is_digit(
                #[trigger] upper_out[i],
            ) by {
                assert(is_digit(out@[place + 1 + i]));
            }
            assert forall|i: int| 0 <= i < upper_in.len() implies is_digit(#[trigger] upper_in[i]) by {
                assert(is_digit(digits@[place + i]));
            }
            lemma_digits_value_front(upper_out);
            lemma_digits_value_front(upper_in);
            lemma_pow10_step(done as nat);
            let scale = pow10(done as nat) as int;
            assert((twice % 10) * scale + (twice / 10) * (10 * scale) == twice * scale)
                by (nonlinear_arith)
                requires
                    twice == (twice / 10) * 10 + twice % 10,
            ;
            assert(2 * (digit * scale) + carry * scale == twice * scale) by (nonlinear_arith)
                requires
                    twice == 2 * digit + carry,
            ;
        }
        carry = twice / 10;
        done = done + 1;
    }
    let ghost before = out@;
    out.set(0, ZERO + carry);
    proof {
        assert(out@.skip(1) =~= before.skip(1));
        assert(digits@.skip(0) == digits@);
        lemma_digits_value_front(out@);
    }
    out
}

/// Halves the number that `digits` writes: the half without its fraction,
/// with as many digits, and whether the number was odd.
pub fn halve(digits: &Vec<u8>) -> (r: (Vec<u8>, bool))
    requires
        all_digits(digits@),
    ensures
        all_digits(r.0@),
        r.0@.len() == digits@.len(),
        digits_value(r.0@) == digits_value(digits@) / 2,
        r.1 == (digits_value(digits@) % 2 == 1),
{
    let len = digits.len();
    let mut out: Vec<u8> = Vec::new();
    let mut rest: u8 = 0;
    let mut i: usize = 0;
    assert(digits@.take(0).len() == 0);
    while i < len
        invariant
            i <= len,
            len == digits@.len(),
            all_digits(digits@),
            all_digits(out@),
            out@.len() == i,
            rest <= 1,
            2 * digits_value(out@) + rest == digits_value(digits@.take(i as int)),
        decreases len - i,
    {
        let digit = digits[i] - ZERO;
        let all = rest * 10 + digit;
        proof {
            assert(digits@.take(i + 1).drop_last() == digits@.take(i as int));
            assert(digits@.take(i + 1).last() == digits@[i as int]);
            assert(out@.push((ZERO + all / 2) as u8).drop_last() == out@);
        }
        out.push(ZERO + all / 2);
        rest = all % 2;
        i = i + 1;
    }
    assert(digits@.take(len as int) == digits@);
    (out, rest == 1)
}

/// A binary floating-point number as it is held: `mantissa` times two to
/// the power `exponent`.
#[derive(Clone, Copy, Debug)]
pub struct Rounded {
    pub mantissa: u64,
    pub exponent: i128,
}

impl View for Rounded {
    type V = Binary64;

    open spec fn view(&self) -> Binary64 {
        Binary64 { mantissa: self.mantissa as nat, exponent: self.exponent as int }
    }
}

/// Takes the number that `digits` writes in units of `2^-1076`.
fn scale_up(digits: &Vec<u8>) -> (out: Vec<u8>)
    requires
        all_digits(digits@),
    ensures
        all_digits(out@),
        out@.len() == digits@.len() + SCALE,
        digits_value(out@) == digits_value(digits@) * pow2(SCALE as nat),
{
    let mut out = double(digits);
    let mut i: usize = 1;
    proof {
        assert(pow2(1) == 2) by {
            reveal_with_fuel(pow2, 2);
        }
    }
    while i < SCALE
        invariant
            1 <= i <= SCALE,
            all_digits(out@),
            out@.len() == digits@.len() + i,
            digits_value(out@) == digits_value(digits@) * pow2(i as nat),
        decreases SCALE - i,
    {
        proof {
            lemma_pow2_step(i as nat);
            assert(2 * (digits_value(digits@) * pow2(i as nat)) == digits_value(digits@) * (2
                * pow2(i as nat))) by (nonlinear_arith);
        }
        out = double(&out);
        i = i + 1;
    }
    out
}

/// Tells whether the digits of `digits` from `from` on write a number that
/// is not zero.
fn is_nonzero(digits: &Vec<u8>, from: usize) -> (r: bool)
    requires
        all_digits(digits@),
        from <= digits@.len(),
    ensures
        r == (digits_value(digits@.skip(from as int)) != 0),
{
    let ghost tail = digits@.skip(from as int);
    let mut i: usize = from;
    while i < digits.len()
        invariant
            from <= i <= digits@.len(),
            tail == digits@.skip(from as int),
            all_digits(digits@),
            forall|k: int| 0 <= k < i - from ==> tail[k] == ZERO,
        decreases digits@.len() - i,
    {
        if digits[i] != ZERO {
            proof {
                assert forall|k: int| 0 <= k < tail.len() implies is_digit(#[trigger] tail[k]) by {
                    assert(is_digit(digits@[from + k]));
                }
                lemma_nonzero_value(tail, i - from);
            }
            return true;
        }
        i = i + 1;
    }
    proof {
        lemma_zero_value(tail);
    }
    false
}

/// Reads the number that `digits` writes if it is below `2^53`.
fn small_value(digits: &Vec<u8>) -> (r: Option<u64>)
    requires
        all_digits(digits@),
    ensures
        match r {
            Some(value) => value == digits_value(digits@) && value < MANTISSA_LIMIT,
            None => digits_value(digits@) >= MANTISSA_LIMIT,
        },
{
    let mut i: usize = 0;
    let mut value: u64 = 0;
    let mut large = false;
    assert(digits@.take(0).len() == 0);
    while i < digits.len()
        invariant
            i <= digits@.len(),
            all_digits(digits@),
            large ==> digits_value(digits@.take(i as int)) >= MANTISSA_LIMIT,
            !large ==> value == digits_value(digits@.take(i as int)) && value < MANTISSA_LIMIT,
        decreases digits@.len() - i,
    {
        proof {
            assert(digits@.take(i + 1).drop_last() == digits@.take(i as int));
            assert(digits@.take(i + 1).last() == digits@[i as int]);
            assert(is_digit(digits@[i as int]));
        }
        if !large {
            value = value * 10 + (digits[i] - ZERO) as u64;
            if value >= MANTISSA_LIMIT {
                large = true;
            }
        }
        i = i + 1;
    }
    assert(digits@.take(i as int) == digits@);
    if large {
        None
    } else {
        Some(value)
    }
}

/// A power of ten is no more than the power of two with four times the
/// exponent.
proof fn lemma_pow10_below_pow2(n: nat)
    ensures
        pow10(n) <= pow2(4 * n),
    decreases n,
{
    if n > 0 {
        lemma_pow10_below_pow2((n - 1) as nat);
        lemma_pow2_add(4, (4 * (n - 1)) as nat);
        lemma_pow2_small();
    } else {
        assert(pow10(0) == 1 && pow2(0) == 1);
    }
}

/// Cuts the number that `digits` writes in units of `2^-1076` down to a
/// mantissa and an exponent, and tells what was cut off.
#[verifier::rlimit(50)]
fn cut_digits(digits: Vec<u8>, inexact: bool) -> (r: (u64, i128, bool, bool))
    requires
        all_digits(digits@),
    ensures
        cut_down(digits_value(digits@), -(SCALE as int), false, inexact) == (Cut {
            mantissa: r.0 as nat,
            exponent: r.1 as int,
            round: r.2,
            sticky: r.3,
        }),
        r.0 < MANTISSA_LIMIT,
        LEAST_EXPONENT <= r.1 <= LEAST_EXPONENT + 4 * digits@.len(),
{
    let ghost start = digits_value(digits@);
    let len = digits.len();
    let (once, first_bit) = halve(&digits);
    let (twice, second_bit) = halve(&once);
    let mut current = twice;
    let mut exponent: i128 = -1074;
    let mut round = second_bit;
    let mut sticky = inexact || first_bit;
    let ghost mut budget: nat = 4 * (len as nat);
    proof {
        reveal_with_fuel(cut_down, 3);
        assert(cut_down(start, -(SCALE as int), false, inexact) == cut_down(
            digits_value(current@),
            -1074,
            round,
            sticky,
        ));
        lemma_value_below_pow10(digits@);
        lemma_pow10_below_pow2(len as nat);
    }
    loop
        invariant
            all_digits(current@),
            current@.len() == len,
            len == digits@.len(),
            start == digits_value(digits@),
            exponent >= LEAST_EXPONENT,
            cut_down(start, -(SCALE as int), false, inexact) == cut_down(
                digits_value(current@),
                exponent as int,
                round,
                sticky,
            ),
            digits_value(current@) < pow2(budget),
            exponent + budget == LEAST_EXPONENT + 4 * len,
        ensures
            cut_down(start, -(SCALE as int), false, inexact) == cut_down(
                digits_value(current@),
                exponent as int,
                round,
                sticky,
            ),
            digits_value(current@) < MANTISSA_LIMIT,
            LEAST_EXPONENT <= exponent <= LEAST_EXPONENT + 4 * len,
        decreases digits_value(current@),
    {
        match small_value(&current) {
            Some(mantissa) => {
                assert(cut_down(mantissa as nat, exponent as int, round, sticky) == (Cut {
                    mantissa: mantissa as nat,
                    exponent: exponent as int,
                    round,
                    sticky,
                }));
                return (mantissa, exponent, round, sticky);
            },
            None => {},
        }
        proof {
            if budget == 0 {
                assert(pow2(0) == 1);
            }
            lemma_pow2_step((budget - 1) as nat);
            budget = (budget - 1) as nat;
        }
        let (half, bit) = halve(&current);
        sticky = sticky || round;
        round = bit;
        current = half;
        exponent = exponent + 1;
    }
}

/// Rounds to the binary floating-point number nearest to the number with
/// the digits `digits[..point]` before its decimal point and the digits
/// `digits[point..]` behind it.
#[verifier::rlimit(50)]
pub fn nearest_decimal(digits: &Vec<u8>, point: usize) -> (r: Rounded)
    requires
        all_digits(digits@),
        point <= digits@.len(),
    ensures
        r@ == nearest_to_decimal(digits@.take(point as int), digits@.skip(point as int)),
        r.mantissa <= MANTISSA_LIMIT,
        LEAST_EXPONENT <= r.exponent <= LEAST_EXPONENT + 4 * (digits@.len() + SCALE),
{
    let places = digits.len() - point;
    let scaled_up = scale_up(digits);
    let split = scaled_up.len() - places;
    let mut whole: Vec<u8> = Vec::new();
    let mut i: usize = 0;
    while i < split
        invariant
            i <= split <= scaled_up@.len(),
            whole@ == scaled_up@.take(i as int),
        decreases split - i,
    {
        whole.push(scaled_up[i]);
        i = i + 1;
        assert(whole@ =~= scaled_up@.take(i as int));
    }
    let inexact = is_nonzero(&scaled_up, split);
    proof {
        let rest = scaled_up@.skip(split as int);
        assert(whole@ + rest =~= scaled_up@);
        assert(digits@.take(point as int) + digits@.skip(point as int) =~= digits@);
        assert forall|k: int| 0 <= k < whole@.len() implies is_digit(#[trigger] whole@[k]) by {
            assert(is_digit(scaled_up@[k]));
        }
        assert forall|k: int| 0 <= k < rest.len() implies is_digit(#[trigger] rest[k]) by {
            assert(is_digit(scaled_up@[split + k]));
        }
        lemma_digits_value_concat(whole@, rest);
        lemma_value_below_pow10(rest);
        lemma_pow10_step(places as nat);
        lemma_fundamental_div_mod_converse(
            digits_value(scaled_up@) as int,
            pow10(places as nat) as int,
            digits_value(whole@) as int,
            digits_value(rest) as int,
        );
    }
    let (mantissa, exponent, round, sticky) = cut_digits(whole, inexact);
    let up = round && (sticky || mantissa % 2 == 1);
    Rounded {
        mantissa: if up {
            mantissa + 1
        } else {
            mantissa
        },
        exponent,
    }
}

/// Rounds the product of `number` and `factor` to the nearest binary
/// floating-point number.
#[verifier::rlimit(50)]
pub fn nearest_product(number: Rounded, factor: u64) -> (r: Rounded)
    requires
        number.mantissa <= MANTISSA_LIMIT,
        factor <= 0x4000_0000,
        LEAST_EXPONENT <= number.exponent <= i128::MAX - 84,
    ensures
        r@ == nearest_to_product(number@, factor as nat),
        r.mantissa <= MANTISSA_LIMIT,
        number.exponent <= r.exponent <= number.exponent + 84,
{
    assert(number.mantissa * factor <= 0x20_0000_0000_0000 * 0x4000_0000) by (nonlinear_arith)
        requires
            number.mantissa <= 0x20_0000_0000_0000,
            factor <= 0x4000_0000,
    ;
    let ghost start = (number.mantissa * factor) as nat;
    let mut mantissa: u128 = number.mantissa as u128 * factor as u128;
    assert(mantissa == start);
    let mut exponent: i128 = number.exponent;
    let mut round = false;
    let mut sticky = false;
    let ghost mut budget: nat = 84;
    proof {
        lemma_pow2_84();
    }
    while mantissa >= MANTISSA_LIMIT as u128
        invariant
            exponent >= LEAST_EXPONENT,
            budget <= 84,
            number.exponent <= i128::MAX - 84,
            exponent + budget == number.exponent + 84,
            mantissa < pow2(budget),
            cut_down(start, number.exponent as int, false, false) == cut_down(
                mantissa as nat,
                exponent as int,
                round,
                sticky,
            ),
        decreases mantissa,
    {
        proof {
            if budget == 0 {
                assert(pow2(0) == 1);
            }
            lemma_pow2_step((budget - 1) as nat);
            budget = (budget - 1) as nat;
        }
        sticky = sticky || round;
        round = mantissa % 2 == 1;
        mantissa = mantissa / 2;
        exponent = exponent + 1;
    }
    assert(cut_down(mantissa as nat, exponent as int, round, sticky) == (Cut {
        mantissa: mantissa as nat,
        exponent: exponent as int,
        round,
        sticky,
    }));
    let cut = mantissa as u64;
    let up = round && (sticky || cut % 2 == 1);
    Rounded {
        mantissa: if up {
            cut + 1
        } else {
            cut
        },
        exponent,
    }
}

/// Computes two to the power `n`.
fn power_of_two(n: usize) -> (r: u64)
    requires
        n < 64,
    ensures
        r == pow2(n as nat),
{
    let mut r: u64 = 1;
    let mut i: usize = 0;
    proof {
        lemma_pow2_62();
    }
    while i < n
        invariant
            i <= n < 64,
            r == pow2(i as nat),
            pow2(62) == 0x4000_0000_0000_0000,
        decreases n - i,
    {
        proof {
            lemma_pow2_step(i as nat);
            lemma_pow2_mono(i as nat, 62);
        }
        r = r * 2;
        i = i + 1;
    }
    r
}

/// A mantissa times a power of two is below the power of two that is
/// `short` steps above it exactly if the mantissa is below two to the power
/// `short`.
proof fn lemma_product_order(mantissa: nat, short: nat, e: nat)
    ensures
        mantissa * pow2(e) < pow2(short + e) <==> mantissa < pow2(short),
{
    lemma_pow2_add(short, e);
    lemma_pow2_step(e);
    let unit = pow2(e);
    let bound = pow2(short);
    if mantissa < bound {
        assert(mantissa * unit < bound * unit) by (nonlinear_arith)
            requires
                mantissa < bound,
                unit >= 1,
        ;
    } else {
        assert(mantissa * unit >= bound * unit) by (nonlinear_arith)
            requires
                mantissa >= bound,
                unit >= 1,
        ;
    }
}

impl Rounded {
    /// Tells whether the number is finite.
    pub fn is_finite(&self) -> (r: bool)
        requires
            self.mantissa <= MANTISSA_LIMIT,
        ensures
            r == self@.is_finite(),
    {
        if self.exponent < 0 {
            return true;
        }
        let ghost e = self.exponent as nat;
        if self.exponent > 1024 {
            proof {
                lemma_pow2_mono(1024, e);
                lemma_pow2_step(e);
                if self.mantissa >= 1 {
                    assert(self.mantissa * pow2(e) >= pow2(e)) by (nonlinear_arith)
                        requires
                            self.mantissa >= 1,
                            pow2(e) >= 1,
                    ;
                } else {
                    assert(0 * pow2(e) == 0);
                    lemma_pow2_step(1024);
                }
            }
            return self.mantissa == 0;
        }
        let short = (1024 - self.exponent) as usize;
        proof {
            lemma_product_order(self.mantissa as nat, short as nat, e);
        }
        if short >= 54 {
            proof {
                lemma_pow2_mono(54, short as nat);
                lemma_pow2_54();
            }
            return true;
        }
        let bound = power_of_two(short);
        self.mantissa < bound
    }

    /// Takes the number without its fraction, and the largest integer of
    /// the machine if it is larger.
    pub fn whole_saturated(&self) -> (r: usize)
        requires
            self.mantissa <= MANTISSA_LIMIT,
            self.exponent >= LEAST_EXPONENT,
        ensures
            r == saturated(self@.whole()),
    {
        if self.exponent >= 0 {
            let mut value: u128 = self.mantissa as u128;
            let mut i: i128 = 0;
            assert(pow2(0) == 1);
            assert(self.mantissa * 1 == self.mantissa);
            while i < self.exponent && value <= usize::MAX as u128 && value > 0
                invariant
                    0 <= i <= self.exponent,
                    value == self.mantissa * pow2(i as nat),
                    value <= 2 * (u64::MAX as u128),
                decreases self.exponent - i,
            {
                proof {
                    lemma_pow2_step(i as nat);
                    assert(2 * (self.mantissa * pow2(i as nat)) == self.mantissa * (2 * pow2(
                        i as nat,
                    ))) by (nonlinear_arith);
                }
                value = value * 2;
                i = i + 1;
            }
            proof {
                let e = self.exponent as nat;
                lemma_pow2_mono(i as nat, e);
                if value == 0 {
                    lemma_pow2_step(i as nat);
                    assert(self.mantissa == 0) by (nonlinear_arith)
                        requires
                            self.mantissa * pow2(i as nat) == 0,
                            pow2(i as nat) >= 1,
                    ;
                    assert(0 * pow2(e) == 0);
                } else {
                    assert(self.mantissa * pow2(i as nat) <= self.mantissa * pow2(e))
                        by (nonlinear_arith)
                        requires
                            pow2(i as nat) <= pow2(e),
                    ;
                }
            }
            if value > usize::MAX as u128 {
                usize::MAX
            } else {
                value as usize
            }
        } else {
            let mut value: u64 = self.mantissa;
            let mut i: i128 = 0;
            assert(pow2(0) == 1);
            assert(self.mantissa as nat / 1 == self.mantissa);
            while i < -self.exponent && value > 0
                invariant
                    0 <= i <= -self.exponent,
                    LEAST_EXPONENT <= self.exponent < 0,
                    value == self.mantissa as nat / pow2(i as nat),
                decreases -self.exponent - i,
            {
                proof {
                    lemma_pow2_step(i as nat);
                    lemma_div_denominator(self.mantissa as int, pow2(i as nat) as int, 2);
                    assert(pow2(i as nat) * 2 == pow2((i + 1) as nat));
                }
                value = value / 2;
                i = i + 1;
            }
            proof {
                let e = (-self.exponent) as nat;
                if i < e {
                    lemma_pow2_step(i as nat);
                    lemma_pow2_step(e);
                    lemma_pow2_mono(i as nat, e);
                    assert(self.mantissa < pow2(i as nat)) by (nonlinear_arith)
                        requires
                            self.mantissa as nat / pow2(i as nat) == 0,
                            pow2(i as nat) >= 1,
                    ;
                    vstd::arithmetic::div_mod::lemma_basic_div(
                        self.mantissa as int,
                        pow2(e) as int,
                    );
                }
            }
            if value > usize::MAX as u64 {
                usize::MAX
            } else {
                value as usize
            }
        }
    }
}

/// What cutting down leaves: a mantissa below `2^53` with an exponent that
/// is `-1074` or more and no less than it was; the mantissa is the number
/// without the bits that were cut off; and a mantissa whose exponent has
/// gone up beyond `-1074` fills its 53 bits.
pub proof fn lemma_cut_down(mantissa: nat, exponent: int, round: bool, sticky: bool)
    ensures
        ({
            let cut = cut_down(mantissa, exponent, round, sticky);
            &&& cut.mantissa < MANTISSA_LIMIT
            &&& cut.exponent >= LEAST_EXPONENT
            &&& cut.exponent >= exponent
            &&& cut.mantissa == mantissa / pow2((cut.exponent - exponent) as nat)
            &&& cut.exponent > exponent && cut.exponent > LEAST_EXPONENT ==> cut.mantissa
                >= MANTISSA_LIMIT / 2
        }),
    decreases cut_measure(mantissa, exponent),
{
    if mantissa < MANTISSA_LIMIT && exponent >= LEAST_EXPONENT {
        assert(pow2(0) == 1);
        assert(mantissa / 1 == mantissa);
    } else {
        let cut = cut_down(mantissa / 2, exponent + 1, mantissa % 2 == 1, sticky || round);
        lemma_cut_down(mantissa / 2, exponent + 1, mantissa % 2 == 1, sticky || round);
        let steps = (cut.exponent - exponent - 1) as nat;
        lemma_pow2_step(steps);
        lemma_div_denominator(mantissa as int, 2, pow2(steps) as int);
    }
}

/// Zero is rounded to zero, whatever was cut off below one unit: the least
/// binary floating-point number above zero is four units.
pub proof fn lemma_nearest_to_zero(inexact: bool)
    ensures
        nearest(0, -(SCALE as int), inexact) == (Binary64 { mantissa: 0, exponent: -1074 }),
        nearest(0, -1074, false) == (Binary64 { mantissa: 0, exponent: -1074 }),
{
    reveal_with_fuel(cut_down, 3);
}

/// A number that is at least `bound` times `unit` holds `unit` at least
/// `bound` times.
pub proof fn lemma_quotient_at_least(number: nat, unit: nat, bound: nat)
    requires
        unit > 0,
        number >= bound * unit,
    ensures
        number / unit >= bound,
{
    vstd::arithmetic::div_mod::lemma_div_is_ordered(
        (bound * unit) as int,
        number as int,
        unit as int,
    );
    vstd::arithmetic::div_mod::lemma_div_multiples_vanish(bound as int, unit as int);
    assert(unit * bound == bound * unit) by (nonlinear_arith);
}

/// A mantissa below `2^53` that is what is left of a number of `2^2276`
/// units or more has lost more than 2223 bits.
proof fn lemma_many_steps(units: nat, steps: nat)
    requires
        units >= pow2(2276),
        units / pow2(steps) < MANTISSA_LIMIT,
    ensures
        steps > 2223,
{
    if steps <= 2223 {
        lemma_pow2_step(steps);
        lemma_pow2_mono(53 + steps, 2276);
        lemma_pow2_add(53, steps);
        lemma_pow2_53();
        lemma_quotient_at_least(units, pow2(steps), pow2(53));
    }
}

/// A number of `2^2276` units or more is rounded beyond the finite numbers.
pub proof fn lemma_nearest_to_huge(units: nat, inexact: bool)
    requires
        units >= pow2(2276),
    ensures
        !nearest(units, -(SCALE as int), inexact).is_finite(),
{
    let cut = cut_down(units, -(SCALE as int), false, inexact);
    lemma_cut_down(units, -(SCALE as int), false, inexact);
    lemma_many_steps(units, (cut.exponent + SCALE) as nat);
    let rounded = nearest(units, -(SCALE as int), inexact);
    assert(rounded.exponent == cut.exponent);
    assert(rounded.mantissa >= cut.mantissa);
    let unit = pow2(rounded.exponent as nat);
    lemma_pow2_mono(1024, rounded.exponent as nat);
    lemma_pow2_step(rounded.exponent as nat);
    assert(rounded.mantissa * unit >= unit) by (nonlinear_arith)
        requires
            rounded.mantissa >= 1,
            unit >= 1,
    ;
}

/// A power of ten is at least the power of two with three times the
/// exponent.
pub proof fn lemma_pow10_above_pow2(n: nat)
    ensures
        pow10(n) >= pow2(3 * n),
    decreases n,
{
    if n > 0 {
        lemma_pow10_above_pow2((n - 1) as nat);
        lemma_pow2_add(3, (3 * (n - 1)) as nat);
        assert(pow2(3) == 8) by {
            reveal_with_fuel(pow2, 4);
        }
    } else {
        assert(pow10(0) == 1 && pow2(0) == 1);
    }
}

/// A power of two is no more than the power of ten with the same exponent.
pub proof fn lemma_pow2_below_pow10(n: nat)
    ensures
        pow2(n) <= pow10(n),
    decreases n,
{
    if n > 0 {
        lemma_pow2_below_pow10((n - 1) as nat);
    }
}

/// Whether a number is nearer to the next multiple of `step` above it than
/// to the one below it, from which it lies `rest` and, if `inexact`, a little
/// more; or as near to both, with the multiple below it `odd`.
pub open spec fn rounds_up(rest: nat, step: nat, inexact: bool, odd: bool) -> bool {
    2 * rest > step || (2 * rest == step && (inexact || odd))
}

/// What the bits that are cut off say of what a number was: `round` is the
/// bit just below the mantissa, and `sticky` tells whether anything lay
/// below that bit.
spec fn bits_agree(number: nat, inexact: bool, steps: nat, round: bool, sticky: bool) -> bool {
    let rest = number % pow2(steps);
    &&& round == (steps >= 1 && 2 * rest >= pow2(steps))
    &&& sticky == (inexact || if round {
        2 * rest > pow2(steps)
    } else {
        rest > 0
    })
}

/// Cutting down keeps the bits that are cut off in agreement with the
/// number.
proof fn lemma_cut_bits(
    number: nat,
    inexact: bool,
    steps: nat,
    mantissa: nat,
    exponent: int,
    round: bool,
    sticky: bool,
)
    requires
        mantissa == number / pow2(steps),
        bits_agree(number, inexact, steps, round, sticky),
    ensures
        ({
            let cut = cut_down(mantissa, exponent, round, sticky);
            let total = (steps + cut.exponent - exponent) as nat;
            &&& cut.exponent >= exponent
            &&& cut.mantissa == number / pow2(total)
            &&& bits_agree(number, inexact, total, cut.round, cut.sticky)
        }),
    decreases cut_measure(mantissa, exponent),
{
    if !(mantissa < MANTISSA_LIMIT && exponent >= LEAST_EXPONENT) {
        let step = pow2(steps);
        let rest = number % step;
        let bit = mantissa % 2;
        lemma_pow2_step(steps);
        lemma_div_denominator(number as int, step as int, 2);
        vstd::arithmetic::div_mod::lemma_mod_breakdown(number as int, step as int, 2);
        vstd::arithmetic::div_mod::lemma_mod_bound(number as int, step as int);
        assert(step * 2 == pow2(steps + 1));
        assert(number % pow2(steps + 1) == step * bit + rest);
        assert(step * bit == if bit == 1 {
            step
        } else {
            0
        }) by (nonlinear_arith)
            requires
                bit == 0 || bit == 1,
        ;
        lemma_cut_bits(
            number,
            inexact,
            steps + 1,
            mantissa / 2,
            exponent + 1,
            mantissa % 2 == 1,
            sticky || round,
        );
    }
}

/// Rounding gives the nearest binary floating-point number: the mantissa is
/// the number without the bits below it, and one more where the number is
/// nearer to that, or as near and the mantissa odd.
pub proof fn law_nearest_is_nearest(mantissa: nat, exponent: int, inexact: bool)
    ensures
        ({
            let rounded = nearest(mantissa, exponent, inexact);
            let step = pow2((rounded.exponent - exponent) as nat);
            let below = mantissa / step;
            &&& rounded.exponent >= exponent
            &&& rounded.exponent >= LEAST_EXPONENT
            &&& below < MANTISSA_LIMIT
            &&& rounded.mantissa == if rounds_up(mantissa % step, step, inexact, below % 2 == 1) {
                below + 1
            } else {
                below
            }
        }),
{
    assert(pow2(0) == 1);
    assert(mantissa / 1 == mantissa && mantissa % 1 == 0);
    lemma_cut_bits(mantissa, inexact, 0, mantissa, exponent, false, inexact);
    lemma_cut_down(mantissa, exponent, false, inexact);
    let cut = cut_down(mantissa, exponent, false, inexact);
    let steps = (cut.exponent - exponent) as nat;
    lemma_pow2_step(steps);
    vstd::arithmetic::div_mod::lemma_mod_bound(mantissa as int, pow2(steps) as int);
}

/// The least number that is rounded beyond the finite numbers, in units of
/// `2^-1076`: the number `2^1024 - 2^970`, which lies halfway between the
/// largest finite binary floating-point number and `2^1024`.
pub open spec fn overflow_threshold() -> nat {
    (0x40_0000_0000_0000 - 1) as nat * pow2(2046)
}

/// A number stays finite when it is rounded exactly if it is below
/// `2^1024 - 2^970`.
pub proof fn law_finite_below_the_threshold(units: nat, inexact: bool)
    ensures
        nearest(units, -(SCALE as int), inexact).is_finite() <==> units < overflow_threshold(),
{
    let rounded = nearest(units, -(SCALE as int), inexact);
    let cut = cut_down(units, -(SCALE as int), false, inexact);
    lemma_cut_down(units, -(SCALE as int), false, inexact);
    law_nearest_is_nearest(units, -(SCALE as int), inexact);
    let steps = (cut.exponent + SCALE) as nat;
    let step = pow2(steps);
    let below = units / step;
    let rest = units % step;
    let half = pow2(2046);
    let limit = MANTISSA_LIMIT as nat;
    lemma_pow2_step(steps);
    lemma_pow2_step(2046);
    vstd::arithmetic::div_mod::lemma_fundamental_div_mod(units as int, step as int);
    vstd::arithmetic::div_mod::lemma_mod_bound(units as int, step as int);
    assert(units == step * below + rest);
    assert(rounded.mantissa <= below + 1);
    assert(rounded.mantissa >= below);
    lemma_pow2_53();
    lemma_pow2_54();
    if cut.exponent < 971 {
        lemma_pow2_mono(steps, 2046);
        assert(step * below + rest < half * limit) by (nonlinear_arith)
            requires
                rest < step,
                below < limit,
                step <= half,
        ;
        assert(half * limit <= (0x40_0000_0000_0000 - 1) as nat * half) by (nonlinear_arith)
            requires
                limit == 0x20_0000_0000_0000,
        ;
        if cut.exponent >= 0 {
            let e = cut.exponent as nat;
            lemma_pow2_mono(e, 970);
            lemma_pow2_add(53, 970);
            lemma_pow2_mono(1023, 1024);
            lemma_pow2_step(1023);
            assert(rounded.mantissa * pow2(e) <= limit * pow2(970)) by (nonlinear_arith)
                requires
                    rounded.mantissa <= limit,
                    pow2(e) <= pow2(970),
            ;
        }
    } else if cut.exponent > 971 {
        let e = cut.exponent as nat;
        lemma_pow2_mono(972, e);
        lemma_pow2_mono(2048, steps);
        lemma_pow2_add(52, 972);
        lemma_pow2_add(52, 2048);
        lemma_pow2_add(54, 2046);
        lemma_pow2_add(48, 4);
        lemma_pow2_small();
        lemma_pow2_48();
        let full = pow2(52);
        assert(rounded.mantissa * pow2(e) >= full * pow2(972)) by (nonlinear_arith)
            requires
                rounded.mantissa >= full,
                pow2(e) >= pow2(972),
        ;
        assert(step * below + rest >= pow2(2048) * full) by (nonlinear_arith)
            requires
                below >= full,
                step >= pow2(2048),
        ;
        assert(pow2(2048) * full == full * pow2(2048)) by (nonlinear_arith);
        assert((0x40_0000_0000_0000 - 1) as nat * half <= pow2(54) * half) by (nonlinear_arith)
            requires
                pow2(54) == 0x40_0000_0000_0000,
        ;
    } else {
        lemma_pow2_add(53, 971);
        assert(step == 2 * half);
        let unit = pow2(971);
        lemma_pow2_step(971);
        if rounded.mantissa < limit {
            assert(rounded.mantissa * unit < limit * unit) by (nonlinear_arith)
                requires
                    rounded.mantissa < limit,
                    unit >= 1,
            ;
        } else {
            assert(rounded.mantissa * unit >= limit * unit) by (nonlinear_arith)
                requires
                    rounded.mantissa >= limit,
                    unit >= 1,
            ;
        }
        assert(rounded.is_finite() <==> rounded.mantissa < limit);
        if below + 2 <= limit {
            assert(step * below + rest < (0x40_0000_0000_0000 - 1) as nat * half)
                by (nonlinear_arith)
                requires
                    step == 2 * half,
                    rest < step,
                    below + 2 <= 0x20_0000_0000_0000,
                    half >= 1,
            ;
        } else {
            assert(below == limit - 1);
            assert(step * below == (0x40_0000_0000_0000 - 2) as nat * half) by (nonlinear_arith)
                requires
                    step == 2 * half,
                    below == 0x20_0000_0000_0000 - 1,
            ;
            assert((0x40_0000_0000_0000 - 1) as nat * half == (0x40_0000_0000_0000 - 2) as nat
                * half + half) by (nonlinear_arith);
            assert(units < overflow_threshold() <==> rest < half);
            assert(below % 2 == 1);
            assert(rounds_up(rest, step, inexact, true) <==> rest >= half);
        }
    }
}

} // verus!
