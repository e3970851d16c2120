//! Ordering of IEEE 754 double-precision values, held as their 64 raw bits.
//!
//! The library stores every floating-point sample as the bits of the double.
//! Comparing two samples needs no arithmetic on them: the bits of a number
//! order it, except that a NaN compares with nothing and the two zeros are
//! equal. That is what this module states and computes.

use vstd::prelude::*;

verus! {

/// Weight of the sign bit.
pub const SIGN_WEIGHT: u64 = 0x8000_0000_0000_0000;

/// Bits of positive infinity.
pub const INFINITY: u64 = 0x7FF0_0000_0000_0000;

/// Bits of negative infinity.
pub const NEG_INFINITY: u64 = 0xFFF0_0000_0000_0000;

/// The bits without the sign: for two numbers of one sign, a larger
/// magnitude is a larger absolute value.
pub open spec fn magnitude(v: u64) -> int {
    if v < SIGN_WEIGHT {
        v as int
    } else {
        v - SIGN_WEIGHT
    }
}

/// Whether the bits are those of a NaN.
pub open spec fn nan(v: u64) -> bool {
    magnitude(v) > INFINITY
}

/// An integer that orders the numbers as their values do. Both zeros have
/// rank 0.
pub open spec fn rank(v: u64) -> int {
    if v < SIGN_WEIGHT {
        magnitude(v)
    } else {
        -magnitude(v)
    }
}

/// `a <= b` as doubles.
pub open spec fn num_le(a: u64, b: u64) -> bool {
    !nan(a) && !nan(b) && rank(a) <= rank(b)
}

/// `a < b` as doubles.
pub open spec fn num_lt(a: u64, b: u64) -> bool {
    !nan(a) && !nan(b) && rank(a) < rank(b)
}

/// Whether the bits are those of a NaN.
pub fn is_nan(v: u64) -> (r: bool)
    ensures
        r == nan(v),
{
    let m: u64 = if v < SIGN_WEIGHT {
        v
    } else {
        v - SIGN_WEIGHT
    };
    m > INFINITY
}

/// Compares two doubles by their bits: `a <= b`.
pub fn at_most(a: u64, b: u64) -> (r: bool)
    ensures
        r == num_le(a, b),
{
    if is_nan(a) || is_nan(b) {
        return false;
    }
    if a < SIGN_WEIGHT {
        if b < SIGN_WEIGHT {
            a <= b
        } else {
            a == 0 && b == SIGN_WEIGHT
        }
    } else if b < SIGN_WEIGHT {
        true
    } else {
        a >= b
    }
}

/// Compares two doubles by their bits: `a < b`.
pub fn below(a: u64, b: u64) -> (r: bool)
    ensures
        r == num_lt(a, b),
{
    if is_nan(a) || is_nan(b) {
        false
    } else {
        !at_most(b, a)
    }
}

/// A NaN becomes zero; every other value is kept.
pub fn replace_nan_zero(v: u64) -> (r: u64)
    ensures
        r == (if nan(v) {
            0
        } else {
            v
        }),
{
    if is_nan(v) {
        0
    } else {
        v
    }
}

/// Two to a power.
pub open spec fn two(n: nat) -> int
    decreases n,
{
    if n == 0 {
        1
    } else {
        2 * two((n - 1) as nat)
    }
}

/// The bits without the sign as a multiple of the least positive double: eleven
/// bits of exponent and 52 of fraction, with a leading one where the exponent is
/// not zero. Infinity counts as the double that would follow the greatest.
pub open spec fn scaled(bits: int) -> int {
    let exponent = bits / 0x10_0000_0000_0000;
    let fraction = bits % 0x10_0000_0000_0000;
    if exponent == 0 {
        fraction
    } else {
        (0x10_0000_0000_0000 + fraction) * two((exponent - 1) as nat)
    }
}

/// The value of a double as a multiple of the least positive one.
pub open spec fn value_of(v: u64) -> int {
    if v < 0x8000_0000_0000_0000 {
        scaled(v as int)
    } else {
        -scaled(v - 0x8000_0000_0000_0000)
    }
}

/// Whether the exponent is all ones and the fraction not zero.
pub open spec fn no_number(v: u64) -> bool {
    (v as int % 0x8000_0000_0000_0000) / 0x10_0000_0000_0000 == 0x7FF && v as int
        % 0x10_0000_0000_0000 != 0
}

proof fn lemma_two(a: nat, b: nat)
    requires
        a <= b,
    ensures
        0 < two(a) <= two(b),
    decreases b,
{
    if a < b {
        lemma_two(a, (b - 1) as nat);
    } else if b > 0 {
        lemma_two((a - 1) as nat, (b - 1) as nat);
    }
}

proof fn lemma_scaled(a: int, b: int)
    requires
        0 <= a < b,
    ensures
        0 <= scaled(a) < scaled(b),
{
    let one = 0x10_0000_0000_0000int;
    let ea = a / one;
    let eb = b / one;
    let fa = a % one;
    let fb = b % one;
    assert(a == ea * one + fa && b == eb * one + fb);
    assert(0 <= ea <= eb);
    if eb > 0 {
        lemma_two(0, (eb - 1) as nat);
        let tb = two((eb - 1) as nat);
        assert((one + fb) * tb >= one * tb && one * tb >= one) by (nonlinear_arith)
            requires
                fb >= 0,
                tb >= 1,
                one > 0,
        ;
        if ea > 0 {
            lemma_two(0, (ea - 1) as nat);
            let ta = two((ea - 1) as nat);
            if ea == eb {
                assert((one + fa) * ta < (one + fb) * ta && 0 <= (one + fa) * ta)
                    by (nonlinear_arith)
                    requires
                        0 <= fa < fb,
                        ta >= 1,
                        one > 0,
                ;
            } else {
                lemma_two(ea as nat, (eb - 1) as nat);
                assert(two(ea as nat) == 2 * ta);
                assert((one + fa) * ta < one * (2 * ta) && one * (2 * ta) <= one * tb && 0 <= (one
                    + fa) * ta) by (nonlinear_arith)
                    requires
                        0 <= fa < one,
                        ta >= 1,
                        2 * ta <= tb,
                ;
            }
        }
    }
}

/// Doubles are ordered by their values, both zeros alike, and what is no number
/// compares with nothing.
pub proof fn law_order_of_values(a: u64, b: u64)
    ensures
        nan(a) == no_number(a),
        num_le(a, b) == (!no_number(a) && !no_number(b) && value_of(a) <= value_of(b)),
        num_lt(a, b) == (!no_number(a) && !no_number(b) && value_of(a) < value_of(b)),
{
    lemma_no_number(a);
    lemma_no_number(b);
    let x = magnitude(a);
    let y = magnitude(b);
    if x < y {
        lemma_scaled(x, y);
    }
    if y < x {
        lemma_scaled(y, x);
    }
    if x > 0 {
        lemma_scaled(0, x);
    }
    if y > 0 {
        lemma_scaled(0, y);
    }
    assert(scaled(0) == 0);
}

proof fn lemma_no_number(v: u64)
    ensures
        nan(v) == no_number(v),
{
    let m = magnitude(v);
    assert(v as int % 0x8000_0000_0000_0000 == m);
    assert(v as int % 0x10_0000_0000_0000 == m % 0x10_0000_0000_0000);
    assert(m == (m / 0x10_0000_0000_0000) * 0x10_0000_0000_0000 + m % 0x10_0000_0000_0000);
}

/// The bits of both zeros stand for zero, and no others do.
pub proof fn law_zero()
    ensures
        value_of(0) == 0,
        !no_number(0),
        value_of(0x8000_0000_0000_0000) == 0,
        !no_number(0x8000_0000_0000_0000),
        forall|v: u64|
            v != 0 && v != 0x8000_0000_0000_0000 ==> #[trigger] value_of(v) != 0,
{
    assert forall|v: u64| v != 0 && v != 0x8000_0000_0000_0000 implies #[trigger] value_of(v)
        != 0 by {
        lemma_scaled(0, magnitude(v));
    }
    law_order_of_values(0, 0x8000_0000_0000_0000);
}

} // verus!
