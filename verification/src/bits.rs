//! `f64` values carried as their IEEE-754 bit patterns: the total order
//! `f64::total_cmp` uses, and the classification and comparisons `==` and
//! `<` make, stated on the bits.
use vstd::prelude::*;

verus! {

/// The position of an `f64`, given as its bits, in the total order
/// `f64::total_cmp` uses: positive values by their bits, negative values
/// below every positive one and below each other by magnitude.
pub open spec fn total_key(bits: u64) -> int {
    if bits < 0x8000_0000_0000_0000 {
        bits as int
    } else {
        -1 - (bits - 0x8000_0000_0000_0000)
    }
}

/// The total-order key of an `f64` given as its bits.
pub fn total_order_key(bits: u64) -> (res: i64)
    ensures
        res as int == total_key(bits),
{
    if bits < 0x8000_0000_0000_0000 {
        bits as i64
    } else {
        -1 - ((bits - 0x8000_0000_0000_0000) as i64)
    }
}

/// The magnitude bits of an `f64` given as its bits: everything but the sign.
pub open spec fn magnitude_bits(bits: u64) -> int {
    (bits as int) % 0x8000_0000_0000_0000
}

/// Whether the `f64` with these bits is negative-signed.
pub open spec fn sign_negative(bits: u64) -> bool {
    bits >= 0x8000_0000_0000_0000
}

/// Whether the `f64` with these bits is finite: its exponent is not all ones.
pub open spec fn is_finite_bits(bits: u64) -> bool {
    magnitude_bits(bits) / 0x10_0000_0000_0000 != 0x7ff
}

/// Whether the `f64` with these bits is a NaN.
pub open spec fn is_nan_bits(bits: u64) -> bool {
    !is_finite_bits(bits) && magnitude_bits(bits) % 0x10_0000_0000_0000 != 0
}

/// Whether the two `f64`s compare equal under `==`: neither is a NaN, and
/// they have the same bits or are both zero.
pub open spec fn float_equal_bits(first: u64, second: u64) -> bool {
    !is_nan_bits(first) && !is_nan_bits(second)
        && (first == second || (magnitude_bits(first) == 0 && magnitude_bits(second) == 0))
}

/// The value of an `f64` given as its bits, up to its scale: the magnitude
/// bits, negated for a negative sign. It orders every non-NaN `f64` the way
/// `<` does, both zeros at zero.
pub open spec fn signed_magnitude(bits: u64) -> int {
    if sign_negative(bits) { -magnitude_bits(bits) } else { magnitude_bits(bits) }
}

/// Whether `a < b` holds of the two `f64`s: neither is a NaN and `a` is the
/// smaller value (`-0.0` and `0.0` being equal).
pub open spec fn float_less(a: u64, b: u64) -> bool {
    &&& !is_nan_bits(a)
    &&& !is_nan_bits(b)
    &&& signed_magnitude(a) < signed_magnitude(b)
}

fn signed_magnitude_of(bits: u64) -> (res: i128)
    ensures
        res as int == signed_magnitude(bits),
{
    let magnitude = (bits % 0x8000_0000_0000_0000) as i128;
    if bits >= 0x8000_0000_0000_0000 { -magnitude } else { magnitude }
}

/// Whether the `f64` with these bits is a NaN.
pub fn is_nan_value(bits: u64) -> (res: bool)
    ensures
        res == is_nan_bits(bits),
{
    let magnitude = bits % 0x8000_0000_0000_0000;
    magnitude / 0x10_0000_0000_0000 == 0x7ff && magnitude % 0x10_0000_0000_0000 != 0
}

/// `a < b` on two `f64`s given as their bits.
pub fn float_bits_less(a: u64, b: u64) -> (res: bool)
    ensures
        res == float_less(a, b),
{
    !is_nan_value(a) && !is_nan_value(b) && signed_magnitude_of(a) < signed_magnitude_of(b)
}

/// Whether `a <= b` holds of the two `f64`s: neither is a NaN and `a` is
/// not the larger value (`-0.0` and `0.0` being equal).
pub open spec fn float_le(a: u64, b: u64) -> bool {
    &&& !is_nan_bits(a)
    &&& !is_nan_bits(b)
    &&& signed_magnitude(a) <= signed_magnitude(b)
}

/// `a <= b` on two `f64`s given as their bits.
pub fn float_bits_le(a: u64, b: u64) -> (res: bool)
    ensures
        res == float_le(a, b),
{
    !is_nan_value(a) && !is_nan_value(b) && signed_magnitude_of(a) <= signed_magnitude_of(b)
}

/// The bits of `0.0` and `1.0`.
pub const ZERO_BITS: u64 = 0;
pub const ONE_BITS: u64 = 0x3ff0_0000_0000_0000;

/// `value.clamp(0.0, 1.0)` on bits: a NaN stays a NaN, a value below zero
/// becomes `0.0`, one above one becomes `1.0`, anything else (`-0.0`
/// included) is kept.
pub open spec fn clamp_unit(value: u64) -> u64 {
    if float_less(value, ZERO_BITS) {
        ZERO_BITS
    } else if float_less(ONE_BITS, value) {
        ONE_BITS
    } else {
        value
    }
}

/// `value.clamp(0.0, 1.0)` on an `f64` given as its bits.
pub fn clamp_unit_bits(value: u64) -> (res: u64)
    ensures
        res == clamp_unit(value),
{
    if float_bits_less(value, ZERO_BITS) {
        ZERO_BITS
    } else if float_bits_less(ONE_BITS, value) {
        ONE_BITS
    } else {
        value
    }
}

/// Clamping into `[0, 1]` twice is clamping once.
pub proof fn lemma_clamp_unit_idempotent(value: u64)
    ensures
        clamp_unit(clamp_unit(value)) == clamp_unit(value),
{
}

/// Two to the power `n`.
pub open spec fn two_to(n: nat) -> nat
    decreases n,
{
    if n == 0 { 1 } else { 2 * two_to((n - 1) as nat) }
}

/// The biased exponent field of an `f64` given as its bits.
pub open spec fn exponent_field(bits: u64) -> nat {
    (magnitude_bits(bits) / 0x10_0000_0000_0000) as nat
}

/// The fraction field of an `f64` given as its bits.
pub open spec fn fraction_field(bits: u64) -> nat {
    (magnitude_bits(bits) % 0x10_0000_0000_0000) as nat
}

/// The lower edge of the interval of reals that round (to nearest, ties to
/// even) to the positive finite `f64` with these bits, as `(n, p)` standing
/// for `n * 2^p / 2^1077`: halfway down to the next smaller `f64`, which is
/// half as far below at the bottom of a binade.
pub open spec fn rounding_edge(bits: u64) -> (nat, nat) {
    let e = exponent_field(bits);
    let f = fraction_field(bits);
    let m: nat = if e == 0 { f } else { f + 0x10_0000_0000_0000 };
    let e1: nat = if e == 0 { 1 } else { e };
    if e > 1 && f == 0 {
        ((4 * m - 1) as nat, e1)
    } else {
        ((2 * m - 1) as nat, e1 + 1)
    }
}

/// Whether `agreeing / total`, rounded to the nearest `f64` (ties to even)
/// as `agreeing as f64 / total as f64` does for counts below `2^53`, is at
/// least the `f64` `threshold`; a total of zero is the quotient `0.0`.
///
/// A positive threshold is reached exactly when the quotient is at or above
/// the lower edge of the threshold's rounding interval, the edge itself
/// rounding up when the threshold's last significand bit is even.
pub open spec fn quotient_reaches(agreeing: nat, total: nat, threshold: u64) -> bool {
    if is_nan_bits(threshold) {
        false
    } else if sign_negative(threshold) || magnitude_bits(threshold) == 0 {
        true
    } else if !is_finite_bits(threshold) || total == 0 {
        false
    } else {
        let (n, p) = rounding_edge(threshold);
        let lhs = agreeing * two_to(1077);
        let rhs = n * total * two_to(p);
        lhs > rhs || (lhs == rhs && threshold % 2 == 0)
    }
}

proof fn lemma_two_to_add(a: nat, b: nat)
    ensures
        two_to(a + b) == two_to(a) * two_to(b),
    decreases a,
{
    if a == 0 {
        assert(two_to(a) == 1);
        assert(a + b == b);
    } else {
        let c = (a - 1) as nat;
        lemma_two_to_add(c, b);
        assert((a + b) as nat == (c + b + 1) as nat);
        assert(two_to((c + b + 1) as nat) == 2 * two_to((c + b) as nat));
        assert(two_to(a) == 2 * two_to(c));
        let x = two_to(c);
        let y = two_to(b);
        assert(2 * (x * y) == (2 * x) * y) by (nonlinear_arith);
    }
}

proof fn lemma_two_to_positive(a: nat)
    ensures
        two_to(a) >= 1,
    decreases a,
{
    if a > 0 {
        lemma_two_to_positive((a - 1) as nat);
    }
}

/// The sign of `x * 2^d - y`: `1`, `0` or `-1`.
fn scaled_compare(x: u128, d: u64, y: u128) -> (res: i8)
    requires
        x < 0x100_0000_0000_0000_0000_0000_0000_0000,
        y < 0x100_0000_0000_0000_0000_0000_0000_0000,
    ensures
        res == 1 <==> x * two_to(d as nat) > y,
        res == 0 <==> x * two_to(d as nat) == y,
        res == -1 <==> x * two_to(d as nat) < y,
{
    let mut acc: u128 = x;
    let mut i: u64 = 0;
    assert(two_to(0) == 1);
    assert(x * two_to(0) == x);
    while i < d
        invariant
            i <= d,
            acc == x * two_to(i as nat),
            acc < 0x200_0000_0000_0000_0000_0000_0000_0000,
            y < 0x100_0000_0000_0000_0000_0000_0000_0000,
        decreases d - i,
    {
        if acc > y {
            proof {
                lemma_two_to_add(i as nat, (d - i) as nat);
                lemma_two_to_positive((d - i) as nat);
                assert(x * two_to(d as nat) == acc * two_to((d - i) as nat)) by (nonlinear_arith)
                    requires
                        two_to(d as nat) == two_to(i as nat) * two_to((d - i) as nat),
                        acc == x * two_to(i as nat);
                assert(acc * two_to((d - i) as nat) >= acc) by (nonlinear_arith)
                    requires
                        two_to((d - i) as nat) >= 1,
                        acc >= 0;
            }
            return 1;
        }
        proof {
            assert(two_to((i + 1) as nat) == 2 * two_to(i as nat));
            assert(x * (2 * two_to(i as nat)) == 2 * (x * two_to(i as nat))) by (nonlinear_arith);
        }
        acc = acc * 2;
        i = i + 1;
    }
    if acc > y {
        1
    } else if acc == y {
        0
    } else {
        -1
    }
}

/// Whether `agreeing / total`, rounded to an `f64`, is at least the `f64`
/// `threshold`.
pub fn quotient_bits_reach(agreeing: u64, total: u64, threshold: u64) -> (res: bool)
    ensures
        res == quotient_reaches(agreeing as nat, total as nat, threshold),
{
    let magnitude = threshold % 0x8000_0000_0000_0000;
    let e = magnitude / 0x10_0000_0000_0000;
    let f = magnitude % 0x10_0000_0000_0000;
    if e == 0x7ff && f != 0 {
        return false;
    }
    if threshold >= 0x8000_0000_0000_0000 || magnitude == 0 {
        return true;
    }
    if e == 0x7ff || total == 0 {
        return false;
    }
    let m: u128 = if e == 0 { f as u128 } else { f as u128 + 0x10_0000_0000_0000 };
    let e1: u64 = if e == 0 { 1 } else { e };
    let (n, p): (u128, u64) = if e > 1 && f == 0 { (4 * m - 1, e1) } else { (2 * m - 1, e1 + 1) };
    proof {
        assert(n < 0x80_0000_0000_0000);
        assert(n * total < 0x80_0000_0000_0000 * 0x1_0000_0000_0000_0000) by (nonlinear_arith)
            requires
                n < 0x80_0000_0000_0000,
                total < 0x1_0000_0000_0000_0000,
                0 <= n,
                0 <= total;
        lemma_two_to_positive(p as nat);
        lemma_two_to_positive(1077);
    }
    let rhs_base: u128 = n * (total as u128);
    let sign: i8 = if p <= 1077 {
        let s = scaled_compare(agreeing as u128, 1077 - p, rhs_base);
        proof {
            lemma_two_to_add((1077 - p) as nat, p as nat);
            let k = two_to((1077 - p) as nat);
            let q = two_to(p as nat);
            assert(two_to(1077) == k * q);
            assert((agreeing * k > rhs_base) == (agreeing * (k * q) > rhs_base * q)) by (nonlinear_arith)
                requires
                    q >= 1;
            assert((agreeing * k == rhs_base) == (agreeing * (k * q) == rhs_base * q)) by (nonlinear_arith)
                requires
                    q >= 1;
        }
        s
    } else {
        let s = scaled_compare(rhs_base, p - 1077, agreeing as u128);
        proof {
            lemma_two_to_add((p - 1077) as nat, 1077);
            let k = two_to((p - 1077) as nat);
            let q = two_to(1077);
            assert(two_to(p as nat) == k * q);
            assert((rhs_base * k > agreeing) == (rhs_base * (k * q) > agreeing * q)) by (nonlinear_arith)
                requires
                    q >= 1;
            assert((rhs_base * k == agreeing) == (rhs_base * (k * q) == agreeing * q)) by (nonlinear_arith)
                requires
                    q >= 1;
        }
        -s
    };
    proof {
        assert(rounding_edge(threshold) == (n as nat, p as nat));
        assert(n as nat * total * two_to(p as nat) == rhs_base * two_to(p as nat));
    }
    sign == 1 || (sign == 0 && threshold % 2 == 0)
}

} // verus!
