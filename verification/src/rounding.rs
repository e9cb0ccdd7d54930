//! The values of bit patterns, and what rounding makes of a result.
//!
//! IEEE 754 arithmetic rounds a result to a number next to it: no number lies between the exact
//! result and the one that comes out. In particular a result that is a number comes out as it
//! is. The laws of this crate on values ask no more than that of the arithmetic.
use crate::arithmetic::{
    difference_is, double_number_is, double_product_is, double_quotient_is, double_sum_is,
    fract_is, narrow_is, number_is, product_is, quotient_is, square_is, square_root_is, sum_is,
    widen_is, Arithmetic, DoubleArithmetic,
};
use crate::binary::{
    ceil_of, double_ceil_of, double_magnitude, double_not_a_number, double_scaled, floor_of,
    lemma_magnitude_order, magnitude, not_a_number, scaled, scaled_magnitude, scaled_one, unit,
};
use vstd::arithmetic::power2::{
    lemma2_to64, lemma2_to64_rest, lemma_pow2_adds, lemma_pow2_pos, pow2,
};
use vstd::prelude::*;

verus! {

/// Whether a `binary32` bit pattern is that of a finite number.
pub open spec fn finite(bits: u32) -> bool {
    magnitude(bits) < 0x7f80_0000
}

/// Whether a `binary64` bit pattern is that of a finite number.
pub open spec fn double_finite(bits: u64) -> bool {
    double_magnitude(bits) < 0x7ff0_0000_0000_0000
}

/// `2^1074`, the number `1` on the scale of `double_scaled`.
pub open spec fn double_one() -> int {
    unit(1075)
}

/// `2^925`, by which the scale of `double_scaled` is finer than that of `scaled`.
pub open spec fn widening() -> int {
    pow2(925) as int
}

/// Whether `r` is next to the fraction `n / d`, on the scale of `scaled`: no finite number lies
/// between the two.
pub open spec fn rounded(n: int, d: int, r: u32) -> bool {
    &&& !not_a_number(r)
    &&& forall|x: u32| #[trigger] finite(x) && scaled(x) * d <= n ==> scaled(x) <= scaled(r)
    &&& forall|x: u32| #[trigger] finite(x) && scaled(x) * d >= n ==> scaled(x) >= scaled(r)
}

/// Whether `r` is next to the fraction `n / d`, on the scale of `double_scaled`.
pub open spec fn double_rounded(n: int, d: int, r: u64) -> bool {
    &&& !double_not_a_number(r)
    &&& forall|x: u64| #[trigger]
        double_finite(x) && double_scaled(x) * d <= n ==> double_scaled(x) <= double_scaled(r)
    &&& forall|x: u64| #[trigger]
        double_finite(x) && double_scaled(x) * d >= n ==> double_scaled(x) >= double_scaled(r)
}

/// Whether arithmetic of single precision rounds to a number next to the result, and takes
/// numbers apart exactly.
pub open spec fn faithful<A: Arithmetic>(ops: &A) -> bool {
    &&& forall|a: u32, b: u32, r: u32|
        finite(a) && finite(b) && #[trigger] sum_is(ops, a, b, r) ==> rounded(
            scaled(a) + scaled(b),
            1,
            r,
        )
    &&& forall|a: u32, b: u32, r: u32|
        finite(a) && finite(b) && #[trigger] difference_is(ops, a, b, r) ==> rounded(
            scaled(a) - scaled(b),
            1,
            r,
        )
    &&& forall|a: u32, b: u32, r: u32|
        finite(a) && finite(b) && #[trigger] product_is(ops, a, b, r) ==> rounded(
            scaled(a) * scaled(b),
            scaled_one(),
            r,
        )
    &&& forall|a: u32, b: u32, r: u32|
        finite(a) && finite(b) && 0 < scaled(b) && #[trigger] quotient_is(ops, a, b, r) ==> rounded(
            scaled(a) * scaled_one(),
            scaled(b),
            r,
        )
    &&& forall|n: i32, r: u32| #[trigger] number_is(ops, n, r) ==> rounded(n * scaled_one(), 1, r)
    &&& forall|a: u32, r: u32|
        finite(a) && #[trigger] fract_is(ops, a, r) ==> finite(r) && scaled(r) == if 0 <= scaled(
            a,
        ) {
            scaled(a) % scaled_one()
        } else {
            -((-scaled(a)) % scaled_one())
        }
}

/// Whether arithmetic of double precision rounds to a number next to the result, and widens
/// exactly.
pub open spec fn double_faithful<A: DoubleArithmetic>(ops: &A) -> bool {
    &&& forall|a: u64, b: u64, r: u64|
        double_finite(a) && double_finite(b) && #[trigger] double_sum_is(ops, a, b, r)
            ==> double_rounded(double_scaled(a) + double_scaled(b), 1, r)
    &&& forall|a: u64, b: u64, r: u64|
        double_finite(a) && double_finite(b) && #[trigger] double_product_is(ops, a, b, r)
            ==> double_rounded(double_scaled(a) * double_scaled(b), double_one(), r)
    &&& forall|a: u64, b: u64, r: u64|
        double_finite(a) && double_finite(b) && 0 < double_scaled(b)
            && #[trigger] double_quotient_is(ops, a, b, r) ==> double_rounded(
            double_scaled(a) * double_one(),
            double_scaled(b),
            r,
        )
    &&& forall|n: usize, r: u64| #[trigger]
        double_number_is(ops, n, r) ==> double_rounded(n * double_one(), 1, r)
    &&& forall|a: u32, r: u64|
        finite(a) && #[trigger] widen_is(ops, a, r) ==> double_finite(r) && double_scaled(r)
            == scaled(a) * widening()
    &&& forall|a: u64, r: u32|
        double_finite(a) && #[trigger] narrow_is(ops, a, r) ==> rounded(
            double_scaled(a),
            widening(),
            r,
        )
}

/// Whether squares, and square roots of numbers that are not negative, round to a number next to
/// the result.
pub open spec fn faithful_powers<A: DoubleArithmetic>(ops: &A) -> bool {
    &&& forall|a: u32, r: u32|
        finite(a) && #[trigger] square_is(ops, a, r) ==> rounded(
            scaled(a) * scaled(a),
            scaled_one(),
            r,
        )
    &&& forall|a: u64, r: u64|
        double_finite(a) && 0 <= double_scaled(a) && #[trigger] square_root_is(ops, a, r) ==> {
            &&& !double_not_a_number(r)
            &&& forall|x: u64| #[trigger]
                double_finite(x) && 0 <= double_scaled(x) && double_scaled(x) * double_scaled(x)
                    <= double_scaled(a) * double_one() ==> double_scaled(x) <= double_scaled(r)
            &&& forall|x: u64| #[trigger]
                double_finite(x) && 0 <= double_scaled(x) && double_scaled(x) * double_scaled(x)
                    >= double_scaled(a) * double_one() ==> double_scaled(x) >= double_scaled(r)
        }
}

/// The value of a `binary32` bit pattern, by its sign, its exponent and its fraction: subnormal
/// numbers are the fraction, and others have a hidden bit and are doubled by each step of the
/// exponent.
pub proof fn lemma_value_of_bits(bits: u32)
    ensures
        ({
            let exponent = (bits as int % 0x8000_0000) / 0x80_0000;
            let fraction = bits as int % 0x80_0000;
            let size = if exponent == 0 {
                fraction
            } else {
                (0x80_0000 + fraction) * pow2((exponent - 1) as nat)
            };
            scaled(bits) == if bits >= 0x8000_0000 {
                -size
            } else {
                size
            }
        }),
        scaled_one() == pow2(149),
{
    lemma2_to64();
    lemma2_to64_rest();
    assert(pow2(23) == 0x80_0000);
    assert((bits as int % 0x8000_0000) % 0x80_0000 == bits as int % 0x80_0000);
}

/// The value of a `binary64` bit pattern, by its sign, its exponent and its fraction.
pub proof fn lemma_value_of_double_bits(bits: u64)
    ensures
        ({
            let exponent = (bits as int % 0x8000_0000_0000_0000) / 0x10_0000_0000_0000;
            let fraction = bits as int % 0x10_0000_0000_0000;
            let size = if exponent == 0 {
                fraction
            } else {
                (0x10_0000_0000_0000 + fraction) * pow2((exponent - 1) as nat)
            };
            double_scaled(bits) == if bits >= 0x8000_0000_0000_0000 {
                -size
            } else {
                size
            }
        }),
        double_one() == pow2(1074),
{
    lemma2_to64();
    lemma2_to64_rest();
    assert(pow2(52) == 0x10_0000_0000_0000);
    assert((bits as int % 0x8000_0000_0000_0000) % 0x10_0000_0000_0000 == bits as int
        % 0x10_0000_0000_0000);
}

/// Two `binary32` numbers that are not zero and have the same value have the same bits, and
/// infinity is above every finite number.
pub proof fn lemma_same_value(a: u32, b: u32)
    requires
        scaled(a) == scaled(b),
    ensures
        magnitude(a) == magnitude(b),
        scaled(a) != 0 ==> a == b,
        finite(a) == finite(b),
{
    let (m, n) = (magnitude(a), magnitude(b));
    lemma_sizes(a);
    lemma_sizes(b);
    if m < n {
        lemma_magnitude_order(m, n, 23);
    } else if n < m {
        lemma_magnitude_order(n, m, 23);
    }
}

proof fn lemma_sizes(a: u32)
    ensures
        0 <= scaled_magnitude(magnitude(a), 23),
        scaled_magnitude(magnitude(a), 23) == 0 <==> magnitude(a) == 0,
{
    lemma2_to64();
    assert(scaled_magnitude(0, 23) == 0) by {
        lemma_value_of_bits(0);
        assert(magnitude(0) == 0);
    }
    if magnitude(a) > 0 {
        lemma_magnitude_order(0, magnitude(a), 23);
    }
}

proof fn lemma_double_sizes(a: u64)
    ensures
        0 <= scaled_magnitude(double_magnitude(a), 52),
        scaled_magnitude(double_magnitude(a), 52) == 0 <==> double_magnitude(a) == 0,
{
    assert(scaled_magnitude(0, 52) == 0) by {
        lemma_value_of_double_bits(0);
        assert(double_magnitude(0) == 0);
    }
    if double_magnitude(a) > 0 {
        lemma_magnitude_order(0, double_magnitude(a), 52);
    }
}

/// Two `binary64` numbers that are not zero and have the same value have the same bits.
pub proof fn lemma_same_double_value(a: u64, b: u64)
    requires
        double_scaled(a) == double_scaled(b),
    ensures
        double_magnitude(a) == double_magnitude(b),
        double_scaled(a) != 0 ==> a == b,
        double_finite(a) == double_finite(b),
{
    let (m, n) = (double_magnitude(a), double_magnitude(b));
    lemma_double_sizes(a);
    lemma_double_sizes(b);
    if m < n {
        lemma_magnitude_order(m, n, 52);
    } else if n < m {
        lemma_magnitude_order(n, m, 52);
    }
}

/// A result that is a number comes out as it is.
pub proof fn lemma_exact(x: u32, n: int, d: int, r: u32)
    requires
        finite(x),
        scaled(x) * d == n,
        rounded(n, d, r),
    ensures
        scaled(r) == scaled(x),
        finite(r),
{
    lemma_same_value(r, x);
}

/// A result that is a number comes out as it is, in double precision.
pub proof fn lemma_double_exact(x: u64, n: int, d: int, r: u64)
    requires
        double_finite(x),
        double_scaled(x) * d == n,
        double_rounded(n, d, r),
    ensures
        double_scaled(r) == double_scaled(x),
        double_finite(r),
{
    lemma_same_double_value(r, x);
}

/// An integer of up to 53 bits, times a power of two, is a `binary64` number.
pub proof fn lemma_representable(n: int, shift: nat) -> (bits: u64)
    requires
        0 <= n < 0x20_0000_0000_0000,
        52 <= shift <= 1900,
    ensures
        double_finite(bits),
        double_scaled(bits) == n * pow2(shift),
{
    lemma_value_of_double_bits(0);
    if n == 0 {
        assert(0 * pow2(shift) == 0) by (nonlinear_arith);
        0
    } else {
        lemma2_to64();
        lemma_representable_from(n, shift, 0)
    }
}

proof fn lemma_representable_from(n: int, shift: nat, e: nat) -> (bits: u64)
    requires
        pow2(e) <= n < 0x20_0000_0000_0000,
        52 <= shift <= 1900,
        e <= 52,
    ensures
        double_finite(bits),
        double_scaled(bits) == n * pow2(shift),
    decreases 52 - e,
{
    lemma2_to64();
    lemma2_to64_rest();
    lemma_pow2_adds(e, 1);
    if e < 52 && pow2(e + 1) <= n {
        lemma_representable_from(n, shift, e + 1)
    } else {
        let rest = (52 - e) as nat;
        let hidden = 0x10_0000_0000_0000int;
        let step = pow2(rest) as int;
        lemma_pow2_pos(rest);
        lemma_pow2_adds(e, rest);
        assert(pow2(e) * step == hidden);
        assert(hidden <= n * step < 2 * hidden) by (nonlinear_arith)
            requires
                pow2(e) <= n < 2 * pow2(e),
                pow2(e) * step == hidden,
                0 < step,
        ;
        let fraction = n * step - hidden;
        let exponent = e + shift - 51;
        let value = exponent * hidden + fraction;
        let bits = value as u64;
        assert(1 <= exponent <= 1901);
        assert(0 < value < 0x7ff0_0000_0000_0000);
        assert(bits as int == value);
        assert(value / hidden == exponent && value % hidden == fraction) by (nonlinear_arith)
            requires
                value == exponent * hidden + fraction,
                0 <= fraction < hidden,
        ;
        assert(value % 0x8000_0000_0000_0000 == value);
        lemma_value_of_double_bits(bits);
        let top = pow2((exponent - 1) as nat) as int;
        assert(double_scaled(bits) == (n * step) * top);
        lemma_pow2_adds(rest, (exponent - 1) as nat);
        assert(step * top == pow2(shift));
        assert((n * step) * top == n * (step * top)) by (nonlinear_arith);
        bits
    }
}

/// An integer of up to 24 bits is a `binary32` number.
pub proof fn lemma_integer(n: int) -> (bits: u32)
    requires
        -0x100_0000 < n < 0x100_0000,
    ensures
        finite(bits),
        scaled(bits) == n * scaled_one(),
{
    lemma_value_of_bits(0);
    if n == 0 {
        assert(0 * scaled_one() == 0) by (nonlinear_arith);
        0
    } else if n > 0 {
        lemma2_to64();
        lemma_integer_from(n, 0)
    } else {
        lemma2_to64();
        let opposite = lemma_integer_from(-n, 0);
        let bits = (opposite + 0x8000_0000) as u32;
        assert(bits as int % 0x8000_0000 == opposite as int);
        assert(magnitude(bits) == magnitude(opposite));
        assert(-((-n) * scaled_one()) == n * scaled_one()) by (nonlinear_arith);
        bits
    }
}

proof fn lemma_integer_from(n: int, e: nat) -> (bits: u32)
    requires
        pow2(e) <= n < 0x100_0000,
        e <= 23,
    ensures
        bits < 0x7f80_0000,
        scaled(bits) == n * scaled_one(),
    decreases 23 - e,
{
    lemma2_to64();
    lemma2_to64_rest();
    lemma_pow2_adds(e, 1);
    if e < 23 && pow2(e + 1) <= n {
        lemma_integer_from(n, e + 1)
    } else {
        let rest = (23 - e) as nat;
        let hidden = 0x80_0000int;
        let step = pow2(rest) as int;
        lemma_pow2_pos(rest);
        lemma_pow2_adds(e, rest);
        assert(pow2(e) * step == hidden);
        assert(hidden <= n * step < 2 * hidden) by (nonlinear_arith)
            requires
                pow2(e) <= n < 2 * pow2(e),
                pow2(e) * step == hidden,
                0 < step,
        ;
        let fraction = n * step - hidden;
        let exponent = e + 127;
        let value = exponent * hidden + fraction;
        let bits = value as u32;
        assert(0 < value < 0x7f80_0000);
        assert(bits as int == value);
        assert(value / hidden == exponent && value % hidden == fraction) by (nonlinear_arith)
            requires
                value == exponent * hidden + fraction,
                0 <= fraction < hidden,
        ;
        assert(value % 0x8000_0000 == value);
        lemma_value_of_bits(bits);
        let top = pow2((exponent - 1) as nat) as int;
        assert(scaled(bits) == (n * step) * top);
        lemma_pow2_adds(rest, (exponent - 1) as nat);
        assert(step * top == scaled_one());
        assert((n * step) * top == n * (step * top)) by (nonlinear_arith);
        bits
    }
}

/// The floor and the ceiling of a number, as indices: the integers on either side of it.
pub proof fn lemma_floor_and_ceiling(bits: u32, limit: int)
    requires
        finite(bits),
        0 <= scaled(bits) < limit * scaled_one(),
        limit <= usize::MAX,
    ensures
        floor_of(bits) == scaled(bits) / scaled_one(),
        floor_of(bits) * scaled_one() <= scaled(bits) < (floor_of(bits) + 1) * scaled_one(),
        ceil_of(bits) == if scaled(bits) % scaled_one() == 0 {
            floor_of(bits)
        } else {
            floor_of(bits) + 1
        },
        0 <= floor_of(bits) < limit,
{
    lemma_pow2_pos(149);
    let one = scaled_one();
    let n = scaled(bits);
    let q = n / one;
    let f = n % one;
    vstd::arithmetic::div_mod::lemma_fundamental_div_mod(n, one);
    assert(0 <= q < limit && 0 <= f < one) by (nonlinear_arith)
        requires
            n == one * q + f,
            f == n % one,
            0 < one,
            0 <= n < limit * one,
    ;
    assert(q * one == one * q) by (nonlinear_arith);
    assert((q + 1) * one == one * q + one) by (nonlinear_arith);
    if f == 0 {
        assert((-n) / one == -q) by (nonlinear_arith)
            requires
                n == one * q,
                0 < one,
        ;
    } else {
        assert((-n) / one == -q - 1) by (nonlinear_arith)
            requires
                n == one * q + f,
                0 < f < one,
        ;
    }
}

/// The ceiling of a `binary64` number, as an index: the least integer that is not below it.
pub proof fn lemma_double_ceiling(bits: u64, n: int)
    requires
        !double_not_a_number(bits),
        0 <= n <= usize::MAX,
    ensures
        double_scaled(bits) <= n * double_one() ==> double_ceil_of(bits) <= n,
        double_scaled(bits) > n * double_one() ==> double_ceil_of(bits) > n || n == usize::MAX,
{
    lemma_pow2_pos(1074);
    let one = double_one();
    let v = double_scaled(bits);
    let q = (-v) / one;
    vstd::arithmetic::div_mod::lemma_fundamental_div_mod(-v, one);
    let f = (-v) % one;
    assert(0 <= f < one) by (nonlinear_arith)
        requires
            f == (-v) % one,
            0 < one,
    ;
    if v <= n * one {
        assert(-q <= n) by (nonlinear_arith)
            requires
                -v == one * q + f,
                0 <= f < one,
                v <= n * one,
        ;
    } else {
        assert(-q > n) by (nonlinear_arith)
            requires
                -v == one * q + f,
                0 <= f < one,
                v > n * one,
        ;
    }
}

/// Numbers below zero, and bit patterns that are not a number, have the index zero, and numbers
/// that are too large have the largest one.
pub proof fn lemma_floor_and_ceiling_beyond(bits: u32)
    ensures
        not_a_number(bits) ==> floor_of(bits) == 0 && ceil_of(bits) == 0,
        scaled(bits) < 0 ==> floor_of(bits) == 0 && ceil_of(bits) == 0,
        !not_a_number(bits) && scaled(bits) >= usize::MAX * scaled_one() ==> floor_of(bits)
            == usize::MAX && ceil_of(bits) == usize::MAX,
{
    lemma_pow2_pos(149);
    let one = scaled_one();
    let n = scaled(bits);
    let (q, c) = (n / one, (-n) / one);
    if n < 0 {
        assert(q <= 0 && -c <= 0) by (nonlinear_arith)
            requires
                q == n / one,
                c == (-n) / one,
                n < 0,
                0 < one,
        ;
    }
    if n >= usize::MAX * one {
        assert(q >= usize::MAX && -c >= usize::MAX) by (nonlinear_arith)
            requires
                q == n / one,
                c == (-n) / one,
                n >= usize::MAX * one,
                0 < one,
        ;
    }
}

/// Comparing bit patterns compares values: which of two numbers is the larger one, whether they
/// are equal, and whether one is zero, of either sign.
pub proof fn lemma_comparisons(a: u32, b: u32)
    requires
        !not_a_number(a),
        !not_a_number(b),
    ensures
        crate::binary::maximum_of(a, b) == a || crate::binary::maximum_of(a, b) == b,
        scaled(crate::binary::maximum_of(a, b)) >= scaled(a),
        scaled(crate::binary::maximum_of(a, b)) >= scaled(b),
        crate::binary::equal_numbers(a, b) <==> scaled(a) == scaled(b),
        crate::binary::is_zero_number(a) <==> scaled(a) == 0,
        crate::binary::is_zero_number(a) <==> a == 0 || a == 0x8000_0000,
{
    lemma_value_of_bits(0);
    lemma_sizes(a);
    assert(magnitude(0) == 0);
}

/// A bit pattern that is not a number is the larger one of no pair, and equal to nothing.
pub proof fn lemma_comparisons_of_no_number(a: u32, b: u32)
    requires
        not_a_number(a),
    ensures
        crate::binary::maximum_of(a, b) == b,
        !not_a_number(b) ==> crate::binary::maximum_of(b, a) == b,
        !crate::binary::equal_numbers(a, b),
        !crate::binary::equal_numbers(b, a),
        !crate::binary::is_zero_number(a),
{
}

} // verus!
