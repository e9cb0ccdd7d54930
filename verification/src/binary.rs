//! Bit patterns of binary floating-point numbers.
//!
//! A sample, a delay or a sample rate is held as the bit pattern of an IEEE 754 `binary32`
//! number (a `u32`), and a quantity of double precision as that of a `binary64` number (a
//! `u64`). What can be decided of such a number without rounding is decided here, on the bits:
//! its order, its whole part, whether it is zero, infinite or not a number. Arithmetic that
//! rounds is not done here (see `arithmetic`).
//!
//! Both formats are described by one set of spec functions over the number of fraction bits
//! (`23` or `52`) and the biased exponent from which on every number is whole (`150` or
//! `1075`). The magnitude of a number is its bit pattern without the sign.
use vstd::arithmetic::div_mod::{
    lemma_div_multiples_vanish_quotient, lemma_fundamental_div_mod, lemma_truncate_middle,
};
use vstd::arithmetic::mul::{
    lemma_mul_inequality, lemma_mul_is_associative, lemma_mul_is_commutative,
};
use vstd::arithmetic::power2::{
    lemma2_to64, lemma_pow2_adds, lemma_pow2_pos, lemma_pow2_strictly_increases, pow2,
};
use vstd::bits::{lemma_u64_shl_is_mul, lemma_u64_shr_is_div};
use vstd::prelude::*;

verus! {

/// `1.0` in `binary32`.
pub const ONE: u32 = 0x3f80_0000;

/// The absolute value of a finite number of the given magnitude, in units of the smallest
/// positive number of its format. For the magnitude of infinity, a value above all of these.
pub open spec fn scaled_magnitude(magnitude: int, fraction_bits: nat) -> int {
    let hidden = pow2(fraction_bits) as int;
    let exponent = magnitude / hidden;
    let fraction = magnitude % hidden;
    if exponent == 0 {
        fraction
    } else {
        (hidden + fraction) * pow2((exponent - 1) as nat)
    }
}

/// The number `1` in units of the smallest positive number of the format.
pub open spec fn unit(whole_exponent: nat) -> int {
    pow2((whole_exponent - 1) as nat) as int
}

/// An integer as an index: the nearest one in the range of `usize`.
pub open spec fn saturated(n: int) -> int {
    if n < 0 {
        0
    } else if n > usize::MAX {
        usize::MAX as int
    } else {
        n
    }
}

proof fn lemma_small_magnitude(magnitude: int, fraction_bits: nat, whole_exponent: nat)
    requires
        0 <= magnitude,
        magnitude / (pow2(fraction_bits) as int) + fraction_bits < whole_exponent,
    ensures
        0 <= scaled_magnitude(magnitude, fraction_bits) < unit(whole_exponent),
        scaled_magnitude(magnitude, fraction_bits) == 0 <==> magnitude == 0,
        scaled_magnitude(magnitude, fraction_bits) / unit(whole_exponent) == 0,
        scaled_magnitude(magnitude, fraction_bits) % unit(whole_exponent) == scaled_magnitude(
            magnitude,
            fraction_bits,
        ),
{
    let hidden = pow2(fraction_bits) as int;
    lemma_pow2_pos(fraction_bits);
    lemma_fundamental_div_mod(magnitude, hidden);
    let exponent = magnitude / hidden;
    let fraction = magnitude % hidden;
    assert(0 <= exponent) by (nonlinear_arith)
        requires
            0 <= magnitude,
            0 < hidden,
            exponent == magnitude / hidden,
    ;
    assert(0 <= fraction < hidden) by (nonlinear_arith)
        requires
            0 < hidden,
            fraction == magnitude % hidden,
    ;
    let scaled = scaled_magnitude(magnitude, fraction_bits);
    let one = unit(whole_exponent);
    if exponent == 0 {
        assert(hidden * exponent == 0) by (nonlinear_arith)
            requires
                exponent == 0,
        ;
        assert(scaled == magnitude);
        if fraction_bits < whole_exponent - 1 {
            lemma_pow2_strictly_increases(fraction_bits, (whole_exponent - 1) as nat);
        }
    } else {
        let step = pow2((exponent - 1) as nat) as int;
        lemma_pow2_pos((exponent - 1) as nat);
        lemma_pow2_adds(fraction_bits, exponent as nat);
        lemma_pow2_adds(1, (exponent - 1) as nat);
        lemma2_to64();
        assert(2 * step == pow2(exponent as nat));
        assert((hidden + fraction) * step < hidden * (2 * step)) by (nonlinear_arith)
            requires
                0 <= fraction < hidden,
                0 < step,
        ;
        assert(scaled < pow2((fraction_bits + exponent) as nat));
        if fraction_bits + exponent < whole_exponent - 1 {
            lemma_pow2_strictly_increases(
                (fraction_bits + exponent) as nat,
                (whole_exponent - 1) as nat,
            );
        }
        assert(scaled > 0) by (nonlinear_arith)
            requires
                scaled == (hidden + fraction) * step,
                0 <= fraction,
                0 < hidden,
                0 < step,
        ;
        assert(magnitude != 0) by (nonlinear_arith)
            requires
                magnitude == hidden * exponent + fraction,
                0 < hidden,
                0 < exponent,
                0 <= fraction,
        ;
    }
    assert(scaled / one == 0 && scaled % one == scaled) by (nonlinear_arith)
        requires
            0 <= scaled < one,
    ;
}

proof fn lemma_fractional_magnitude(
    significand: int,
    exponent: nat,
    whole_exponent: nat,
)
    requires
        0 < significand,
        0 < exponent <= whole_exponent,
    ensures
        (significand * pow2((exponent - 1) as nat)) / unit(whole_exponent) == significand / (pow2(
            (whole_exponent - exponent) as nat,
        ) as int),
        (significand * pow2((exponent - 1) as nat)) % unit(whole_exponent) == 0 <==> significand % (
        pow2((whole_exponent - exponent) as nat) as int) == 0,
{
    let step = pow2((exponent - 1) as nat) as int;
    let rest = pow2((whole_exponent - exponent) as nat) as int;
    lemma_pow2_pos((exponent - 1) as nat);
    lemma_pow2_pos((whole_exponent - exponent) as nat);
    lemma_pow2_adds((exponent - 1) as nat, (whole_exponent - exponent) as nat);
    assert(unit(whole_exponent) == step * rest);
    lemma_mul_is_commutative(significand, step);
    lemma_div_multiples_vanish_quotient(step, significand, rest);
    lemma_truncate_middle(significand, step, rest);
    let remainder = significand % rest;
    assert(step * remainder == 0 <==> remainder == 0) by (nonlinear_arith)
        requires
            0 < step,
    ;
}

proof fn lemma_whole_magnitude(significand: int, exponent: nat, whole_exponent: nat)
    requires
        0 < significand,
        0 < whole_exponent <= exponent,
    ensures
        (significand * pow2((exponent - 1) as nat)) / unit(whole_exponent) == significand * pow2(
            (exponent - whole_exponent) as nat,
        ),
        (significand * pow2((exponent - 1) as nat)) % unit(whole_exponent) == 0,
{
    let one = unit(whole_exponent);
    let rest = pow2((exponent - whole_exponent) as nat) as int;
    lemma_pow2_pos((whole_exponent - 1) as nat);
    lemma_pow2_adds((exponent - whole_exponent) as nat, (whole_exponent - 1) as nat);
    lemma_mul_is_associative(significand, rest, one);
    let quotient = significand * rest;
    assert((quotient * one) / one == quotient && (quotient * one) % one == 0) by (nonlinear_arith)
        requires
            0 < one,
    ;
}

/// A `u64` as a `usize`, or the largest `usize` where it does not fit.
fn saturate(n: u64) -> (r: usize)
    ensures
        r == saturated(n as int),
{
    if n > usize::MAX as u64 {
        usize::MAX
    } else {
        n as usize
    }
}

/// The whole part of a number that is not negative, as an index, and whether anything is left
/// behind the point.
fn whole_part(magnitude: u64, fraction_bits: u64, whole_exponent: u64) -> (r: (usize, bool))
    requires
        fraction_bits == 23 && whole_exponent == 150 || fraction_bits == 52 && whole_exponent
            == 1075,
    ensures
        r.0 == saturated(
            scaled_magnitude(magnitude as int, fraction_bits as nat) / unit(whole_exponent as nat),
        ),
        r.1 == (scaled_magnitude(magnitude as int, fraction_bits as nat) % unit(
            whole_exponent as nat,
        ) != 0),
{
    proof {
        lemma2_to64();
        vstd::arithmetic::power2::lemma2_to64_rest();
        lemma_u64_shl_is_mul(1, fraction_bits);
    }
    let hidden: u64 = 1u64 << fraction_bits;
    let exponent: u64 = magnitude / hidden;
    if exponent < whole_exponent - fraction_bits {
        proof {
            lemma_small_magnitude(
                magnitude as int,
                fraction_bits as nat,
                whole_exponent as nat,
            );
        }
        return (0, magnitude != 0);
    }
    let significand: u64 = hidden + magnitude % hidden;
    if exponent <= whole_exponent {
        let shift: u64 = whole_exponent - exponent;
        proof {
            lemma_fractional_magnitude(
                significand as int,
                exponent as nat,
                whole_exponent as nat,
            );
            lemma_u64_shr_is_div(significand, shift);
            lemma_pow2_pos(shift as nat);
            if shift < fraction_bits {
                lemma_pow2_strictly_increases(shift as nat, fraction_bits as nat);
            }
            lemma_u64_shl_is_mul(1, shift);
        }
        let whole: u64 = significand >> shift;
        let rest: u64 = significand % (1u64 << shift);
        (saturate(whole), rest != 0)
    } else {
        let shift: u64 = exponent - whole_exponent;
        proof {
            lemma_whole_magnitude(significand as int, exponent as nat, whole_exponent as nat);
        }
        if shift >= 64 - fraction_bits {
            proof {
                let high = (64 - fraction_bits) as nat;
                lemma_pow2_adds(fraction_bits as nat, high);
                if high < shift {
                    lemma_pow2_strictly_increases(high, shift as nat);
                }
                lemma_pow2_pos(high);
                lemma_mul_inequality(
                    pow2(high) as int,
                    pow2(shift as nat) as int,
                    hidden as int,
                );
                lemma_mul_inequality(
                    hidden as int,
                    significand as int,
                    pow2(shift as nat) as int,
                );
                lemma_mul_is_commutative(hidden as int, pow2(shift as nat) as int);
                lemma_mul_is_commutative(hidden as int, pow2(high) as int);
            }
            (usize::MAX, false)
        } else {
            proof {
                let low = (63 - fraction_bits) as nat;
                lemma_pow2_adds((fraction_bits + 1) as nat, low);
                lemma_pow2_adds(fraction_bits as nat, 1);
                if shift < low {
                    lemma_pow2_strictly_increases(shift as nat, low);
                }
                lemma_pow2_pos(shift as nat);
                assert(significand <= 2 * hidden - 1);
                lemma_mul_inequality(
                    pow2(shift as nat) as int,
                    pow2(low) as int,
                    significand as int,
                );
                lemma_mul_inequality(significand as int, 2 * hidden - 1, pow2(low) as int);
                lemma_mul_is_commutative(significand as int, pow2(low) as int);
                lemma_mul_is_commutative(significand as int, pow2(shift as nat) as int);
                assert((2 * hidden - 1) * pow2(low) == 2 * hidden * pow2(low) - pow2(low))
                    by (nonlinear_arith);
                lemma_pow2_pos(low);
                lemma_u64_shl_is_mul(significand, shift);
            }
            (saturate(significand << shift), false)
        }
    }
}

/// Of two magnitudes of one format the larger one belongs to the larger number.
pub proof fn lemma_magnitude_order(low: int, high: int, fraction_bits: nat)
    requires
        0 <= low < high,
    ensures
        0 <= scaled_magnitude(low, fraction_bits) < scaled_magnitude(high, fraction_bits),
{
    let hidden = pow2(fraction_bits) as int;
    lemma_pow2_pos(fraction_bits);
    lemma_fundamental_div_mod(low, hidden);
    lemma_fundamental_div_mod(high, hidden);
    let (e1, f1) = (low / hidden, low % hidden);
    let (e2, f2) = (high / hidden, high % hidden);
    assert(0 <= e1 <= e2 && 0 <= f1 < hidden && 0 <= f2 < hidden) by (nonlinear_arith)
        requires
            0 <= low < high,
            0 < hidden,
            e1 == low / hidden,
            e2 == high / hidden,
            f1 == low % hidden,
            f2 == high % hidden,
    ;
    if e1 == e2 {
        if e1 > 0 {
            lemma_pow2_pos((e1 - 1) as nat);
            let step = pow2((e1 - 1) as nat) as int;
            assert(0 <= (hidden + f1) * step < (hidden + f2) * step) by (nonlinear_arith)
                requires
                    0 <= f1 < f2,
                    0 < hidden,
                    0 < step,
            ;
        }
    } else {
        let step = pow2((e2 - 1) as nat) as int;
        lemma_pow2_pos((e2 - 1) as nat);
        assert(hidden * step <= (hidden + f2) * step) by (nonlinear_arith)
            requires
                0 <= f2,
                0 < step,
        ;
        if e1 == 0 {
            assert(hidden <= hidden * step) by (nonlinear_arith)
                requires
                    0 < hidden,
                    1 <= step,
            ;
        } else {
            let before = pow2((e1 - 1) as nat) as int;
            lemma_pow2_pos((e1 - 1) as nat);
            lemma_pow2_adds(1, (e1 - 1) as nat);
            lemma2_to64();
            if e1 < e2 - 1 {
                lemma_pow2_strictly_increases(e1 as nat, (e2 - 1) as nat);
            }
            assert(0 <= (hidden + f1) * before < hidden * step) by (nonlinear_arith)
                requires
                    0 <= f1 < hidden,
                    0 < before,
                    2 * before <= step,
            ;
        }
    }
}

/// The magnitude of a `binary32` number: its bits without the sign.
pub open spec fn magnitude(bits: u32) -> int {
    bits as int % 0x8000_0000
}

/// Whether the sign bit of a `binary32` number is set.
pub open spec fn sign(bits: u32) -> bool {
    bits >= 0x8000_0000
}

/// Whether a `binary32` bit pattern is that of no number.
pub open spec fn not_a_number(bits: u32) -> bool {
    magnitude(bits) > 0x7f80_0000
}

/// The value of a `binary32` number times `2^149`, which is an integer for every finite one.
pub open spec fn scaled(bits: u32) -> int {
    let absolute = scaled_magnitude(magnitude(bits), 23);
    if sign(bits) {
        -absolute
    } else {
        absolute
    }
}

/// `2^149`, the number `1` on the scale of `scaled`.
pub open spec fn scaled_one() -> int {
    unit(150)
}

/// The largest integer that is not above a `binary32` number, as an index.
pub open spec fn floor_of(bits: u32) -> int {
    if not_a_number(bits) {
        0
    } else {
        saturated(scaled(bits) / scaled_one())
    }
}

/// The smallest integer that is not below a `binary32` number, as an index.
pub open spec fn ceil_of(bits: u32) -> int {
    if not_a_number(bits) {
        0
    } else {
        saturated(-((-scaled(bits)) / scaled_one()))
    }
}

/// The larger of two `binary32` numbers, or the one that is a number.
pub open spec fn maximum_of(a: u32, b: u32) -> u32 {
    if not_a_number(a) {
        b
    } else if not_a_number(b) || scaled(a) >= scaled(b) {
        a
    } else {
        b
    }
}

/// Whether two `binary32` numbers compare equal.
pub open spec fn equal_numbers(a: u32, b: u32) -> bool {
    !not_a_number(a) && !not_a_number(b) && scaled(a) == scaled(b)
}

/// Whether a `binary32` number is zero, of either sign.
pub open spec fn is_zero_number(bits: u32) -> bool {
    equal_numbers(bits, 0)
}

/// Whether the absolute value of a `binary32` number is at least `2^-126`.
pub open spec fn is_normal_size(bits: u32) -> bool {
    !not_a_number(bits) && scaled_magnitude(magnitude(bits), 23) >= pow2(23)
}

proof fn lemma_ceiling(n: int, d: int)
    requires
        0 <= n,
        0 < d,
    ensures
        0 <= n / d,
        -((-n) / d) == if n % d == 0 {
            n / d
        } else {
            n / d + 1
        },
        -(n / d) <= 0,
        (-n) / d <= 0,
{
    lemma_fundamental_div_mod(n, d);
    let (q, r) = (n / d, n % d);
    assert(0 <= q && 0 <= r < d) by (nonlinear_arith)
        requires
            0 <= n,
            0 < d,
            q == n / d,
            r == n % d,
    ;
    if r == 0 {
        assert((-n) / d == -q) by (nonlinear_arith)
            requires
                n == d * q,
                0 < d,
        ;
    } else {
        assert((-n) / d == -q - 1) by (nonlinear_arith)
            requires
                n == d * q + r,
                0 < r < d,
        ;
    }
}

/// A `binary32` number is zero exactly where its magnitude is, and of normal size exactly where
/// its exponent is not that of the subnormal numbers.
proof fn lemma_magnitude_facts(bits: u32)
    ensures
        scaled_magnitude(magnitude(bits), 23) >= 0,
        is_zero_number(bits) <==> magnitude(bits) == 0,
        is_normal_size(bits) <==> 0x80_0000 <= magnitude(bits) <= 0x7f80_0000,
{
    lemma2_to64();
    vstd::arithmetic::power2::lemma2_to64_rest();
    let m = magnitude(bits);
    assert(scaled_magnitude(0, 23) == 0);
    assert(magnitude(0) == 0);
    if m > 0 {
        lemma_magnitude_order(0, m, 23);
    }
    assert(scaled_magnitude(0x80_0000, 23) == 0x80_0000) by {
        assert(0x80_0000int / 0x80_0000int == 1);
        assert(0x80_0000int % 0x80_0000int == 0);
    }
    if m < 0x80_0000 {
        lemma_magnitude_order(m, 0x80_0000, 23);
    } else if m > 0x80_0000 {
        lemma_magnitude_order(0x80_0000, m, 23);
    }
}

/// A `binary32` number is zero exactly where its magnitude is.
pub proof fn lemma_zero_magnitude(bits: u32)
    ensures
        is_zero_number(bits) <==> magnitude(bits) == 0,
{
    lemma_magnitude_facts(bits);
}

/// The floor of a number is not above its ceiling.
pub proof fn lemma_floor_below_ceiling(bits: u32)
    ensures
        floor_of(bits) <= ceil_of(bits),
{
    lemma_pow2_pos(149);
    let one = scaled_one();
    let n = scaled(bits);
    if n >= 0 {
        lemma_ceiling(n, one);
    } else {
        lemma_ceiling(-n, one);
    }
}

/// A whole number is its own floor and its own ceiling.
pub proof fn lemma_whole_number(bits: u32, n: int)
    requires
        !not_a_number(bits),
        scaled(bits) == n * scaled_one(),
        0 <= n <= usize::MAX,
    ensures
        floor_of(bits) == n,
        ceil_of(bits) == n,
{
    lemma_pow2_pos(149);
    let one = scaled_one();
    assert((n * one) / one == n && (-(n * one)) / one == -n) by (nonlinear_arith)
        requires
            0 < one,
    ;
}

/// Whether a `binary32` number is zero, of either sign.
pub fn is_zero(bits: u32) -> (r: bool)
    ensures
        r == is_zero_number(bits),
{
    proof {
        lemma_magnitude_facts(bits);
    }
    bits % 0x8000_0000 == 0
}

/// Whether the absolute value of a `binary32` number is at least `2^-126`.
pub fn is_normal(bits: u32) -> (r: bool)
    ensures
        r == is_normal_size(bits),
{
    proof {
        lemma_magnitude_facts(bits);
    }
    let size: u32 = bits % 0x8000_0000;
    0x80_0000 <= size && size <= 0x7f80_0000
}

/// Whether a `binary32` bit pattern is that of no number.
pub fn is_nan(bits: u32) -> (r: bool)
    ensures
        r == not_a_number(bits),
{
    bits % 0x8000_0000 > 0x7f80_0000
}

/// Whether one `binary32` number is at most another.
fn at_most(a: u32, b: u32) -> (r: bool)
    ensures
        r == (scaled(a) <= scaled(b)),
{
    let size_a: u32 = a % 0x8000_0000;
    let size_b: u32 = b % 0x8000_0000;
    proof {
        lemma_magnitude_facts(a);
        lemma_magnitude_facts(b);
        if size_a < size_b {
            lemma_magnitude_order(size_a as int, size_b as int, 23);
        } else if size_b < size_a {
            lemma_magnitude_order(size_b as int, size_a as int, 23);
        }
        assert(scaled_magnitude(0, 23) == 0) by {
            lemma2_to64();
        }
        if size_a > 0 {
            lemma_magnitude_order(0, size_a as int, 23);
        }
        if size_b > 0 {
            lemma_magnitude_order(0, size_b as int, 23);
        }
    }
    if a >= 0x8000_0000 {
        if b >= 0x8000_0000 {
            size_b <= size_a
        } else {
            true
        }
    } else if b >= 0x8000_0000 {
        size_a == 0 && size_b == 0
    } else {
        size_a <= size_b
    }
}

/// Whether two `binary32` numbers compare equal.
pub fn equal(a: u32, b: u32) -> (r: bool)
    ensures
        r == equal_numbers(a, b),
{
    !is_nan(a) && !is_nan(b) && at_most(a, b) && at_most(b, a)
}

/// The larger of two `binary32` numbers, or the one that is a number.
pub fn maximum(a: u32, b: u32) -> (r: u32)
    ensures
        r == maximum_of(a, b),
{
    if is_nan(a) {
        b
    } else if is_nan(b) || at_most(b, a) {
        a
    } else {
        b
    }
}

/// The largest integer that is not above a `binary32` number, as an index.
pub fn floor_index(bits: u32) -> (r: usize)
    ensures
        r == floor_of(bits),
{
    proof {
        lemma_magnitude_facts(bits);
        lemma_pow2_pos(149);
        lemma_ceiling(scaled_magnitude(magnitude(bits), 23), scaled_one());
    }
    if bits >= 0x8000_0000 || is_nan(bits) {
        0
    } else {
        whole_part(bits as u64, 23, 150).0
    }
}

/// The smallest integer that is not below a `binary32` number, as an index.
pub fn ceil_index(bits: u32) -> (r: usize)
    ensures
        r == ceil_of(bits),
{
    proof {
        lemma_magnitude_facts(bits);
        lemma_pow2_pos(149);
        lemma_ceiling(scaled_magnitude(magnitude(bits), 23), scaled_one());
    }
    if bits >= 0x8000_0000 || is_nan(bits) {
        0
    } else {
        let (whole, partial): (usize, bool) = whole_part(bits as u64, 23, 150);
        if partial && whole < usize::MAX {
            whole + 1
        } else {
            whole
        }
    }
}

/// The magnitude of a `binary64` number: its bits without the sign.
pub open spec fn double_magnitude(bits: u64) -> int {
    bits as int % 0x8000_0000_0000_0000
}

/// Whether a `binary64` bit pattern is that of no number.
pub open spec fn double_not_a_number(bits: u64) -> bool {
    double_magnitude(bits) > 0x7ff0_0000_0000_0000
}

/// The value of a `binary64` number times `2^1074`, which is an integer for every finite one.
pub open spec fn double_scaled(bits: u64) -> int {
    let absolute = scaled_magnitude(double_magnitude(bits), 52);
    if bits >= 0x8000_0000_0000_0000 {
        -absolute
    } else {
        absolute
    }
}

/// The smallest integer that is not below a `binary64` number, as an index.
pub open spec fn double_ceil_of(bits: u64) -> int {
    if double_not_a_number(bits) {
        0
    } else {
        saturated(-((-double_scaled(bits)) / unit(1075)))
    }
}

/// The larger of two `binary64` numbers, or the one that is a number.
pub open spec fn double_maximum_of(a: u64, b: u64) -> u64 {
    if double_not_a_number(a) {
        b
    } else if double_not_a_number(b) || double_scaled(a) >= double_scaled(b) {
        a
    } else {
        b
    }
}

proof fn lemma_double_magnitude_facts(bits: u64)
    ensures
        scaled_magnitude(double_magnitude(bits), 52) >= 0,
        scaled_magnitude(double_magnitude(bits), 52) == 0 <==> double_magnitude(bits) == 0,
{
    lemma_pow2_pos(52);
    assert(scaled_magnitude(0, 52) == 0) by {
        lemma_fundamental_div_mod(0, pow2(52) as int);
        vstd::arithmetic::div_mod::lemma_div_basics_1(pow2(52) as int);
    }
    if double_magnitude(bits) > 0 {
        lemma_magnitude_order(0, double_magnitude(bits), 52);
    }
}

/// Whether a `binary64` number is infinite, of either sign.
pub fn double_is_infinite(bits: u64) -> (r: bool)
    ensures
        r == (double_magnitude(bits) == 0x7ff0_0000_0000_0000),
{
    bits % 0x8000_0000_0000_0000 == 0x7ff0_0000_0000_0000
}

/// The larger of two `binary64` numbers, or the one that is a number.
pub fn double_maximum(a: u64, b: u64) -> (r: u64)
    ensures
        r == double_maximum_of(a, b),
{
    let size_a: u64 = a % 0x8000_0000_0000_0000;
    let size_b: u64 = b % 0x8000_0000_0000_0000;
    proof {
        lemma_double_magnitude_facts(a);
        lemma_double_magnitude_facts(b);
        if size_a < size_b {
            lemma_magnitude_order(size_a as int, size_b as int, 52);
        } else if size_b < size_a {
            lemma_magnitude_order(size_b as int, size_a as int, 52);
        }
    }
    let negative_a: bool = a >= 0x8000_0000_0000_0000;
    let negative_b: bool = b >= 0x8000_0000_0000_0000;
    let at_least: bool = if negative_a {
        if negative_b {
            size_a <= size_b
        } else {
            size_a == 0 && size_b == 0
        }
    } else {
        negative_b || size_b <= size_a
    };
    if size_a > 0x7ff0_0000_0000_0000 {
        b
    } else if size_b > 0x7ff0_0000_0000_0000 || at_least {
        a
    } else {
        b
    }
}

/// The smallest integer that is not below a `binary64` number, as an index.
pub fn double_ceil_index(bits: u64) -> (r: usize)
    ensures
        r == double_ceil_of(bits),
{
    proof {
        lemma_double_magnitude_facts(bits);
        lemma_pow2_pos(1074);
        lemma_ceiling(scaled_magnitude(double_magnitude(bits), 52), unit(1075));
    }
    if bits >= 0x8000_0000_0000_0000 || bits > 0x7ff0_0000_0000_0000 {
        0
    } else {
        let (whole, partial): (usize, bool) = whole_part(bits, 52, 1075);
        if partial && whole < usize::MAX {
            whole + 1
        } else {
            whole
        }
    }
}

} // verus!
