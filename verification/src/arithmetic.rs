//! What a caller supplies: arithmetic that rounds, channel mixing, the Fourier transform.
//!
//! Nothing is assumed of an implementation. Where a function calls one of these methods, its
//! contract says with which arguments, and speaks of the result through the predicates of this
//! module: each of them holds of what a call with these arguments may return.
use crate::block::{Block, ChannelInterpretation};
use vstd::prelude::*;

verus! {

/// Arithmetic of single precision, on the bit patterns of `binary32` numbers.
pub trait Arithmetic {
    /// `a + b`
    fn sum(&self, a: u32, b: u32) -> u32;

    /// `a - b`
    fn difference(&self, a: u32, b: u32) -> u32;

    /// `a * b`
    fn product(&self, a: u32, b: u32) -> u32;

    /// `a / b`
    fn quotient(&self, a: u32, b: u32) -> u32;

    /// What is left of a number without its whole part.
    fn fract(&self, a: u32) -> u32;

    /// An integer as a number.
    fn number(&self, n: i32) -> u32;
}

/// Arithmetic of double precision, on the bit patterns of `binary64` numbers.
pub trait DoubleArithmetic {
    /// `a + b`
    fn double_sum(&self, a: u64, b: u64) -> u64;

    /// `a * b`
    fn double_product(&self, a: u64, b: u64) -> u64;

    /// `a / b`
    fn double_quotient(&self, a: u64, b: u64) -> u64;

    /// The square root of a number.
    fn square_root(&self, a: u64) -> u64;

    /// The square of a sample, of single precision.
    fn square(&self, a: u32) -> u32;

    /// An integer as a number.
    fn double_number(&self, n: usize) -> u64;

    /// A number of single precision in double precision.
    fn widen(&self, a: u32) -> u64;

    /// A number of double precision in single precision.
    fn narrow(&self, a: u64) -> u32;
}

/// Complex numbers of double precision, as pairs of real and imaginary part.
pub type Complex = (u64, u64);

/// The discrete Fourier transform of real signals.
pub trait Transform {
    /// The first half of the spectrum of a signal, with its middle.
    fn forward(&self, signal: Vec<u64>) -> Vec<Complex>;

    /// The signal of the given length that has this half of a spectrum, times its length.
    fn inverse(&self, spectrum: Vec<Complex>, length: usize) -> Vec<u64>;

    /// `a * b`
    fn complex_product(&self, a: Complex, b: Complex) -> Complex;
}

/// Mixing a block up or down to a number of channels.
pub trait Mixing {
    /// The block with `channel_count` channels.
    fn mix(&self, block: &Block, channel_count: u8, interpretation: ChannelInterpretation) -> Block;
}

/// `a + b` may come to `r`.
pub open spec fn sum_is<A: Arithmetic>(ops: &A, a: u32, b: u32, r: u32) -> bool {
    call_ensures(A::sum, (ops, a, b), r)
}

/// `a - b` may come to `r`.
pub open spec fn difference_is<A: Arithmetic>(ops: &A, a: u32, b: u32, r: u32) -> bool {
    call_ensures(A::difference, (ops, a, b), r)
}

/// `a * b` may come to `r`.
pub open spec fn product_is<A: Arithmetic>(ops: &A, a: u32, b: u32, r: u32) -> bool {
    call_ensures(A::product, (ops, a, b), r)
}

/// `a / b` may come to `r`.
pub open spec fn quotient_is<A: Arithmetic>(ops: &A, a: u32, b: u32, r: u32) -> bool {
    call_ensures(A::quotient, (ops, a, b), r)
}

/// The fractional part of `a` may come to `r`.
pub open spec fn fract_is<A: Arithmetic>(ops: &A, a: u32, r: u32) -> bool {
    call_ensures(A::fract, (ops, a), r)
}

/// The integer `n` may be represented by `r`.
pub open spec fn number_is<A: Arithmetic>(ops: &A, n: i32, r: u32) -> bool {
    call_ensures(A::number, (ops, n), r)
}

/// `a + b` may come to `r`, in double precision.
pub open spec fn double_sum_is<A: DoubleArithmetic>(ops: &A, a: u64, b: u64, r: u64) -> bool {
    call_ensures(A::double_sum, (ops, a, b), r)
}

/// `a * b` may come to `r`, in double precision.
pub open spec fn double_product_is<A: DoubleArithmetic>(ops: &A, a: u64, b: u64, r: u64) -> bool {
    call_ensures(A::double_product, (ops, a, b), r)
}

/// `a / b` may come to `r`, in double precision.
pub open spec fn double_quotient_is<A: DoubleArithmetic>(ops: &A, a: u64, b: u64, r: u64) -> bool {
    call_ensures(A::double_quotient, (ops, a, b), r)
}

/// The square root of `a` may come to `r`.
pub open spec fn square_root_is<A: DoubleArithmetic>(ops: &A, a: u64, r: u64) -> bool {
    call_ensures(A::square_root, (ops, a), r)
}

/// The square of the sample `a` may come to `r`.
pub open spec fn square_is<A: DoubleArithmetic>(ops: &A, a: u32, r: u32) -> bool {
    call_ensures(A::square, (ops, a), r)
}

/// The integer `n` may be represented by `r`, in double precision.
pub open spec fn double_number_is<A: DoubleArithmetic>(ops: &A, n: usize, r: u64) -> bool {
    call_ensures(A::double_number, (ops, n), r)
}

/// `a` may widen to `r`.
pub open spec fn widen_is<A: DoubleArithmetic>(ops: &A, a: u32, r: u64) -> bool {
    call_ensures(A::widen, (ops, a), r)
}

/// `a` may narrow to `r`.
pub open spec fn narrow_is<A: DoubleArithmetic>(ops: &A, a: u64, r: u32) -> bool {
    call_ensures(A::narrow, (ops, a), r)
}

/// The forward transform of `signal` may come to `r`.
pub open spec fn forward_is<T: Transform>(ops: &T, signal: Vec<u64>, r: Vec<Complex>) -> bool {
    call_ensures(T::forward, (ops, signal), r)
}

/// The inverse transform of `spectrum` may come to `r`.
pub open spec fn inverse_is<T: Transform>(
    ops: &T,
    spectrum: Vec<Complex>,
    length: usize,
    r: Vec<u64>,
) -> bool {
    call_ensures(T::inverse, (ops, spectrum, length), r)
}

/// `a * b` may come to `r`, of complex numbers.
pub open spec fn complex_product_is<T: Transform>(
    ops: &T,
    a: Complex,
    b: Complex,
    r: Complex,
) -> bool {
    call_ensures(T::complex_product, (ops, a, b), r)
}

/// The block `block`, mixed to `channel_count` channels, may come to `r`.
pub open spec fn mix_is<M: Mixing>(
    ops: &M,
    block: Block,
    channel_count: u8,
    interpretation: ChannelInterpretation,
    r: Block,
) -> bool {
    call_ensures(M::mix, (ops, &block, channel_count, interpretation), r)
}

} // verus!
