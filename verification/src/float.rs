//! Element arithmetic.
//!
//! Every algorithm of the library is written against [`Float`]. The trait
//! promises nothing of its methods. What the library proves is that its results
//! are built from them in one fixed way: `fadd(a, b)` and its siblings name the
//! value a method returns on given arguments, and [`deterministic`] says that
//! there is only one such value. A float type that keeps a single NaN has it.
use vstd::prelude::*;

verus! {

/// A 32-bit floating-point number, as the library needs it.
pub trait Float: Copy {
    /// The number with this IEEE 754 single-precision bit pattern.
    fn from_bits(bits: u32) -> Self;

    /// The number's IEEE 754 single-precision bit pattern.
    fn to_bits(self) -> u32;

    /// The number nearest to a count.
    fn from_count(n: usize) -> Self;

    /// The number an 8-bit integer stands for.
    fn from_i8(n: i8) -> Self;

    /// The number cut towards zero to an 8-bit integer.
    fn to_i8(self) -> i8;

    /// The number cut towards zero to an index.
    fn to_count(self) -> usize;

    /// `self + other`.
    fn plus(self, other: Self) -> Self;

    /// `self - other`.
    fn minus(self, other: Self) -> Self;

    /// `self * other`.
    fn times(self, other: Self) -> Self;

    /// `self / other`.
    fn over(self, other: Self) -> Self;

    /// `self` raised to `other`.
    fn pow(self, other: Self) -> Self;

    /// The negation of `self`.
    fn negate(self) -> Self;

    /// The absolute value of `self`.
    fn abs(self) -> Self;

    /// The integer nearest to `self`, halves away from zero.
    fn round(self) -> Self;

    /// The exponential of `self`.
    fn exp(self) -> Self;

    /// The natural logarithm of `self`.
    fn ln(self) -> Self;

    /// The square root of `self`.
    fn sqrt(self) -> Self;

    /// The sine of `self`.
    fn sin(self) -> Self;

    /// The cosine of `self`.
    fn cos(self) -> Self;

    /// `self < other`.
    fn below(self, other: Self) -> bool;

    /// `self == other`.
    fn same(self, other: Self) -> bool;
}

/// The bit pattern of 0.
pub const ZERO: u32 = 0x0000_0000;

/// The bit pattern of 1.
pub const ONE: u32 = 0x3F80_0000;

/// The bit pattern of -1.
pub const MINUS_ONE: u32 = 0xBF80_0000;

/// The bit pattern of 2.
pub const TWO: u32 = 0x4000_0000;

/// The bit pattern of 127.
pub const INT8_MAX: u32 = 0x42FE_0000;

/// The bit pattern of -128.
pub const INT8_MIN: u32 = 0xC300_0000;

/// The bit pattern of 10000, the base of the rotary frequencies.
pub const ROPE_BASE: u32 = 0x461C_4000;

/// The bit pattern of 0.00001, the guard added before a division or a root.
pub const EPSILON: u32 = 0x3727_C5AC;

/// The bit pattern of negative infinity.
pub const NEG_INFINITY: u32 = 0xFF80_0000;

/// The bit pattern of positive infinity.
pub const POS_INFINITY: u32 = 0x7F80_0000;

/// The bit pattern of the quiet NaN.
pub const NAN: u32 = 0x7FC0_0000;

/// The number that `from_bits` gives for a bit pattern.
pub closed spec fn fbits<T: Float>(bits: u32) -> T {
    choose|r: T| call_ensures(T::from_bits, (bits,), r)
}

/// The bit pattern that `to_bits` gives for a number.
pub closed spec fn fpattern<T: Float>(a: T) -> u32 {
    choose|r: u32| call_ensures(T::to_bits, (a,), r)
}

/// The number that `from_count` gives for a count.
pub closed spec fn fcount<T: Float>(n: usize) -> T {
    choose|r: T| call_ensures(T::from_count, (n,), r)
}

/// The number that `from_i8` gives for an 8-bit integer.
pub closed spec fn fsmall<T: Float>(n: i8) -> T {
    choose|r: T| call_ensures(T::from_i8, (n,), r)
}

/// The 8-bit integer that `to_i8` gives for a number.
pub closed spec fn fcut<T: Float>(a: T) -> i8 {
    choose|r: i8| call_ensures(T::to_i8, (a,), r)
}

/// The index that `to_count` gives for a number.
pub closed spec fn findex<T: Float>(a: T) -> usize {
    choose|r: usize| call_ensures(T::to_count, (a,), r)
}

/// The sum that `plus` gives.
pub closed spec fn fadd<T: Float>(a: T, b: T) -> T {
    choose|r: T| call_ensures(T::plus, (a, b), r)
}

/// The difference that `minus` gives.
pub closed spec fn fsub<T: Float>(a: T, b: T) -> T {
    choose|r: T| call_ensures(T::minus, (a, b), r)
}

/// The product that `times` gives.
pub closed spec fn fmul<T: Float>(a: T, b: T) -> T {
    choose|r: T| call_ensures(T::times, (a, b), r)
}

/// The quotient that `over` gives.
pub closed spec fn fdiv<T: Float>(a: T, b: T) -> T {
    choose|r: T| call_ensures(T::over, (a, b), r)
}

/// The power that `pow` gives.
pub closed spec fn fpow<T: Float>(a: T, b: T) -> T {
    choose|r: T| call_ensures(T::pow, (a, b), r)
}

/// The negation that `negate` gives.
pub closed spec fn fneg<T: Float>(a: T) -> T {
    choose|r: T| call_ensures(T::negate, (a,), r)
}

/// The absolute value that `abs` gives.
pub closed spec fn fabs<T: Float>(a: T) -> T {
    choose|r: T| call_ensures(T::abs, (a,), r)
}

/// The nearest integer that `round` gives.
pub closed spec fn fround<T: Float>(a: T) -> T {
    choose|r: T| call_ensures(T::round, (a,), r)
}

/// The exponential that `exp` gives.
pub closed spec fn fexp<T: Float>(a: T) -> T {
    choose|r: T| call_ensures(T::exp, (a,), r)
}

/// The natural logarithm that `ln` gives.
pub closed spec fn fln<T: Float>(a: T) -> T {
    choose|r: T| call_ensures(T::ln, (a,), r)
}

/// The square root that `sqrt` gives.
pub closed spec fn fsqrt<T: Float>(a: T) -> T {
    choose|r: T| call_ensures(T::sqrt, (a,), r)
}

/// The sine that `sin` gives.
pub closed spec fn fsin<T: Float>(a: T) -> T {
    choose|r: T| call_ensures(T::sin, (a,), r)
}

/// The cosine that `cos` gives.
pub closed spec fn fcos<T: Float>(a: T) -> T {
    choose|r: T| call_ensures(T::cos, (a,), r)
}

/// The answer that `below` gives.
pub closed spec fn flt<T: Float>(a: T, b: T) -> bool {
    choose|r: bool| call_ensures(T::below, (a, b), r)
}

/// The answer that `same` gives.
pub closed spec fn feq<T: Float>(a: T, b: T) -> bool {
    choose|r: bool| call_ensures(T::same, (a, b), r)
}

/// Each operation of the float type gives one result for given arguments.
pub open spec fn deterministic<T: Float>() -> bool {
    &&& forall|b: u32, r: T| #[trigger] call_ensures(T::from_bits, (b,), r) ==> r == fbits::<T>(b)
    &&& forall|a: T, r: u32| #[trigger] call_ensures(T::to_bits, (a,), r) ==> r == fpattern(a)
    &&& forall|n: usize, r: T| #[trigger]
        call_ensures(T::from_count, (n,), r) ==> r == fcount::<T>(n)
    &&& forall|n: i8, r: T| #[trigger] call_ensures(T::from_i8, (n,), r) ==> r == fsmall::<T>(n)
    &&& forall|a: T, r: i8| #[trigger] call_ensures(T::to_i8, (a,), r) ==> r == fcut(a)
    &&& forall|a: T, r: usize| #[trigger] call_ensures(T::to_count, (a,), r) ==> r == findex(a)
    &&& forall|a: T, b: T, r: T| #[trigger]
        call_ensures(T::plus, (a, b), r) ==> r == fadd(a, b)
    &&& forall|a: T, b: T, r: T| #[trigger]
        call_ensures(T::minus, (a, b), r) ==> r == fsub(a, b)
    &&& forall|a: T, b: T, r: T| #[trigger]
        call_ensures(T::times, (a, b), r) ==> r == fmul(a, b)
    &&& forall|a: T, b: T, r: T| #[trigger]
        call_ensures(T::over, (a, b), r) ==> r == fdiv(a, b)
    &&& forall|a: T, b: T, r: T| #[trigger]
        call_ensures(T::pow, (a, b), r) ==> r == fpow(a, b)
    &&& forall|a: T, r: T| #[trigger] call_ensures(T::negate, (a,), r) ==> r == fneg(a)
    &&& forall|a: T, r: T| #[trigger] call_ensures(T::abs, (a,), r) ==> r == fabs(a)
    &&& forall|a: T, r: T| #[trigger] call_ensures(T::round, (a,), r) ==> r == fround(a)
    &&& forall|a: T, r: T| #[trigger] call_ensures(T::exp, (a,), r) ==> r == fexp(a)
    &&& forall|a: T, r: T| #[trigger] call_ensures(T::ln, (a,), r) ==> r == fln(a)
    &&& forall|a: T, r: T| #[trigger] call_ensures(T::sqrt, (a,), r) ==> r == fsqrt(a)
    &&& forall|a: T, r: T| #[trigger] call_ensures(T::sin, (a,), r) ==> r == fsin(a)
    &&& forall|a: T, r: T| #[trigger] call_ensures(T::cos, (a,), r) ==> r == fcos(a)
    &&& forall|a: T, b: T, r: bool| #[trigger]
        call_ensures(T::below, (a, b), r) ==> r == flt(a, b)
    &&& forall|a: T, b: T, r: bool| #[trigger]
        call_ensures(T::same, (a, b), r) ==> r == feq(a, b)
}

/// The number zero.
pub open spec fn fzero<T: Float>() -> T {
    fbits::<T>(ZERO)
}

/// The number one.
pub open spec fn fone<T: Float>() -> T {
    fbits::<T>(ONE)
}

/// The sum of a sequence, taken from the left and starting at zero.
pub open spec fn fsum<T: Float>(s: Seq<T>) -> T
    decreases s.len(),
{
    if s.len() == 0 {
        fzero::<T>()
    } else {
        fadd(fsum(s.drop_last()), s.last())
    }
}

/// The inner product of the first `n` items, taken from the left and starting at zero.
pub open spec fn fdot<T: Float>(a: Seq<T>, b: Seq<T>, n: nat) -> T
    decreases n,
{
    if n == 0 {
        fzero::<T>()
    } else {
        fadd(fdot(a, b, (n - 1) as nat), fmul(a[n - 1], b[n - 1]))
    }
}

/// A number held between two others.
pub open spec fn fclamp<T: Float>(v: T, lo: T, hi: T) -> T {
    if flt(v, lo) {
        lo
    } else if flt(hi, v) {
        hi
    } else {
        v
    }
}

/// Holds `v` between `lo` and `hi`.
pub fn clamp<T: Float>(v: T, lo: T, hi: T) -> (r: T)
    ensures
        deterministic::<T>() ==> r == fclamp(v, lo, hi),
{
    if v.below(lo) {
        lo
    } else if hi.below(v) {
        hi
    } else {
        v
    }
}

/// Adds up the items from the left.
pub fn sum<T: Float>(xs: &[T]) -> (r: T)
    ensures
        deterministic::<T>() ==> r == fsum(xs@),
{
    let mut acc = T::from_bits(ZERO);
    let mut i: usize = 0;
    while i < xs.len()
        invariant
            i <= xs.len(),
            deterministic::<T>() ==> acc == fsum(xs@.take(i as int)),
        decreases xs.len() - i,
    {
        acc = acc.plus(xs[i]);
        i += 1;
        proof {
            assert(xs@.take(i as int).drop_last() =~= xs@.take(i - 1));
        }
    }
    proof {
        assert(xs@.take(i as int) =~= xs@);
    }
    acc
}

/// The inner product of two rows of one length.
pub fn dot<T: Float>(xs: &[T], ys: &[T]) -> (r: T)
    requires
        xs@.len() == ys@.len(),
    ensures
        deterministic::<T>() ==> r == fdot(xs@, ys@, xs@.len()),
{
    let mut acc = T::from_bits(ZERO);
    let mut i: usize = 0;
    while i < xs.len()
        invariant
            i <= xs.len(),
            xs@.len() == ys@.len(),
            deterministic::<T>() ==> acc == fdot(xs@, ys@, i as nat),
        decreases xs.len() - i,
    {
        acc = acc.plus(xs[i].times(ys[i]));
        i += 1;
    }
    acc
}

} // verus!
