//! Scalar constants for generic numeric types, obtained from `num_traits`.
//!
//! The solvers are generic over their scalar type; default tolerances and
//! interval bounds are produced here from decimal text, zero and one.  What
//! these functions return is the concern of the scalar type's own
//! implementation, so their contracts state nothing about the value.
use vstd::prelude::*;

verus! {

/// `num_traits::Zero::zero`: the additive identity of `T`.  Nothing is
/// stated about the value, which `T`'s implementation decides.
#[verifier::external_body]
pub(crate) fn scalar_zero<T: num_traits::Zero>() -> T {
    T::zero()
}

/// `num_traits::One::one`: the multiplicative identity of `T`.  Nothing is
/// stated about the value, which `T`'s implementation decides.
#[verifier::external_body]
pub(crate) fn scalar_one<T: num_traits::One>() -> T {
    T::one()
}

/// `num_traits::Num::from_str_radix(text, 10)`, with the error dropped: the
/// scalar written in decimal by `text`, when `T` can represent it.  Nothing
/// is stated about the outcome, which `T`'s implementation decides.
#[verifier::external_body]
pub(crate) fn scalar_from_decimal<T: num_traits::Num>(text: &str) -> Option<T> {
    T::from_str_radix(text, 10).ok()
}

/// A scalar given in decimal, or zero when `T` cannot represent it.
pub(crate) fn decimal_or_zero<T: num_traits::Num>(text: &str) -> T {
    match scalar_from_decimal::<T>(text) {
        Some(v) => v,
        None => scalar_zero::<T>(),
    }
}

} // verus!
