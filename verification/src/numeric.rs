//! The integer operations taken from the `num` crate.

use vstd::prelude::*;
use crate::multiplicity::power;

verus! {

/// The truncated square root, by `num::integer::Roots::sqrt`.
///
/// Believed, not proved: that the result is the largest number whose square
/// does not exceed `n`, as the method's documentation states it.
#[verifier::external_body]
pub(crate) fn int_sqrt(n: u64) -> (r: u64)
    ensures
        r * r <= n < (r + 1) * (r + 1),
{
    num::integer::Roots::sqrt(&n)
}

/// `base` raised to the power `exp`, by `num::pow`.
///
/// Believed, not proved: that the result is the power. `num::pow` squares
/// and multiplies with the plain `*`, and no product it forms exceeds the
/// result, so that nothing overflows where the result fits.
#[verifier::external_body]
pub(crate) fn int_pow(base: u128, exp: usize) -> (r: u128)
    requires
        power(base as nat, exp as nat) <= u128::MAX,
    ensures
        r == power(base as nat, exp as nat),
{
    num::pow(base, exp)
}

} // verus!
