use rand::Rng;
use vstd::prelude::*;

verus! {

/// The greatest common divisor by Euclid's recursion; `gcd(a, 0) == a`, so
/// `gcd(0, 0) == 0`.
pub open spec fn spec_gcd(a: nat, b: nat) -> nat
    decreases b,
{
    if b == 0 {
        a
    } else {
        spec_gcd(b, a % b)
    }
}

/// Calls `num::integer::gcd` on two `u16`. Its source (Stein's binary
/// algorithm, with `gcd(m, 0) == gcd(0, m) == m`) computes the greatest common
/// divisor, which is what `spec_gcd` states; it neither panics nor overflows.
#[verifier::external_body]
pub(crate) fn gcd_u16(a: u16, b: u16) -> (r: u16)
    ensures
        r == spec_gcd(a as nat, b as nat),
{
    num::integer::gcd(a, b)
}

/// Draws a `u16` from `rand::thread_rng()` with `Rng::gen`. The value is
/// random: nothing is stated of it.
#[verifier::external_body]
pub(crate) fn random_weight() -> u16 {
    rand::thread_rng().gen::<u16>()
}

} // verus!
