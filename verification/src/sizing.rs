//! Rounding request sizes.

use vstd::prelude::*;
use vstd::arithmetic::power2::lemma2_to64;
use vstd::arithmetic::power2::lemma_pow2_strictly_increases;
use vstd::arithmetic::power2::lemma_pow2_unfold;
use vstd::arithmetic::power2::pow2;

verus! {

/// Whether `n` is a power of two.
pub open spec fn is_power_of_two(n: int) -> bool {
    exists|e: nat| n == #[trigger] pow2(e)
}

/// The smallest power of two that is at least `request`.
///
/// The result must fit the machine word, so `request` may not exceed the
/// largest power of two that does.
pub fn next_largest(request: usize) -> (power: usize)
    requires
        request <= usize::MAX / 2 + 1,
    ensures
        is_power_of_two(power as int),
        power >= request,
        forall|e: nat| #[trigger] pow2(e) >= request ==> pow2(e) >= power,
{
    let mut power: usize = 1;
    let ghost mut exponent: nat = 0;
    proof {
        lemma2_to64();
    }
    while power < request
        invariant
            request <= usize::MAX / 2 + 1,
            power >= 1,
            power == pow2(exponent),
            exponent > 0 ==> pow2((exponent - 1) as nat) < request,
        decreases usize::MAX - power,
    {
        proof {
            lemma_pow2_unfold(exponent + 1);
            exponent = exponent + 1;
        }
        power = power * 2;
    }
    proof {
        assert forall|e: nat| #[trigger] pow2(e) >= request implies pow2(e) >= power by {
            if e < exponent {
                if e < exponent - 1 {
                    lemma_pow2_strictly_increases(e, (exponent - 1) as nat);
                }
            } else if e > exponent {
                lemma_pow2_strictly_increases(exponent, e);
            }
        }
    }
    power
}

} // verus!
