use vstd::prelude::*;

use crate::types::Amount;

verus! {

/// The smallest unit a transfer can carry; every amount entering the
/// treasury is a positive multiple of it.
pub const PRECISION_FACTOR: u128 = 1_000_000;

/// An amount that survives transfer without losing value.
pub open spec fn valid_amount(a: int) -> bool {
    a >= PRECISION_FACTOR && a % (PRECISION_FACTOR as int) == 0
}

/// Whether `amount` is at least the precision factor and a multiple of it.
/// Divisibility is checked by dividing and multiplying back.
pub fn is_valid_precision_amount(amount: Amount) -> (r: bool)
    ensures
        r == valid_amount(amount as int),
{
    if amount < PRECISION_FACTOR {
        return false;
    }
    let divided = amount / PRECISION_FACTOR;
    proof {
        assert(divided * PRECISION_FACTOR <= amount) by (nonlinear_arith)
            requires divided == amount / PRECISION_FACTOR;
    }
    let multiplied_back = divided * PRECISION_FACTOR;
    amount == multiplied_back
}

} // verus!
