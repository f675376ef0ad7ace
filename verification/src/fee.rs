//! The fee controller's arithmetic.
//!
//! Fee factors are fixed-point numbers over `u128` with [`FEE_FACTOR_UNIT`]
//! standing for 1.0. Escalation multiplies a factor by 21/20 (saturating),
//! decay by 20/21; a configured floor bounds every factor from below.

use vstd::arithmetic::div_mod::lemma_div_is_ordered;
use vstd::arithmetic::div_mod::lemma_fundamental_div_mod;
use vstd::prelude::*;

verus! {

/// The fixed-point representation of the factor 1.0.
pub const FEE_FACTOR_UNIT: u128 = 1_000_000_000_000_000_000;

/// The factor charged for `id`: the stored value, or the floor when none is
/// stored.
pub open spec fn factor_of(fees: Map<u32, u128>, id: u32, floor: u128) -> u128 {
    if fees.contains_key(id) {
        fees[id]
    } else {
        floor
    }
}

/// `v`, raised to the floor when it sits below it.
pub open spec fn clamped(v: u128, floor: u128) -> u128 {
    if v >= floor {
        v
    } else {
        floor
    }
}

/// One escalation step: the factor times 21/20, saturating at the top of the
/// range.
pub open spec fn escalated(f: u128) -> u128 {
    if f + f / 20 <= u128::MAX {
        (f + f / 20) as u128
    } else {
        u128::MAX
    }
}

/// One decay step: the factor times 20/21, rounded down.
pub open spec fn decayed(f: u128) -> u128 {
    (20 * (f / 21) + (20 * (f % 21)) / 21) as u128
}

/// Escalation never lowers a factor.
pub proof fn lemma_escalated_monotone(f: u128)
    ensures
        escalated(f) >= f,
{
}

/// Escalation strictly raises any factor large enough to have a
/// twentieth, until saturation.
pub proof fn lemma_escalated_strict(f: u128)
    requires
        20 <= f,
        f + f / 20 <= u128::MAX,
    ensures
        escalated(f) > f,
{
}

/// Decay never raises a factor.
pub proof fn lemma_decayed_monotone(f: u128)
    ensures
        decayed(f) <= f,
{
    let q = f as int / 21;
    let r = f as int % 21;
    lemma_fundamental_div_mod(f as int, 21);
    assert(20 * r / 21 <= r) by (nonlinear_arith)
        requires
            0 <= r,
    ;
    assert(20 * q + 20 * r / 21 <= 21 * q + r);
}

/// Performs one escalation step.
pub fn escalate(f: u128) -> (r: u128)
    ensures
        r == escalated(f),
        r >= f,
{
    let add = f / 20;
    if add <= u128::MAX - f {
        f + add
    } else {
        u128::MAX
    }
}

/// Performs one decay step.
pub fn decay(f: u128) -> (r: u128)
    ensures
        r == decayed(f),
        r <= f,
{
    let q = f / 21;
    let rem = f % 21;
    proof {
        lemma_div_is_ordered(f as int, u128::MAX as int, 21);
        assert(20 * (f as int / 21) <= 20 * (u128::MAX as int / 21));
        lemma_decayed_monotone(f);
    }
    20 * q + (20 * rem) / 21
}

} // verus!
