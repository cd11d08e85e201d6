//! Log-likelihood ratios as saturating fixed-point integers.
//!
//! A message is a signed count of some fixed fraction of a bit of evidence;
//! the decoder never needs to know which fraction. Positive values favour the
//! hypothesis that a bit was not flipped. Values saturate at `LLR_LIMIT` and
//! `-LLR_LIMIT`, so that every message has a negation and a magnitude.

use vstd::arithmetic::div_mod::{lemma_basic_div, lemma_fundamental_div_mod, lemma_mod_bound};
use vstd::arithmetic::power2::{
    lemma2_to64_rest, lemma_pow2_pos, lemma_pow2_strictly_increases, pow2,
};
use vstd::bits::lemma_u64_shr_is_div;
use vstd::prelude::*;

verus! {

/// The largest magnitude that a message can have.
pub const LLR_LIMIT: i64 = 0x7fff_ffff_ffff_ffff;

/// `x` is a value that a message can take.
pub open spec fn in_llr_range(x: int) -> bool {
    -LLR_LIMIT <= x <= LLR_LIMIT
}

/// The value nearest to `x` that a message can take.
pub open spec fn saturate(x: int) -> int {
    if x > LLR_LIMIT {
        LLR_LIMIT as int
    } else if x < -LLR_LIMIT {
        -(LLR_LIMIT as int)
    } else {
        x
    }
}

/// The absolute value of `x`.
pub open spec fn magnitude(x: int) -> int {
    if x < 0 {
        -x
    } else {
        x
    }
}

/// The magnitude `mag` scaled by `1 - 2^(-round)`: nothing of it is left in
/// round 0, half of it in round 1, and ever more of it afterwards. The part
/// taken away, `mag / 2^round`, is rounded down.
pub open spec fn damped(mag: int, round: nat) -> int {
    mag - mag / (pow2(round) as int)
}

/// Damping scales by `1 - 2^(-round)` and rounds up to the next integer: the
/// damped magnitude, taken `2^round` times, is the magnitude taken
/// `2^round - 1` times, or more by less than `2^round`.
pub proof fn lemma_damped_is_scaled(mag: nat, round: nat)
    ensures
        mag * (pow2(round) - 1) <= damped(mag as int, round) * pow2(round) < mag * (pow2(round)
            - 1) + pow2(round),
        0 <= damped(mag as int, round) <= mag,
{
    let p = pow2(round) as int;
    let m = mag as int;
    lemma_pow2_pos(round);
    lemma_fundamental_div_mod(m, p);
    lemma_mod_bound(m, p);
    let q = m / p;
    let r = m % p;
    assert((m - q) * p == m * (p - 1) + r) by (nonlinear_arith)
        requires
            m == p * q + r,
    ;
    assert(0 <= q <= m) by (nonlinear_arith)
        requires
            m == p * q + r,
            0 <= r < p,
            0 <= m,
            1 <= p,
    ;
}

/// Brings a channel value into the range of messages.
pub fn saturate_llr(x: i64) -> (r: i64)
    ensures
        r == saturate(x as int),
{
    if x < -LLR_LIMIT {
        -LLR_LIMIT
    } else {
        x
    }
}

/// Brings an exact sum of messages back into the range of messages.
pub fn saturate_sum(x: i128) -> (r: i64)
    ensures
        r == saturate(x as int),
{
    if x > LLR_LIMIT as i128 {
        LLR_LIMIT
    } else if x < -(LLR_LIMIT as i128) {
        -LLR_LIMIT
    } else {
        x as i64
    }
}

/// The absolute value of a message.
pub fn magnitude_of(x: i64) -> (r: u64)
    ensures
        r == magnitude(x as int),
{
    if x >= 0 {
        x as u64
    } else if x == i64::MIN {
        0x8000_0000_0000_0000
    } else {
        (-x) as u64
    }
}

/// Scales a magnitude by the damping factor of the given round.
pub fn damp(mag: u64, round: u32) -> (r: u64)
    ensures
        r == damped(mag as int, round as nat),
        r <= mag,
{
    if round >= 64 {
        proof {
            lemma2_to64_rest();
            if round > 64 {
                lemma_pow2_strictly_increases(64, round as nat);
            }
            lemma_basic_div(mag as int, pow2(round as nat) as int);
        }
        mag
    } else {
        let cut = mag >> (round as u64);
        proof {
            lemma_u64_shr_is_div(mag, round as u64);
            lemma_pow2_pos(round as nat);
            assert(mag as int / (pow2(round as nat) as int) <= mag) by (nonlinear_arith)
                requires
                    0 <= mag,
                    pow2(round as nat) >= 1,
            ;
        }
        mag - cut
    }
}

} // verus!
