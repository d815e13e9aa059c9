//! Core logic of a gas-price alert bot: command parsing, threshold
//! persistence as a canonical JSON list of integers, and the fixed
//! reply templates. All I/O (the RPC provider, the chat transport,
//! the threshold file) lives outside this crate; these functions work
//! on plain values and are verified.

pub mod codec;
pub mod command;
pub mod digits;
pub mod messages;
pub mod store;

use vstd::prelude::*;

verus! {

/// Number of wei in one gwei; thresholds are entered in gwei and
/// persisted in wei.
pub const WEI_PER_GWEI: u128 = 1_000_000_000;

/// Converts a user-supplied gwei threshold to wei; cannot overflow
/// because the largest `u64` times `10^9` still fits in a `u128`.
pub fn gwei_to_wei(gwei: u64) -> (r: u128)
    ensures
        r == gwei * WEI_PER_GWEI,
{
    proof {
        assert((gwei as u128) * 1_000_000_000 <= 0xffff_ffff_ffff_ffffu128 * 1_000_000_000)
            by (nonlinear_arith);
    }
    (gwei as u128) * WEI_PER_GWEI
}

} // verus!
