//! A minimal proof-of-work ledger: blocks, transactions, unspent outputs,
//! a pool of pending transactions and a self-adjusting mining target.
//!
//! Every function of this crate carries a contract that Verus proves, apart
//! from a handful of thin wrappers around other crates (SHA-256, hex, ECDSA,
//! decimal arithmetic, the clock); each of those says in its doc comment what
//! it takes on trust.

use vstd::prelude::*;

pub mod codec;
pub mod crypto;
pub mod difficulty;
pub mod error;
pub mod network;
pub mod sha256;
pub mod time;
pub mod types;
pub mod uint256;
pub mod util;

verus! {

/// Reward of the first blocks, in whole coins.
pub const INITIAL_REWARD: u64 = 50;

/// Number of blocks after which the block reward halves.
pub const HALVING_INTERVAL: u64 = 210;

/// Intended time between two blocks, in seconds.
pub const IDEAL_BLOCK_TIME: u64 = 10;

/// Number of blocks between two adjustments of the target.
pub const DIFFICULTY_UPDATE_INTERVAL: u64 = 50;

/// Age in seconds after which a pending transaction is dropped.
pub const MAX_MEMPOOL_TRANSACTION_AGE: u64 = 600;

/// An unsigned 256-bit integer, as four 64-bit limbs, least significant first.
#[derive(Clone, Copy, Debug, PartialEq, Eq, Hash, Structural)]
pub struct U256(pub u64, pub u64, pub u64, pub u64);

/// The easiest target the network allows: `2^240 - 1`.
pub open spec fn spec_min_target() -> U256 {
    U256(0xFFFF_FFFF_FFFF_FFFF, 0xFFFF_FFFF_FFFF_FFFF, 0xFFFF_FFFF_FFFF_FFFF, 0x0000_FFFF_FFFF_FFFF)
}

/// The easiest target the network allows: `2^240 - 1`.
#[verifier::when_used_as_spec(spec_min_target)]
pub fn min_target() -> (t: U256)
    ensures
        t == spec_min_target(),
{
    U256(0xFFFF_FFFF_FFFF_FFFF, 0xFFFF_FFFF_FFFF_FFFF, 0xFFFF_FFFF_FFFF_FFFF, 0x0000_FFFF_FFFF_FFFF)
}

} // verus!
