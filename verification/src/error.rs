//! The two ways in which the ledger turns a block or a transaction down.

use vstd::prelude::*;

verus! {

/// Why the ledger refused a block or a transaction.
#[derive(Clone, Copy, Debug, PartialEq, Eq, Structural)]
pub enum BtcError {
    /// An input is missing, spent twice or not authorised; the outputs are
    /// worth more than the inputs; or the coinbase is malformed.
    InvalidTransaction,
    /// The block does not extend the chain, lacks proof of work, carries a
    /// wrong Merkle root or is older than its predecessor.
    InvalidBlock,
}

/// The result of a ledger operation.
pub type Result<T> = core::result::Result<T, BtcError>;

impl BtcError {
    /// A short description of the error.
    pub fn message(&self) -> (text: &'static str)
        ensures
            text@ == (match *self {
                BtcError::InvalidTransaction => "Invalid transaction"@,
                BtcError::InvalidBlock => "Invalid block"@,
            }),
    {
        match self {
            BtcError::InvalidTransaction => "Invalid transaction",
            BtcError::InvalidBlock => "Invalid block",
        }
    }
}

} // verus!
