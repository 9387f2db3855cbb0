use crate::account::Address;
use vstd::prelude::*;

verus! {

/// Why a query, a write or a transaction was refused.
#[derive(Clone, Copy, Debug, PartialEq, Eq)]
pub enum Error {
    /// The multiproof holds only a hash where this address's leaf would be.
    UnknownAddress(Address),
    /// The transaction's nonce is not the sender's current nonce.
    InvalidNonce { expected: u64, got: u64 },
    /// The sender holds less than the amount sent.
    InsufficientBalance { have: u64, need: u64 },
    /// Crediting the receiver would take its balance past `u64::MAX`.
    BalanceOverflow { have: u64, add: u64 },
    /// The sender's nonce is already `u64::MAX` and cannot be advanced.
    NonceOverflow(Address),
    /// A leaf or an internal node stands at a depth where it cannot.
    MalformedProof,
    /// The witness does not hash to the root it was offered with.
    RootMismatch,
}

} // verus!
