//! A partial Merkle view of an account ledger: a multiproof that holds only the
//! leaves a node needs, reads and writes them, and keeps its root hash current,
//! together with a processor that applies transfers to it.

pub mod account;
pub mod hash;
pub mod error;
pub mod multiproof;
pub mod process;
pub mod command;
