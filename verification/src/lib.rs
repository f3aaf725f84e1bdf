//! State tracking for a shielded pool: the note commitment tree and its
//! witnesses, the anchor and nullifier cache, the wallet's witness cache and
//! the block connection that keeps them in step.

pub mod hash;
pub mod merkle;
pub mod tree;
pub mod witness;
pub mod bytemap;
pub mod transaction;
pub mod block;
pub mod coins;
pub mod notes;
pub mod wallet;
pub mod validation;
pub mod proofs;
pub mod keystore;
pub mod mempool;
pub mod scan;
