//! Cache of signed account data for a small number of active epochs
//! (in practice the current and the next one).
//!
//! Peers gossip batches of signed, timestamped records, one per validator
//! account and epoch. The cache rejects malformed batches cheaply, verifies the
//! signatures of the records it has not seen yet, and keeps, for every account
//! of every active epoch, the record with the highest timestamp.
//!
//! Verifying signatures is the expensive part, and a bad peer may mix invalid
//! signatures into otherwise valid data. The records verified before the first
//! invalid signature are therefore kept: discarding them would let an attacker
//! force the same verification work over and over.

pub mod accounts_data;
pub mod crypto;
pub mod network_protocol;
pub mod types;

pub use accounts_data::{check_shape, check_signatures, Cache, Epochs, Error};
