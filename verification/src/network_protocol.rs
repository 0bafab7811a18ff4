//! The signed record that peers exchange, and the limit on its size.

use crate::crypto::{PublicKey, Signature};
use crate::types::{AccountId, EpochId};
use vstd::prelude::*;

verus! {

/// Limit on the size of the signed payload of one record. Larger payloads are
/// treated as abuse: the data is kept in memory for every account.
pub const MAX_ACCOUNT_DATA_SIZE_BYTES: usize = 10000;

/// Data that an account published for an epoch, with the signature of the
/// account's key for that epoch over `payload`. The payload is the encoding of
/// the other fields that the signer committed to.
#[derive(Debug, PartialEq, Eq)]
pub struct SignedAccountData {
    pub account_id: AccountId,
    pub epoch_id: EpochId,
    /// Nanoseconds since the Unix epoch, UTC.
    pub timestamp: i128,
    pub payload: Vec<u8>,
    pub signature: Signature,
}

/// A [`SignedAccountData`] as a mathematical value.
pub struct SignedAccountDataView {
    pub account_id: Seq<char>,
    pub epoch_id: EpochId,
    pub timestamp: i128,
    pub payload: Seq<u8>,
    pub signature: Signature,
}

impl SignedAccountDataView {
    /// Whether the signature signs the payload under `key`.
    pub open spec fn signed_by(self, key: PublicKey) -> bool {
        self.signature.signs(self.payload, key)
    }

    /// Whether the payload is larger than the protocol allows.
    pub open spec fn too_large(self) -> bool {
        self.payload.len() > MAX_ACCOUNT_DATA_SIZE_BYTES
    }
}

impl View for SignedAccountData {
    type V = SignedAccountDataView;

    open spec fn view(&self) -> SignedAccountDataView {
        SignedAccountDataView {
            account_id: self.account_id@,
            epoch_id: self.epoch_id,
            timestamp: self.timestamp,
            payload: self.payload@,
            signature: self.signature,
        }
    }
}

/// The records of a list as mathematical values.
pub open spec fn views(list: Seq<SignedAccountData>) -> Seq<SignedAccountDataView> {
    list.map_values(|d: SignedAccountData| d@)
}

/// Records paired with keys, as mathematical values.
pub open spec fn keyed_views(list: Seq<(SignedAccountData, PublicKey)>) -> Seq<
    (SignedAccountDataView, PublicKey),
> {
    list.map_values(|p: (SignedAccountData, PublicKey)| (p.0@, p.1))
}

impl Clone for SignedAccountData {
    fn clone(&self) -> (res: Self)
        ensures
            res@ == self@,
    {
        SignedAccountData {
            account_id: self.account_id.clone(),
            epoch_id: self.epoch_id,
            timestamp: self.timestamp,
            payload: self.payload.clone(),
            signature: self.signature,
        }
    }
}

impl SignedAccountData {
    /// Checks the signature over the payload against `key`.
    pub fn verify(&self, key: &PublicKey) -> (ok: bool)
        ensures
            ok == self@.signed_by(*key),
    {
        self.signature.verify(&self.payload, key)
    }
}

} // verus!
