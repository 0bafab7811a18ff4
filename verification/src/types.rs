//! Identities of accounts and epochs, and the description of an active epoch.

use crate::crypto::PublicKey;
use vstd::prelude::*;

verus! {

/// Identity of a validator account. Two ids are the same account when their
/// names are equal, which is what the view exposes.
#[derive(Debug, PartialEq, Eq, Hash)]
pub struct AccountId(pub String);

impl View for AccountId {
    type V = Seq<char>;

    open spec fn view(&self) -> Seq<char> {
        self.0@
    }
}

impl Clone for AccountId {
    fn clone(&self) -> (res: Self)
        ensures
            res@ == self@,
    {
        AccountId(self.0.clone())
    }
}

impl AccountId {
    pub fn new(name: &str) -> (res: Self)
        ensures
            res@ == name@,
    {
        AccountId(name.to_owned())
    }

    /// Whether both ids name the same account.
    pub fn same(&self, other: &AccountId) -> (b: bool)
        ensures
            b == (self@ == other@),
    {
        self.0 == other.0
    }
}

/// Identity of an epoch: a 32-byte hash.
#[derive(Clone, Copy, Debug, PartialEq, Eq, Hash)]
pub struct EpochId(pub [u8; 32]);

impl EpochId {
    /// Whether both ids are the same hash.
    pub fn same(&self, other: &EpochId) -> (b: bool)
        ensures
            b == (*self == *other),
    {
        let mut i: usize = 0;
        while i < 32
            invariant
                i <= 32,
                forall|j: int| 0 <= j < i ==> self.0[j] == other.0[j],
            decreases 32 - i,
        {
            if self.0[i] != other.0[i] {
                return false;
            }
            i += 1;
        }
        assert(self.0 =~= other.0);
        true
    }
}

/// An active epoch as the chain reports it: its id and the accounts that may
/// sign data for it, each with its verifying key.
#[derive(Debug, PartialEq, Eq)]
pub struct EpochInfo {
    pub id: EpochId,
    pub priority_accounts: Vec<(AccountId, PublicKey)>,
}

/// An [`EpochInfo`] as a mathematical value.
pub struct EpochInfoView {
    pub id: EpochId,
    pub signers: Seq<(Seq<char>, PublicKey)>,
}

/// The signer list as a sequence of (account name, key) pairs.
pub open spec fn signers_view(accounts: Seq<(AccountId, PublicKey)>) -> Seq<(Seq<char>, PublicKey)> {
    accounts.map_values(|p: (AccountId, PublicKey)| (p.0@, p.1))
}

impl View for EpochInfo {
    type V = EpochInfoView;

    open spec fn view(&self) -> EpochInfoView {
        EpochInfoView { id: self.id, signers: signers_view(self.priority_accounts@) }
    }
}

/// The descriptions behind a list of references.
pub open spec fn infos_view(infos: Seq<&EpochInfo>) -> Seq<EpochInfoView> {
    infos.map_values(|e: &EpochInfo| e@)
}

} // verus!
