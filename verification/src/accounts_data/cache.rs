//! The cache and the stages of its insert pipeline.
//!
//! A batch goes through four stages: the cheap checks on the batch as a whole,
//! the selection of the records that are news, the verification of their
//! signatures, and the commit of what verified. Only the selection and the
//! commit touch the tables, so a caller that shares the tables between threads
//! can verify signatures without holding a lock on them. [`Cache`] runs the
//! stages one after the other on tables of its own.

use crate::accounts_data::epochs::Epochs;
use crate::accounts_data::error::Error;
use crate::accounts_data::model;
use crate::accounts_data::model::{Slots, State};
use crate::accounts_data::theorems;
use crate::crypto::PublicKey;
use crate::network_protocol::{
    keyed_views, views, SignedAccountData, SignedAccountDataView, MAX_ACCOUNT_DATA_SIZE_BYTES,
};
use crate::types::{infos_view, EpochId, EpochInfo};
use vstd::prelude::*;

verus! {

/// The checks on a batch as a whole, which need neither the tables nor any
/// cryptography. A batch with two records for one account of one epoch is
/// rejected: all but one of them are outdated, and a well-behaved peer sends
/// the newest only. A batch with a payload over the size limit is rejected
/// too. The first record that breaks a rule decides the error.
pub fn check_shape(data: &Vec<SignedAccountData>) -> (res: Option<Error>)
    ensures
        res == model::shape_error(views(data@)),
{
    let ghost batch = views(data@);
    let mut i: usize = 0;
    while i < data.len()
        invariant
            i <= data.len(),
            batch == views(data@),
            forall|k: int| 0 <= k < i ==> !model::offends(batch, k),
        decreases data.len() - i,
    {
        let mut j: usize = 0;
        while j < i
            invariant
                j <= i,
                i < data.len(),
                batch == views(data@),
                forall|k: int| 0 <= k < i ==> !model::offends(batch, k),
                forall|k: int| 0 <= k < j ==> !model::same_slot(#[trigger] batch[k], batch[i as int]),
            decreases i - j,
        {
            if data[j].epoch_id.same(&data[i].epoch_id) && data[j].account_id.same(
                &data[i].account_id,
            ) {
                proof {
                    assert(model::same_slot(batch[j as int], batch[i as int]));
                    assert(model::repeats(batch, i as int));
                    model::lemma_first_offence(batch, i as int);
                }
                return Some(Error::SingleAccountMultipleData);
            }
            j += 1;
        }
        assert(!model::repeats(batch, i as int));
        if data[i].payload.len() > MAX_ACCOUNT_DATA_SIZE_BYTES {
            proof {
                model::lemma_first_offence(batch, i as int);
            }
            return Some(Error::DataTooLarge);
        }
        i += 1;
    }
    proof {
        model::lemma_no_offence(batch);
    }
    None
}

/// Verifies the signatures of `items` in their order and stops at the first
/// that is invalid. What verified before that is returned, with
/// `InvalidSignature` if the end was not reached.
pub fn check_signatures(items: Vec<(SignedAccountData, PublicKey)>) -> (res: (
    Vec<SignedAccountData>,
    Option<Error>,
))
    ensures
        views(res.0@) == model::check_signatures(keyed_views(items@)).0,
        res.1 == model::check_signatures(keyed_views(items@)).1,
{
    let ghost all = keyed_views(items@);
    let mut data: Vec<SignedAccountData> = Vec::new();
    assert(views(data@) =~= model::records(all.take(0)));
    for item in it: items
        invariant
            all == keyed_views(items@),
            it.seq() == items@,
            views(data@) == model::records(all.take(it.index() as int)),
            forall|j: int| 0 <= j < it.index() ==> (#[trigger] all[j]).0.signed_by(all[j].1),
    {
        let ghost k = it.index() as int;
        let (d, key) = item;
        assert(all[k] == (d@, key));
        if !d.verify(&key) {
            proof {
                model::lemma_valid_prefix(all, k);
            }
            return (data, Some(Error::InvalidSignature));
        }
        let ghost verified = views(data@);
        data.push(d);
        proof {
            assert(all.take(k + 1) =~= all.take(k).push(all[k]));
            assert(model::records(all.take(k + 1)) =~= model::records(all.take(k)).push(all[k].0));
            assert(views(data@) =~= verified.push(all[k].0));
        }
    }
    proof {
        model::lemma_valid_prefix(all, all.len() as int);
        assert(all.take(all.len() as int) =~= all);
    }
    (data, None)
}

/// The cache: the tables of the active epochs, and the pipeline on them.
pub struct Cache {
    epochs: Epochs,
}

impl View for Cache {
    type V = State;

    closed spec fn view(&self) -> State {
        self.epochs@
    }
}

impl Cache {
    /// A cache without active epochs.
    pub fn new() -> (res: Self)
        ensures
            res@ == Map::<EpochId, Slots>::empty(),
            model::well_formed(res@),
    {
        Cache { epochs: Epochs::new() }
    }

    /// Sets `new_epochs` as active, and copies over the keys of the epochs
    /// which were not active before. Returns whether there is such an epoch:
    /// its slots are empty, so the caller should ask its peers for their data.
    ///
    /// The accounts of an epoch are expected to follow from its id, so the
    /// accounts of an epoch that is active already cannot be updated: such an
    /// update is ignored silently. The active epochs are expected to be this
    /// epoch and the next one, and calling this again with the same epochs is
    /// cheap and changes nothing.
    pub fn set_epochs(&mut self, new_epochs: Vec<&EpochInfo>) -> (has_new: bool)
        ensures
            final(self)@ == model::set_epochs(old(self)@, infos_view(new_epochs@)),
            has_new == model::adds_epoch(old(self)@, infos_view(new_epochs@)),
            model::well_formed(final(self)@),
    {
        self.epochs.set_epochs(&new_epochs)
    }

    /// Selects the new data and verifies its signatures. Returns the verified
    /// new data and an optional error. Even where an error is returned, the
    /// data verified up to it is returned too.
    pub fn verify(&self, data: Vec<SignedAccountData>) -> (res: (
        Vec<SignedAccountData>,
        Option<Error>,
    ))
        ensures
            views(res.0@) == model::verify(self@, views(data@)).0,
            res.1 == model::verify(self@, views(data@)).1,
    {
        match check_shape(&data) {
            Some(e) => {
                let nothing: Vec<SignedAccountData> = Vec::new();
                assert(views(nothing@) =~= Seq::<SignedAccountDataView>::empty());
                (nothing, Some(e))
            },
            None => {
                let items = self.epochs.select(data);
                check_signatures(items)
            },
        }
    }

    /// Verifies the signatures and inserts the verified data into the cache.
    /// Returns the data inserted and optionally a verification error: every
    /// record that verified is inserted, also where an error is returned.
    pub fn insert(&mut self, data: Vec<SignedAccountData>) -> (res: (
        Vec<SignedAccountData>,
        Option<Error>,
    ))
        ensures
            final(self)@ == model::insert(old(self)@, views(data@)),
            views(res.0@) == model::verify(old(self)@, views(data@)).0,
            res.1 == model::verify(old(self)@, views(data@)).1,
            model::well_formed(final(self)@),
    {
        let (verified, err) = self.verify(data);
        proof {
            theorems::lemma_verified_is_committed(self@, views(data@));
        }
        let inserted = self.epochs.commit(verified);
        (inserted, err)
    }

    /// Copies and returns all the records in the cache.
    pub fn dump(&self) -> (out: Vec<SignedAccountData>)
        ensures
            model::lists_records(self@, views(out@)),
            model::well_formed(self@),
    {
        self.epochs.dump()
    }
}

} // verus!
