//! What the cache holds and what each operation does to it, as mathematics.
//!
//! The state of the cache is a map from the id of each active epoch to the
//! slots of that epoch, one per authorized account. The functions of this file
//! say, over such maps and over sequences of records, what the executable code
//! computes; the contracts of the executable code refer to them.

use crate::accounts_data::error::Error;
use crate::crypto::PublicKey;
use crate::network_protocol::SignedAccountDataView;
use crate::types::{EpochId, EpochInfoView};
use vstd::prelude::*;

verus! {

/// One account of one epoch: its key and the newest record admitted for it.
pub struct AccountView {
    pub key: PublicKey,
    pub data: Option<SignedAccountDataView>,
}

/// The slots of one epoch, by account name.
pub type Slots = Map<Seq<char>, AccountView>;

/// The slots of all active epochs.
pub type State = Map<EpochId, Slots>;

impl AccountView {
    /// Whether a record with timestamp `t` would be news for this slot:
    /// the slot is empty or holds a strictly older record.
    pub open spec fn is_new(self, t: i128) -> bool {
        match self.data {
            Some(old) => old.timestamp < t,
            None => true,
        }
    }
}

/// Whether `account` is an authorized signer of the active epoch `epoch`.
pub open spec fn tracks(state: State, epoch: EpochId, account: Seq<char>) -> bool {
    state.dom().contains(epoch) && state[epoch].dom().contains(account)
}

/// Every record sits in the slot of the epoch and account that it names.
pub open spec fn well_formed(state: State) -> bool {
    forall|epoch: EpochId, account: Seq<char>| #[trigger]
        tracks(state, epoch, account) ==> match state[epoch][account].data {
            Some(d) => d.epoch_id == epoch && d.account_id == account,
            None => true,
        }
}

/// Whether `d` is the record that the cache currently holds for its account.
pub open spec fn stored(state: State, d: SignedAccountDataView) -> bool {
    tracks(state, d.epoch_id, d.account_id) && state[d.epoch_id][d.account_id].data == Some(d)
}

/// Whether `out` lists the records that the cache holds: each of them, once,
/// and nothing else. The order is left open.
pub open spec fn lists_records(state: State, out: Seq<SignedAccountDataView>) -> bool {
    &&& forall|i: int| 0 <= i < out.len() ==> stored(state, #[trigger] out[i])
    &&& forall|d: SignedAccountDataView| #[trigger] stored(state, d) ==> out.contains(d)
    &&& forall|i: int, j: int| 0 <= i < j < out.len() ==> #[trigger] out[i] != #[trigger] out[j]
}

// Epochs

/// The slots of a new epoch: one empty slot per signer. Where the list names
/// an account twice, the later key counts.
pub open spec fn fresh_slots(signers: Seq<(Seq<char>, PublicKey)>) -> Slots
    decreases signers.len(),
{
    if signers.len() == 0 {
        Map::empty()
    } else {
        fresh_slots(signers.drop_last()).insert(
            signers.last().0,
            AccountView { key: signers.last().1, data: None },
        )
    }
}

/// Whether one of `infos` describes the epoch `epoch`.
pub open spec fn names(infos: Seq<EpochInfoView>, epoch: EpochId) -> bool {
    exists|i: int| 0 <= i < infos.len() && (#[trigger] infos[i]).id == epoch
}

/// Whether `i` is the first position of `infos` that describes `epoch`.
pub open spec fn first_naming(infos: Seq<EpochInfoView>, epoch: EpochId, i: int) -> bool {
    &&& 0 <= i < infos.len()
    &&& infos[i].id == epoch
    &&& forall|j: int| 0 <= j < i ==> (#[trigger] infos[j]).id != epoch
}

/// The first of `infos` that describes `epoch`, where one does.
pub open spec fn description(infos: Seq<EpochInfoView>, epoch: EpochId) -> EpochInfoView {
    infos[choose|i: int| first_naming(infos, epoch, i)]
}

/// The state after `infos` became the active epochs: exactly the epochs that
/// `infos` names are active; one that was active before keeps its slots as
/// they were, whatever its new description says; a new one gets empty slots
/// from its first description.
pub open spec fn set_epochs(state: State, infos: Seq<EpochInfoView>) -> State {
    Map::new(
        |epoch: EpochId| names(infos, epoch),
        |epoch: EpochId|
            if state.dom().contains(epoch) {
                state[epoch]
            } else {
                fresh_slots(description(infos, epoch).signers)
            },
    )
}

/// Among the descriptions of an epoch there is a first one.
pub proof fn lemma_first_naming(infos: Seq<EpochInfoView>, epoch: EpochId)
    requires
        names(infos, epoch),
    ensures
        first_naming(infos, epoch, choose|i: int| first_naming(infos, epoch, i)),
{
    let k = choose|i: int| 0 <= i < infos.len() && (#[trigger] infos[i]).id == epoch;
    lemma_first_naming_upto(infos, epoch, k);
}

proof fn lemma_first_naming_upto(infos: Seq<EpochInfoView>, epoch: EpochId, k: int)
    requires
        0 <= k < infos.len(),
        infos[k].id == epoch,
    ensures
        exists|i: int| first_naming(infos, epoch, i),
    decreases k,
{
    if exists|j: int| 0 <= j < k && (#[trigger] infos[j]).id == epoch {
        let j = choose|j: int| 0 <= j < k && (#[trigger] infos[j]).id == epoch;
        lemma_first_naming_upto(infos, epoch, j);
    } else {
        assert(first_naming(infos, epoch, k));
    }
}

/// An epoch that the first `n` descriptions name is described by the same
/// one in the whole list.
pub proof fn lemma_description_prefix(infos: Seq<EpochInfoView>, n: int, epoch: EpochId)
    requires
        0 <= n <= infos.len(),
        names(infos.take(n), epoch),
    ensures
        names(infos, epoch),
        description(infos.take(n), epoch) == description(infos, epoch),
{
    let head = infos.take(n);
    lemma_first_naming(head, epoch);
    let x = choose|i: int| first_naming(head, epoch, i);
    assert(infos[x] == head[x]);
    assert(first_naming(infos, epoch, x)) by {
        assert forall|j: int| 0 <= j < x implies (#[trigger] infos[j]).id != epoch by {
            assert(head[j] == infos[j]);
        }
    }
    let y = choose|i: int| first_naming(infos, epoch, i);
    assert(x == y) by {
        if x < y {
            assert(infos[x].id == epoch);
        }
        if y < x {
            assert(infos[y].id == epoch);
        }
    }
}

/// Whether `infos` names an epoch that is not active in `state`.
pub open spec fn adds_epoch(state: State, infos: Seq<EpochInfoView>) -> bool {
    exists|i: int| 0 <= i < infos.len() && !state.dom().contains((#[trigger] infos[i]).id)
}

// Freshness and commit

/// Whether `d` is news: its account is tracked, and the slot is empty or
/// holds a strictly older record.
pub open spec fn is_fresh(state: State, d: SignedAccountDataView) -> bool {
    tracks(state, d.epoch_id, d.account_id) && state[d.epoch_id][d.account_id].is_new(d.timestamp)
}

/// The key that the signature of `d` has to verify against.
pub open spec fn key_for(state: State, d: SignedAccountDataView) -> PublicKey {
    state[d.epoch_id][d.account_id].key
}

/// The state with `d` in its slot. The key of the slot stays.
pub open spec fn store(state: State, d: SignedAccountDataView) -> State {
    state.insert(
        d.epoch_id,
        state[d.epoch_id].insert(
            d.account_id,
            AccountView { key: key_for(state, d), data: Some(d) },
        ),
    )
}

/// The state after `d` was offered: stored if it is news, ignored if not.
pub open spec fn try_insert(state: State, d: SignedAccountDataView) -> State {
    if is_fresh(state, d) {
        store(state, d)
    } else {
        state
    }
}

/// The state after the records of `ds` were offered one after the other.
pub open spec fn commit(state: State, ds: Seq<SignedAccountDataView>) -> State
    decreases ds.len(),
{
    if ds.len() == 0 {
        state
    } else {
        try_insert(commit(state, ds.drop_last()), ds.last())
    }
}

/// The records of `ds` that were news at the moment they were offered, in
/// their order.
pub open spec fn committed(state: State, ds: Seq<SignedAccountDataView>) -> Seq<
    SignedAccountDataView,
>
    decreases ds.len(),
{
    if ds.len() == 0 {
        Seq::empty()
    } else {
        let before = committed(state, ds.drop_last());
        if is_fresh(commit(state, ds.drop_last()), ds.last()) {
            before.push(ds.last())
        } else {
            before
        }
    }
}

/// Offering one more record after `ds` is one more step from where `ds` led.
pub proof fn lemma_commit_push(state: State, ds: Seq<SignedAccountDataView>, d: SignedAccountDataView)
    ensures
        commit(state, ds.push(d)) == try_insert(commit(state, ds), d),
        committed(state, ds.push(d)) == if is_fresh(commit(state, ds), d) {
            committed(state, ds).push(d)
        } else {
            committed(state, ds)
        },
{
    assert(ds.push(d).drop_last() =~= ds);
}

// The shape of a batch

/// Whether both records are for the same account in the same epoch.
pub open spec fn same_slot(x: SignedAccountDataView, y: SignedAccountDataView) -> bool {
    x.epoch_id == y.epoch_id && x.account_id == y.account_id
}

/// Whether the record at `i` is for a slot that an earlier record of the
/// batch is for too.
pub open spec fn repeats(batch: Seq<SignedAccountDataView>, i: int) -> bool {
    exists|j: int| 0 <= j < i && same_slot(#[trigger] batch[j], batch[i])
}

/// Whether the record at `i` breaks a rule on batches.
pub open spec fn offends(batch: Seq<SignedAccountDataView>, i: int) -> bool {
    repeats(batch, i) || batch[i].too_large()
}

/// Whether `i` is the first position of the batch that breaks a rule.
pub open spec fn first_offence(batch: Seq<SignedAccountDataView>, i: int) -> bool {
    &&& 0 <= i < batch.len()
    &&& offends(batch, i)
    &&& forall|j: int| 0 <= j < i ==> !offends(batch, j)
}

/// The error that the batch as a whole is rejected with, if it is. The
/// records are examined in order, and the first that breaks a rule decides:
/// a repeated slot counts before an oversized payload.
pub open spec fn shape_error(batch: Seq<SignedAccountDataView>) -> Option<Error> {
    if exists|i: int| first_offence(batch, i) {
        let i = choose|i: int| first_offence(batch, i);
        if repeats(batch, i) {
            Some(Error::SingleAccountMultipleData)
        } else {
            Some(Error::DataTooLarge)
        }
    } else {
        None
    }
}

/// The first record that breaks a rule decides the error.
pub proof fn lemma_first_offence(batch: Seq<SignedAccountDataView>, i: int)
    requires
        first_offence(batch, i),
    ensures
        shape_error(batch) == if repeats(batch, i) {
            Some(Error::SingleAccountMultipleData)
        } else {
            Some(Error::DataTooLarge)
        },
{
    let c = choose|c: int| first_offence(batch, c);
    assert(c == i) by {
        if c < i {
            assert(!offends(batch, c));
        }
        if i < c {
            assert(!offends(batch, i));
        }
    }
}

/// A batch in which no record breaks a rule is not rejected.
pub proof fn lemma_no_offence(batch: Seq<SignedAccountDataView>)
    requires
        forall|i: int| 0 <= i < batch.len() ==> !offends(batch, i),
    ensures
        shape_error(batch) is None,
{
}

// Selection and verification

/// [`is_fresh`] in `state`, as a predicate on records.
pub open spec fn news(state: State) -> spec_fn(SignedAccountDataView) -> bool {
    |d: SignedAccountDataView| is_fresh(state, d)
}

/// The pairing of a record with the key of its slot in `state`.
pub open spec fn keyed(state: State) -> spec_fn(SignedAccountDataView) -> (
    SignedAccountDataView,
    PublicKey,
) {
    |d: SignedAccountDataView| (d, key_for(state, d))
}

/// The records of the batch that are news, in their order, each with the key
/// of its slot.
pub open spec fn select(state: State, batch: Seq<SignedAccountDataView>) -> Seq<
    (SignedAccountDataView, PublicKey),
> {
    batch.filter(news(state)).map_values(keyed(state))
}

/// Nothing is selected from an empty batch.
pub proof fn lemma_select_empty(state: State)
    ensures
        select(state, Seq::empty()) == Seq::<(SignedAccountDataView, PublicKey)>::empty(),
{
    reveal(Seq::filter);
    assert(select(state, Seq::empty()) =~= Seq::<(SignedAccountDataView, PublicKey)>::empty());
}

/// Selecting from a batch with one more record at its end.
pub proof fn lemma_select_push(
    state: State,
    batch: Seq<SignedAccountDataView>,
    d: SignedAccountDataView,
)
    ensures
        select(state, batch.push(d)) == if is_fresh(state, d) {
            select(state, batch).push((d, key_for(state, d)))
        } else {
            select(state, batch)
        },
{
    reveal(Seq::filter);
    assert(batch.push(d).drop_last() =~= batch);
    let chosen = batch.filter(news(state));
    if is_fresh(state, d) {
        assert(chosen.push(d).map_values(keyed(state)) =~= chosen.map_values(keyed(state)).push(
            (d, key_for(state, d)),
        ));
    }
}

/// Whether the first `n` of `items` are validly signed and the one after
/// them, if there is one, is not.
pub open spec fn is_valid_prefix(items: Seq<(SignedAccountDataView, PublicKey)>, n: int) -> bool {
    &&& 0 <= n <= items.len()
    &&& forall|j: int| 0 <= j < n ==> (#[trigger] items[j]).0.signed_by(items[j].1)
    &&& n < items.len() ==> !items[n].0.signed_by(items[n].1)
}

/// How many of `items` are verified: those before the first invalid signature.
pub open spec fn valid_prefix(items: Seq<(SignedAccountDataView, PublicKey)>) -> int {
    choose|n: int| is_valid_prefix(items, n)
}

/// There is one such `n` only.
pub proof fn lemma_valid_prefix(items: Seq<(SignedAccountDataView, PublicKey)>, n: int)
    requires
        is_valid_prefix(items, n),
    ensures
        valid_prefix(items) == n,
{
    let c = valid_prefix(items);
    assert(is_valid_prefix(items, c));
    if c < n {
        assert(items[c].0.signed_by(items[c].1));
    }
    if n < c {
        assert(items[n].0.signed_by(items[n].1));
    }
}

/// The records of the items.
pub open spec fn records(items: Seq<(SignedAccountDataView, PublicKey)>) -> Seq<
    SignedAccountDataView,
> {
    items.map_values(|p: (SignedAccountDataView, PublicKey)| p.0)
}

/// What verification makes of items that were selected: the records before
/// the first invalid signature, and `InvalidSignature` if there is one.
pub open spec fn check_signatures(items: Seq<(SignedAccountDataView, PublicKey)>) -> (
    Seq<SignedAccountDataView>,
    Option<Error>,
) {
    let n = valid_prefix(items);
    (
        records(items.take(n)),
        if n < items.len() {
            Some(Error::InvalidSignature)
        } else {
            None
        },
    )
}

/// What verification makes of a batch: nothing and the error, if the batch is
/// rejected as a whole; else the verified ones of the records that are news.
pub open spec fn verify(state: State, batch: Seq<SignedAccountDataView>) -> (
    Seq<SignedAccountDataView>,
    Option<Error>,
) {
    match shape_error(batch) {
        Some(e) => (Seq::empty(), Some(e)),
        None => check_signatures(select(state, batch)),
    }
}

/// The state after the batch was inserted: the verified records are offered
/// one after the other.
pub open spec fn insert(state: State, batch: Seq<SignedAccountDataView>) -> State {
    commit(state, verify(state, batch).0)
}

} // verus!
