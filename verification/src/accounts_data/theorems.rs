//! What holds of the cache whatever is done with it, proved over the model.

use crate::accounts_data::error::Error;
use crate::accounts_data::model::{
    adds_epoch, check_signatures, commit, committed, description, first_offence, fresh_slots,
    insert, is_fresh, is_valid_prefix, key_for, lemma_first_offence, lemma_no_offence,
    lemma_select_empty, lemma_select_push, lemma_valid_prefix, lists_records, names, news, offends,
    records, repeats, same_slot, select, set_epochs, shape_error, stored, tracks, try_insert,
    valid_prefix, verify, well_formed, AccountView, State,
};
use crate::crypto::PublicKey;
use crate::network_protocol::SignedAccountDataView;
use crate::types::{EpochId, EpochInfoView};
use vstd::prelude::*;

verus! {

/// Whether `d` is for the slot of `account` in `epoch`.
pub open spec fn is_at(d: SignedAccountDataView, epoch: EpochId, account: Seq<char>) -> bool {
    d.epoch_id == epoch && d.account_id == account
}

/// No two records of `ds` are for the same slot.
pub open spec fn one_per_slot(ds: Seq<SignedAccountDataView>) -> bool {
    forall|i: int, j: int| 0 <= i < j < ds.len() ==> !same_slot(#[trigger] ds[i], #[trigger] ds[j])
}

/// Offering a record changes no slot but its own, never which slots there
/// are, and never a key.
pub proof fn lemma_try_insert(
    state: State,
    d: SignedAccountDataView,
    epoch: EpochId,
    account: Seq<char>,
)
    ensures
        try_insert(state, d).dom() == state.dom(),
        state.dom().contains(epoch) ==> try_insert(state, d)[epoch].dom() == state[epoch].dom(),
        tracks(try_insert(state, d), epoch, account) == tracks(state, epoch, account),
        tracks(state, epoch, account) ==> try_insert(state, d)[epoch][account] == if is_fresh(
            state,
            d,
        ) && is_at(d, epoch, account) {
            AccountView { key: state[epoch][account].key, data: Some(d) }
        } else {
            state[epoch][account]
        },
{
    let after = try_insert(state, d);
    assert(after.dom() =~= state.dom());
    if state.dom().contains(epoch) {
        assert(after[epoch].dom() =~= state[epoch].dom());
    }
}

/// Offering records changes only the slots that they are for, never which
/// slots there are, and never a key.
pub proof fn lemma_commit_frame(
    state: State,
    ds: Seq<SignedAccountDataView>,
    epoch: EpochId,
    account: Seq<char>,
)
    ensures
        commit(state, ds).dom() == state.dom(),
        tracks(commit(state, ds), epoch, account) == tracks(state, epoch, account),
        tracks(state, epoch, account) ==> commit(state, ds)[epoch][account].key
            == state[epoch][account].key,
        tracks(state, epoch, account) && (forall|k: int|
            0 <= k < ds.len() ==> !is_at(#[trigger] ds[k], epoch, account)) ==> commit(
            state,
            ds,
        )[epoch][account] == state[epoch][account],
    decreases ds.len(),
{
    if ds.len() > 0 {
        let head = ds.drop_last();
        lemma_commit_frame(state, head, epoch, account);
        lemma_try_insert(commit(state, head), ds.last(), epoch, account);
        if tracks(state, epoch, account) && (forall|k: int|
            0 <= k < ds.len() ==> !is_at(#[trigger] ds[k], epoch, account)) {
            assert forall|k: int| 0 <= k < head.len() implies !is_at(
                #[trigger] head[k],
                epoch,
                account,
            ) by {
                assert(head[k] == ds[k]);
            }
            assert(!is_at(ds[ds.len() - 1], epoch, account));
        }
    }
}

/// Records that are all news, no two for one slot, are all stored when they
/// are offered one after the other.
pub proof fn lemma_commit_all(state: State, ds: Seq<SignedAccountDataView>)
    requires
        one_per_slot(ds),
        forall|k: int| 0 <= k < ds.len() ==> is_fresh(state, #[trigger] ds[k]),
    ensures
        committed(state, ds) == ds,
    decreases ds.len(),
{
    if ds.len() == 0 {
        assert(committed(state, ds) =~= ds);
    } else {
        let head = ds.drop_last();
        let last = ds.last();
        assert(one_per_slot(head)) by {
            assert forall|i: int, j: int| 0 <= i < j < head.len() implies !same_slot(
                #[trigger] head[i],
                #[trigger] head[j],
            ) by {
                assert(head[i] == ds[i] && head[j] == ds[j]);
            }
        }
        assert forall|k: int| 0 <= k < head.len() implies is_fresh(state, #[trigger] head[k]) by {
            assert(head[k] == ds[k]);
        }
        lemma_commit_all(state, head);
        assert(is_fresh(state, ds[ds.len() - 1]));
        assert forall|k: int| 0 <= k < head.len() implies !is_at(
            #[trigger] head[k],
            last.epoch_id,
            last.account_id,
        ) by {
            assert(!same_slot(ds[k], ds[ds.len() - 1]));
        }
        lemma_commit_frame(state, head, last.epoch_id, last.account_id);
        assert(is_fresh(commit(state, head), last));
        assert(committed(state, ds) =~= ds);
    }
}

/// What was selected from a batch without repeated slots: records of the
/// batch that are news, each with the key of its slot, no two for one slot.
pub proof fn lemma_select(state: State, batch: Seq<SignedAccountDataView>)
    requires
        one_per_slot(batch),
    ensures
        one_per_slot(records(select(state, batch))),
        forall|k: int|
            0 <= k < select(state, batch).len() ==> {
                let item = #[trigger] select(state, batch)[k];
                is_fresh(state, item.0) && item.1 == key_for(state, item.0) && batch.contains(item.0)
            },
    decreases batch.len(),
{
    if batch.len() == 0 {
        assert(batch =~= Seq::empty());
        lemma_select_empty(state);
    } else {
        let head = batch.drop_last();
        let last = batch.last();
        assert(batch =~= head.push(last));
        assert(one_per_slot(head)) by {
            assert forall|i: int, j: int| 0 <= i < j < head.len() implies !same_slot(
                #[trigger] head[i],
                #[trigger] head[j],
            ) by {
                assert(head[i] == batch[i] && head[j] == batch[j]);
            }
        }
        lemma_select(state, head);
        lemma_select_push(state, head, last);
        let before = select(state, head);
        let items = select(state, batch);
        assert forall|k: int| 0 <= k < items.len() implies {
            let item = #[trigger] items[k];
            is_fresh(state, item.0) && item.1 == key_for(state, item.0) && batch.contains(item.0)
        } by {
            if k < before.len() {
                assert(items[k] == before[k]);
                let x = choose|x: int| 0 <= x < head.len() && head[x] == before[k].0;
                assert(batch[x] == items[k].0);
            } else {
                assert(batch[batch.len() - 1] == items[k].0);
            }
        }
        assert forall|i: int, j: int| 0 <= i < j < items.len() implies !same_slot(
            #[trigger] records(items)[i],
            #[trigger] records(items)[j],
        ) by {
            if j < before.len() {
                assert(records(before)[i] == records(items)[i]);
                assert(records(before)[j] == records(items)[j]);
            } else {
                assert(items[i] == before[i]);
                let x = choose|x: int| 0 <= x < head.len() && head[x] == before[i].0;
                assert(!same_slot(batch[x], batch[batch.len() - 1]));
            }
        }
    }
}

/// A batch that is not rejected as a whole has no two records for one slot.
pub proof fn lemma_accepted_shape(batch: Seq<SignedAccountDataView>)
    requires
        shape_error(batch) is None,
    ensures
        one_per_slot(batch),
        forall|i: int| 0 <= i < batch.len() ==> !(#[trigger] batch[i]).too_large(),
{
    assert forall|i: int| 0 <= i < batch.len() implies !offends(batch, i) by {
        if offends(batch, i) {
            lemma_first_offence_exists(batch, i);
        }
    }
    assert forall|i: int, j: int| 0 <= i < j < batch.len() implies !same_slot(
        #[trigger] batch[i],
        #[trigger] batch[j],
    ) by {
        assert(!offends(batch, j));
    }
    assert forall|i: int| 0 <= i < batch.len() implies !(#[trigger] batch[i]).too_large() by {
        assert(!offends(batch, i));
    }
}

/// Where a record breaks a rule, some record is the first to do so.
pub proof fn lemma_first_offence_exists(batch: Seq<SignedAccountDataView>, i: int)
    requires
        0 <= i < batch.len(),
        offends(batch, i),
    ensures
        exists|k: int| first_offence(batch, k),
    decreases i,
{
    if exists|j: int| 0 <= j < i && offends(batch, j) {
        let j = choose|j: int| 0 <= j < i && offends(batch, j);
        lemma_first_offence_exists(batch, j);
    } else {
        assert(first_offence(batch, i));
    }
}

/// Whatever verified is stored: in one insert, taken by itself, every record
/// that passes verification is news when it is offered.
pub proof fn lemma_verified_is_committed(state: State, batch: Seq<SignedAccountDataView>)
    ensures
        committed(state, verify(state, batch).0) == verify(state, batch).0,
{
    let ds = verify(state, batch).0;
    if shape_error(batch) is None {
        lemma_accepted_shape(batch);
        lemma_select(state, batch);
        let items = select(state, batch);
        lemma_valid_prefix_exists(items);
        let n = valid_prefix(items);
        assert(ds == records(items.take(n)));
        assert forall|k: int| 0 <= k < ds.len() implies is_fresh(state, #[trigger] ds[k]) by {
            assert(ds[k] == items[k].0);
        }
        assert forall|i: int, j: int| 0 <= i < j < ds.len() implies !same_slot(
            #[trigger] ds[i],
            #[trigger] ds[j],
        ) by {
            assert(ds[i] == records(items)[i]);
            assert(ds[j] == records(items)[j]);
        }
        lemma_commit_all(state, ds);
    } else {
        assert(committed(state, ds) =~= ds);
    }
}

/// Every list of items has a verified prefix.
pub proof fn lemma_valid_prefix_exists(items: Seq<(SignedAccountDataView, PublicKey)>)
    ensures
        is_valid_prefix(items, valid_prefix(items)),
{
    lemma_valid_prefix_from(items, 0);
}

proof fn lemma_valid_prefix_from(items: Seq<(SignedAccountDataView, PublicKey)>, n: int)
    requires
        0 <= n <= items.len(),
        forall|j: int| 0 <= j < n ==> (#[trigger] items[j]).0.signed_by(items[j].1),
    ensures
        exists|m: int| is_valid_prefix(items, m),
    decreases items.len() - n,
{
    if n == items.len() || !items[n].0.signed_by(items[n].1) {
        assert(is_valid_prefix(items, n));
    } else {
        lemma_valid_prefix_from(items, n + 1);
    }
}

// Timestamps only go up

/// Offering records keeps the state well-formed.
pub proof fn lemma_commit_well_formed(state: State, ds: Seq<SignedAccountDataView>)
    requires
        well_formed(state),
    ensures
        well_formed(commit(state, ds)),
    decreases ds.len(),
{
    if ds.len() > 0 {
        let before = commit(state, ds.drop_last());
        lemma_commit_well_formed(state, ds.drop_last());
        assert forall|epoch: EpochId, account: Seq<char>| #[trigger]
            tracks(commit(state, ds), epoch, account) implies match commit(
            state,
            ds,
        )[epoch][account].data {
            Some(d) => d.epoch_id == epoch && d.account_id == account,
            None => true,
        } by {
            lemma_try_insert(before, ds.last(), epoch, account);
            assert(tracks(before, epoch, account));
        }
    }
}

/// A slot never goes back in time. Where the slot of `account` in `epoch`
/// holds a record with a timestamp of `t` or later, then, whatever records
/// are offered in whatever order, it holds such a record afterwards, and no
/// record with a timestamp of `t` or earlier is stored in it.
pub proof fn theorem_timestamps_only_go_up(
    state: State,
    ds: Seq<SignedAccountDataView>,
    epoch: EpochId,
    account: Seq<char>,
    t: i128,
)
    requires
        tracks(state, epoch, account),
        !state[epoch][account].is_new(t),
    ensures
        tracks(commit(state, ds), epoch, account),
        !commit(state, ds)[epoch][account].is_new(t),
        forall|k: int|
            0 <= k < committed(state, ds).len() && is_at(
                #[trigger] committed(state, ds)[k],
                epoch,
                account,
            ) ==> committed(state, ds)[k].timestamp > t,
    decreases ds.len(),
{
    if ds.len() > 0 {
        let head = ds.drop_last();
        theorem_timestamps_only_go_up(state, head, epoch, account, t);
        lemma_try_insert(commit(state, head), ds.last(), epoch, account);
        assert forall|k: int|
            0 <= k < committed(state, ds).len() && is_at(
                #[trigger] committed(state, ds)[k],
                epoch,
                account,
            ) implies committed(state, ds)[k].timestamp > t by {
            if k < committed(state, head).len() {
                assert(committed(state, ds)[k] == committed(state, head)[k]);
            }
        }
    }
}

/// Whether one of `ds` is for the slot of `account` in `epoch` and has a
/// timestamp of `t` or later.
pub open spec fn offers(
    ds: Seq<SignedAccountDataView>,
    epoch: EpochId,
    account: Seq<char>,
    t: i128,
) -> bool {
    exists|k: int|
        0 <= k < ds.len() && is_at(#[trigger] ds[k], epoch, account) && ds[k].timestamp >= t
}

/// The highest timestamp wins, in whatever order the records arrive: after
/// records were offered, a slot holds a record with a timestamp of `t` or
/// later exactly if it held one before or one was offered for it.
pub proof fn theorem_highest_timestamp_wins(
    state: State,
    ds: Seq<SignedAccountDataView>,
    epoch: EpochId,
    account: Seq<char>,
    t: i128,
)
    requires
        tracks(state, epoch, account),
    ensures
        !commit(state, ds)[epoch][account].is_new(t) <==> (!state[epoch][account].is_new(t)
            || offers(ds, epoch, account, t)),
    decreases ds.len(),
{
    if ds.len() > 0 {
        let head = ds.drop_last();
        let last = ds.last();
        let before = commit(state, head);
        theorem_highest_timestamp_wins(state, head, epoch, account, t);
        theorem_highest_timestamp_wins(state, head, epoch, account, last.timestamp);
        lemma_commit_frame(state, head, epoch, account);
        lemma_try_insert(before, last, epoch, account);
        if offers(head, epoch, account, t) {
            let k = choose|k: int|
                0 <= k < head.len() && is_at(#[trigger] head[k], epoch, account)
                    && head[k].timestamp >= t;
            assert(ds[k] == head[k]);
        }
        if offers(ds, epoch, account, t) {
            let k = choose|k: int|
                0 <= k < ds.len() && is_at(#[trigger] ds[k], epoch, account) && ds[k].timestamp
                    >= t;
            if k < head.len() {
                assert(head[k] == ds[k]);
            }
        }
        if is_at(last, epoch, account) && last.timestamp >= t {
            assert(ds[ds.len() - 1] == last);
        }
    }
}

/// A record that was stored is no longer news: its slot holds it or a newer
/// one, so the same record, or an older one, is not stored again.
pub proof fn theorem_stored_is_not_news(state: State, ds: Seq<SignedAccountDataView>, k: int)
    requires
        0 <= k < committed(state, ds).len(),
    ensures
        !is_fresh(commit(state, ds), committed(state, ds)[k]),
        tracks(
            commit(state, ds),
            committed(state, ds)[k].epoch_id,
            committed(state, ds)[k].account_id,
        ),
    decreases ds.len(),
{
    if ds.len() > 0 {
        let head = ds.drop_last();
        let before = commit(state, head);
        let d = committed(state, ds)[k];
        lemma_try_insert(before, ds.last(), d.epoch_id, d.account_id);
        if k < committed(state, head).len() {
            assert(d == committed(state, head)[k]);
            theorem_stored_is_not_news(state, head, k);
        }
    }
}

/// What a dump lists never goes back in time either: for each record listed
/// before records were offered, the list afterwards has a record for the
/// same slot that is at least as new.
pub proof fn theorem_dump_only_goes_up(
    state: State,
    ds: Seq<SignedAccountDataView>,
    before: Seq<SignedAccountDataView>,
    after: Seq<SignedAccountDataView>,
    i: int,
)
    requires
        well_formed(state),
        lists_records(state, before),
        lists_records(commit(state, ds), after),
        0 <= i < before.len(),
    ensures
        exists|j: int|
            0 <= j < after.len() && same_slot(#[trigger] after[j], before[i]) && after[j].timestamp
                >= before[i].timestamp,
{
    let old = before[i];
    assert(stored(state, old));
    theorem_timestamps_only_go_up(state, ds, old.epoch_id, old.account_id, old.timestamp);
    lemma_commit_well_formed(state, ds);
    let new = commit(state, ds)[old.epoch_id][old.account_id].data->0;
    assert(tracks(commit(state, ds), old.epoch_id, old.account_id));
    assert(stored(commit(state, ds), new));
    assert(after.contains(new));
    let j = choose|j: int| 0 <= j < after.len() && after[j] == new;
    assert(same_slot(after[j], before[i]) && after[j].timestamp >= before[i].timestamp);
}

/// An insert never takes a slot back in time: where a slot holds a record
/// with a timestamp of `t` or later, it does so after any batch was inserted,
/// and no record that the insert admits for that slot has a timestamp of `t`
/// or earlier.
pub proof fn theorem_insert_only_goes_up(
    state: State,
    batch: Seq<SignedAccountDataView>,
    epoch: EpochId,
    account: Seq<char>,
    t: i128,
)
    requires
        tracks(state, epoch, account),
        !state[epoch][account].is_new(t),
    ensures
        tracks(insert(state, batch), epoch, account),
        !insert(state, batch)[epoch][account].is_new(t),
        forall|k: int|
            0 <= k < verify(state, batch).0.len() && is_at(
                #[trigger] verify(state, batch).0[k],
                epoch,
                account,
            ) ==> verify(state, batch).0[k].timestamp > t,
{
    lemma_verified_is_committed(state, batch);
    theorem_timestamps_only_go_up(state, verify(state, batch).0, epoch, account, t);
}

/// What an insert admits it holds afterwards: each admitted record is in
/// its slot, so a dump lists it, and what was in the slot before is older.
pub proof fn theorem_admitted_is_stored(state: State, batch: Seq<SignedAccountDataView>, k: int)
    requires
        0 <= k < verify(state, batch).0.len(),
    ensures
        stored(insert(state, batch), verify(state, batch).0[k]),
        is_fresh(state, verify(state, batch).0[k]),
{
    let ds = verify(state, batch).0;
    let d = ds[k];
    lemma_accepted_shape(batch);
    lemma_select(state, batch);
    let items = select(state, batch);
    lemma_valid_prefix_exists(items);
    assert(d == items[k].0);
    assert(one_per_slot(ds)) by {
        assert forall|i: int, j: int| 0 <= i < j < ds.len() implies !same_slot(
            #[trigger] ds[i],
            #[trigger] ds[j],
        ) by {
            assert(ds[i] == records(items)[i]);
            assert(ds[j] == records(items)[j]);
        }
    }
    lemma_commit_stores(state, ds, k);
}

/// An insert changes no slot but those of the records that it admits.
pub proof fn theorem_insert_touches_admitted_slots_only(
    state: State,
    batch: Seq<SignedAccountDataView>,
    epoch: EpochId,
    account: Seq<char>,
)
    requires
        tracks(state, epoch, account),
        forall|k: int|
            0 <= k < verify(state, batch).0.len() ==> !is_at(
                #[trigger] verify(state, batch).0[k],
                epoch,
                account,
            ),
    ensures
        tracks(insert(state, batch), epoch, account),
        insert(state, batch)[epoch][account] == state[epoch][account],
{
    lemma_commit_frame(state, verify(state, batch).0, epoch, account);
}

/// Of records that are all news, no two for one slot, each is in its slot
/// after they were offered.
pub proof fn lemma_commit_stores(state: State, ds: Seq<SignedAccountDataView>, k: int)
    requires
        one_per_slot(ds),
        forall|i: int| 0 <= i < ds.len() ==> is_fresh(state, #[trigger] ds[i]),
        0 <= k < ds.len(),
    ensures
        stored(commit(state, ds), ds[k]),
    decreases ds.len(),
{
    let head = ds.drop_last();
    let last = ds.last();
    let before = commit(state, head);
    let d = ds[k];
    assert(one_per_slot(head)) by {
        assert forall|i: int, j: int| 0 <= i < j < head.len() implies !same_slot(
            #[trigger] head[i],
            #[trigger] head[j],
        ) by {
            assert(head[i] == ds[i] && head[j] == ds[j]);
        }
    }
    assert forall|i: int| 0 <= i < head.len() implies is_fresh(state, #[trigger] head[i]) by {
        assert(head[i] == ds[i]);
    }
    assert(is_fresh(state, ds[ds.len() - 1]));
    assert forall|i: int| 0 <= i < head.len() implies !is_at(
        #[trigger] head[i],
        last.epoch_id,
        last.account_id,
    ) by {
        assert(!same_slot(ds[i], ds[ds.len() - 1]));
    }
    lemma_commit_frame(state, head, last.epoch_id, last.account_id);
    lemma_try_insert(before, last, d.epoch_id, d.account_id);
    if k < head.len() {
        assert(head[k] == d);
        lemma_commit_stores(state, head, k);
        assert(!same_slot(ds[k], ds[ds.len() - 1]));
    }
}

/// One thing that happens to the cache. Callers that share the cache run the
/// stages of an insert interleaved with each other, so besides whole inserts
/// there are commits of records that were selected in an earlier state.
pub enum Step {
    /// A batch is inserted: verified and committed in one go.
    Insert(Seq<SignedAccountDataView>),
    /// Records are committed, wherever they were verified.
    Commit(Seq<SignedAccountDataView>),
    /// The active epochs are set.
    SetEpochs(Seq<EpochInfoView>),
}

/// The state after one step.
pub open spec fn after(state: State, step: Step) -> State {
    match step {
        Step::Insert(batch) => insert(state, batch),
        Step::Commit(ds) => commit(state, ds),
        Step::SetEpochs(infos) => set_epochs(state, infos),
    }
}

/// The state after a history of steps.
pub open spec fn after_all(state: State, history: Seq<Step>) -> State
    decreases history.len(),
{
    if history.len() == 0 {
        state
    } else {
        after(after_all(state, history.drop_last()), history.last())
    }
}

/// Whether `epoch` stays active throughout the history: it is named wherever
/// the active epochs are set.
pub open spec fn stays_active(history: Seq<Step>, epoch: EpochId) -> bool {
    forall|i: int|
        0 <= i < history.len() ==> match #[trigger] history[i] {
            Step::SetEpochs(infos) => names(infos, epoch),
            _ => true,
        }
}

/// Whatever happens to the cache, every record sits in the slot of the epoch
/// and account that it names.
pub proof fn theorem_state_stays_well_formed(state: State, history: Seq<Step>)
    requires
        well_formed(state),
    ensures
        well_formed(after_all(state, history)),
    decreases history.len(),
{
    if history.len() > 0 {
        let before = after_all(state, history.drop_last());
        theorem_state_stays_well_formed(state, history.drop_last());
        match history.last() {
            Step::Insert(batch) => {
                lemma_commit_well_formed(before, verify(before, batch).0);
            },
            Step::Commit(ds) => {
                lemma_commit_well_formed(before, ds);
            },
            Step::SetEpochs(infos) => {
                lemma_set_epochs_well_formed(before, infos);
            },
        }
    }
}

/// The accounts of an epoch and their keys are fixed for as long as the
/// epoch stays active: whatever happens to the cache, no account is added to
/// the epoch or removed from it, and no key changes.
pub proof fn theorem_membership_is_fixed(
    state: State,
    history: Seq<Step>,
    epoch: EpochId,
    account: Seq<char>,
)
    requires
        state.dom().contains(epoch),
        stays_active(history, epoch),
    ensures
        after_all(state, history).dom().contains(epoch),
        tracks(after_all(state, history), epoch, account) == tracks(state, epoch, account),
        tracks(state, epoch, account) ==> after_all(state, history)[epoch][account].key
            == state[epoch][account].key,
    decreases history.len(),
{
    if history.len() > 0 {
        let earlier = history.drop_last();
        let before = after_all(state, earlier);
        assert(stays_active(earlier, epoch)) by {
            assert forall|i: int| 0 <= i < earlier.len() implies match #[trigger] earlier[i] {
                Step::SetEpochs(infos) => names(infos, epoch),
                _ => true,
            } by {
                assert(earlier[i] == history[i]);
            }
        }
        theorem_membership_is_fixed(state, earlier, epoch, account);
        match history.last() {
            Step::Insert(batch) => {
                lemma_commit_frame(before, verify(before, batch).0, epoch, account);
            },
            Step::Commit(ds) => {
                lemma_commit_frame(before, ds, epoch, account);
            },
            Step::SetEpochs(infos) => {
                assert(history[history.len() - 1] == history.last());
                theorem_active_epoch_is_untouched(before, infos, epoch);
            },
        }
    }
}

/// As long as its epoch stays active, a slot never goes back in time,
/// whatever happens to the cache and in whatever order: where it holds a
/// record with a timestamp of `t` or later, it still does after any history,
/// and an insert after that history admits no record for it with a timestamp
/// of `t` or earlier.
pub proof fn theorem_history_only_goes_up(
    state: State,
    history: Seq<Step>,
    epoch: EpochId,
    account: Seq<char>,
    t: i128,
)
    requires
        tracks(state, epoch, account),
        !state[epoch][account].is_new(t),
        stays_active(history, epoch),
    ensures
        tracks(after_all(state, history), epoch, account),
        !after_all(state, history)[epoch][account].is_new(t),
        forall|batch: Seq<SignedAccountDataView>, k: int|
            0 <= k < verify(after_all(state, history), batch).0.len() && is_at(
                #[trigger] verify(after_all(state, history), batch).0[k],
                epoch,
                account,
            ) ==> verify(after_all(state, history), batch).0[k].timestamp > t,
    decreases history.len(),
{
    if history.len() > 0 {
        let earlier = history.drop_last();
        let before = after_all(state, earlier);
        assert(stays_active(earlier, epoch)) by {
            assert forall|i: int| 0 <= i < earlier.len() implies match #[trigger] earlier[i] {
                Step::SetEpochs(infos) => names(infos, epoch),
                _ => true,
            } by {
                assert(earlier[i] == history[i]);
            }
        }
        theorem_history_only_goes_up(state, earlier, epoch, account, t);
        match history.last() {
            Step::Insert(batch) => {
                theorem_insert_only_goes_up(before, batch, epoch, account, t);
            },
            Step::Commit(ds) => {
                theorem_timestamps_only_go_up(before, ds, epoch, account, t);
            },
            Step::SetEpochs(infos) => {
                assert(history[history.len() - 1] == history.last());
                theorem_active_epoch_is_untouched(before, infos, epoch);
            },
        }
    }
    let now = after_all(state, history);
    assert forall|batch: Seq<SignedAccountDataView>, k: int|
        0 <= k < verify(now, batch).0.len() && is_at(
            #[trigger] verify(now, batch).0[k],
            epoch,
            account,
        ) implies verify(now, batch).0[k].timestamp > t by {
        theorem_insert_only_goes_up(now, batch, epoch, account, t);
    }
}

// The active epochs

/// The slots of a new epoch are empty.
pub proof fn lemma_fresh_slots_empty(signers: Seq<(Seq<char>, PublicKey)>, account: Seq<char>)
    requires
        fresh_slots(signers).dom().contains(account),
    ensures
        fresh_slots(signers)[account].data is None,
    decreases signers.len(),
{
    if signers.len() > 0 && signers.last().0 != account {
        lemma_fresh_slots_empty(signers.drop_last(), account);
    }
}

/// Setting the active epochs keeps the state well-formed.
pub proof fn lemma_set_epochs_well_formed(state: State, infos: Seq<EpochInfoView>)
    requires
        well_formed(state),
    ensures
        well_formed(set_epochs(state, infos)),
{
    let after = set_epochs(state, infos);
    assert forall|epoch: EpochId, account: Seq<char>| #[trigger]
        tracks(after, epoch, account) implies match after[epoch][account].data {
        Some(d) => d.epoch_id == epoch && d.account_id == account,
        None => true,
    } by {
        if state.dom().contains(epoch) {
            assert(tracks(state, epoch, account));
        } else {
            lemma_fresh_slots_empty(description(infos, epoch).signers, account);
        }
    }
}

/// Setting the same epochs twice in a row changes nothing the second time,
/// and the second call reports no new epoch.
pub proof fn theorem_set_epochs_twice(state: State, infos: Seq<EpochInfoView>)
    ensures
        set_epochs(set_epochs(state, infos), infos) == set_epochs(state, infos),
        !adds_epoch(set_epochs(state, infos), infos),
{
    let once = set_epochs(state, infos);
    assert(set_epochs(once, infos) =~= once);
    assert forall|i: int| 0 <= i < infos.len() implies once.dom().contains(
        (#[trigger] infos[i]).id,
    ) by {
        assert(names(infos, infos[i].id));
    }
}

/// An epoch that stays active keeps its slots as they are, whatever its new
/// description says.
pub proof fn theorem_active_epoch_is_untouched(
    state: State,
    infos: Seq<EpochInfoView>,
    epoch: EpochId,
)
    requires
        state.dom().contains(epoch),
        names(infos, epoch),
    ensures
        set_epochs(state, infos).dom().contains(epoch),
        set_epochs(state, infos)[epoch] == state[epoch],
{
}

/// An epoch that is no longer named is gone with everything it held: it is
/// not active, and a dump lists no record for it.
pub proof fn theorem_dropped_epoch_is_gone(
    state: State,
    infos: Seq<EpochInfoView>,
    epoch: EpochId,
    out: Seq<SignedAccountDataView>,
)
    requires
        !names(infos, epoch),
        lists_records(set_epochs(state, infos), out),
    ensures
        !set_epochs(state, infos).dom().contains(epoch),
        forall|i: int| 0 <= i < out.len() ==> (#[trigger] out[i]).epoch_id != epoch,
{
    assert forall|i: int| 0 <= i < out.len() implies (#[trigger] out[i]).epoch_id != epoch by {
        assert(stored(set_epochs(state, infos), out[i]));
    }
}

/// An epoch that is not active stays so until it is named again: offering
/// records creates no epoch.
pub proof fn theorem_records_create_no_epoch(
    state: State,
    ds: Seq<SignedAccountDataView>,
    epoch: EpochId,
)
    requires
        !state.dom().contains(epoch),
    ensures
        !commit(state, ds).dom().contains(epoch),
{
    lemma_commit_frame(state, ds, epoch, Seq::empty());
}

/// An epoch that becomes active starts with empty slots, also where it was
/// active earlier and held records then: nothing of what it held comes back.
pub proof fn theorem_new_epoch_is_empty(
    state: State,
    infos: Seq<EpochInfoView>,
    epoch: EpochId,
    account: Seq<char>,
)
    requires
        !state.dom().contains(epoch),
        names(infos, epoch),
        tracks(set_epochs(state, infos), epoch, account),
    ensures
        set_epochs(state, infos)[epoch][account].data is None,
{
    lemma_fresh_slots_empty(description(infos, epoch).signers, account);
}

// Batches that are rejected as a whole

/// A batch in which a record is for the slot of an earlier record, with no
/// oversized record before it, is rejected with `SingleAccountMultipleData`:
/// nothing is admitted and the state stays as it is, however valid the
/// records are one by one.
pub proof fn theorem_repeated_slot_rejects_batch(
    state: State,
    batch: Seq<SignedAccountDataView>,
    j: int,
)
    requires
        0 <= j < batch.len(),
        repeats(batch, j),
        forall|k: int| 0 <= k < j ==> !(#[trigger] batch[k]).too_large(),
    ensures
        verify(state, batch) == (
            Seq::<SignedAccountDataView>::empty(),
            Some(Error::SingleAccountMultipleData),
        ),
        insert(state, batch) == state,
{
    lemma_first_offence_exists(batch, j);
    let i = choose|i: int| first_offence(batch, i);
    if j < i {
        assert(!offends(batch, j));
    }
    if i < j {
        assert(!batch[i].too_large());
    }
    lemma_first_offence(batch, i);
}

/// A batch with an oversized record, with no record up to it that is for the
/// slot of an earlier one, is rejected with `DataTooLarge`: nothing is
/// admitted and the state stays as it is, however small and valid the other
/// records are.
pub proof fn theorem_oversized_record_rejects_batch(
    state: State,
    batch: Seq<SignedAccountDataView>,
    j: int,
)
    requires
        0 <= j < batch.len(),
        batch[j].too_large(),
        forall|k: int| 0 <= k <= j ==> !repeats(batch, k),
    ensures
        verify(state, batch) == (Seq::<SignedAccountDataView>::empty(), Some(Error::DataTooLarge)),
        insert(state, batch) == state,
{
    lemma_first_offence_exists(batch, j);
    let i = choose|i: int| first_offence(batch, i);
    if j < i {
        assert(!offends(batch, j));
    }
    lemma_first_offence(batch, i);
}

// Records out of scope

/// A record for an epoch or an account that is not tracked is dropped
/// without a trace. Put anywhere into a batch, it changes neither what is
/// admitted, nor the error, nor the resulting state, as long as it does not
/// itself break a rule on batches: it is within the size limit, and no other
/// record of the batch is for its slot.
pub proof fn theorem_untracked_record_is_ignored(
    state: State,
    batch: Seq<SignedAccountDataView>,
    i: int,
    d: SignedAccountDataView,
)
    requires
        0 <= i <= batch.len(),
        !tracks(state, d.epoch_id, d.account_id),
        !d.too_large(),
        forall|k: int| 0 <= k < batch.len() ==> !same_slot(#[trigger] batch[k], d),
    ensures
        verify(state, batch.insert(i, d)) == verify(state, batch),
        insert(state, batch.insert(i, d)) == insert(state, batch),
{
    lemma_stale_record_is_not_selected(state, batch, i, d);
    lemma_shape_without(batch, i, d);
}

/// A record that is not news is not selected, wherever it stands.
pub proof fn lemma_stale_record_is_not_selected(
    state: State,
    batch: Seq<SignedAccountDataView>,
    i: int,
    d: SignedAccountDataView,
)
    requires
        0 <= i <= batch.len(),
        !is_fresh(state, d),
    ensures
        select(state, batch.insert(i, d)) == select(state, batch),
{
    let front = batch.take(i);
    let back = batch.skip(i);
    assert(batch.insert(i, d) =~= front.push(d) + back);
    assert(batch =~= front + back);
    Seq::filter_distributes_over_add(front.push(d), back, news(state));
    Seq::filter_distributes_over_add(front, back, news(state));
    assert(front.push(d).filter(news(state)) == front.filter(news(state))) by {
        reveal(Seq::filter);
        assert(front.push(d).drop_last() =~= front);
    }
}

/// The position in `batch.insert(i, d)` of the record at `k` of `batch`.
spec fn shifted(i: int, k: int) -> int {
    if k < i {
        k
    } else {
        k + 1
    }
}

/// A record within the size limit, for a slot that no other record of the
/// batch is for, does not change whether, and why, the batch is rejected.
pub proof fn lemma_shape_without(
    batch: Seq<SignedAccountDataView>,
    i: int,
    d: SignedAccountDataView,
)
    requires
        0 <= i <= batch.len(),
        !d.too_large(),
        forall|k: int| 0 <= k < batch.len() ==> !same_slot(#[trigger] batch[k], d),
    ensures
        shape_error(batch.insert(i, d)) == shape_error(batch),
{
    let wider = batch.insert(i, d);
    assert forall|k: int| 0 <= k < batch.len() implies wider[shifted(i, k)] == batch[k] by {}
    assert(wider[i] == d);
    assert(!offends(wider, i)) by {
        if repeats(wider, i) {
            let j = choose|j: int| 0 <= j < i && same_slot(#[trigger] wider[j], wider[i]);
            assert(wider[j] == batch[j]);
            assert(same_slot(batch[j], d));
        }
    }
    assert forall|k: int| 0 <= k < batch.len() implies repeats(wider, shifted(i, k)) == repeats(
        batch,
        k,
    ) by {
        if repeats(batch, k) {
            let j = choose|j: int| 0 <= j < k && same_slot(#[trigger] batch[j], batch[k]);
            assert(same_slot(wider[shifted(i, j)], wider[shifted(i, k)]));
        }
        if repeats(wider, shifted(i, k)) {
            let j = choose|j: int|
                0 <= j < shifted(i, k) && same_slot(#[trigger] wider[j], wider[shifted(i, k)]);
            if j == i {
                assert(same_slot(batch[k], d));
            } else {
                let x = if j < i {
                    j
                } else {
                    j - 1
                };
                assert(wider[j] == batch[x]);
                assert(same_slot(batch[x], batch[k]));
            }
        }
    }
    if exists|x: int| first_offence(batch, x) {
        let x = choose|x: int| first_offence(batch, x);
        assert(first_offence(wider, shifted(i, x))) by {
            assert(repeats(wider, shifted(i, x)) == repeats(batch, x));
            assert forall|j: int| 0 <= j < shifted(i, x) implies !offends(wider, j) by {
                if j != i {
                    let k = if j < i {
                        j
                    } else {
                        j - 1
                    };
                    assert(shifted(i, k) == j);
                    assert(!offends(batch, k));
                    assert(repeats(wider, shifted(i, k)) == repeats(batch, k));
                }
            }
        }
        lemma_first_offence(batch, x);
        lemma_first_offence(wider, shifted(i, x));
        assert(repeats(wider, shifted(i, x)) == repeats(batch, x));
    } else {
        assert forall|j: int| 0 <= j < wider.len() implies !offends(wider, j) by {
            if j != i {
                let k = if j < i {
                    j
                } else {
                    j - 1
                };
                assert(shifted(i, k) == j);
                if offends(batch, k) {
                    lemma_first_offence_exists(batch, k);
                }
                assert(repeats(wider, shifted(i, k)) == repeats(batch, k));
            }
        }
        lemma_no_offence(wider);
    }
}

// Partial credit

/// Validly signed items followed by one with an invalid signature: exactly
/// the records before the invalid one are verified, whatever follows it,
/// and `InvalidSignature` is reported.
pub proof fn theorem_valid_prefix_is_kept(
    valid: Seq<(SignedAccountDataView, PublicKey)>,
    invalid: (SignedAccountDataView, PublicKey),
    rest: Seq<(SignedAccountDataView, PublicKey)>,
)
    requires
        forall|j: int| 0 <= j < valid.len() ==> (#[trigger] valid[j]).0.signed_by(valid[j].1),
        !invalid.0.signed_by(invalid.1),
    ensures
        check_signatures(valid.push(invalid) + rest) == (records(valid), Some(Error::InvalidSignature)),
{
    let items = valid.push(invalid) + rest;
    let n = valid.len() as int;
    assert(is_valid_prefix(items, n)) by {
        assert forall|j: int| 0 <= j < n implies (#[trigger] items[j]).0.signed_by(items[j].1) by {
            assert(items[j] == valid[j]);
        }
        assert(items[n] == invalid);
    }
    lemma_valid_prefix(items, n);
    assert(items.take(n) =~= valid);
}

/// Where every signature is valid, every record is verified and no error is
/// reported.
pub proof fn theorem_all_valid_is_kept(items: Seq<(SignedAccountDataView, PublicKey)>)
    requires
        forall|j: int| 0 <= j < items.len() ==> (#[trigger] items[j]).0.signed_by(items[j].1),
    ensures
        check_signatures(items) == (records(items), None::<Error>),
{
    assert(is_valid_prefix(items, items.len() as int));
    lemma_valid_prefix(items, items.len() as int);
    assert(items.take(items.len() as int) =~= items);
}

} // verus!
