//! The tables behind the cache: the slots of one epoch, and the active epochs.
//!
//! Both are short vectors of (id, value) pairs in which no id occurs twice:
//! a handful of epochs, each with the accounts of its validators.

use crate::accounts_data::assoc::{
    distinct, has_key, index_of, lemma_at, lemma_push, lemma_update, to_map,
};
use crate::accounts_data::model;
use crate::accounts_data::model::{AccountView, Slots, State};
use crate::crypto::PublicKey;
use crate::network_protocol::{keyed_views, views, SignedAccountData, SignedAccountDataView};
use crate::types::{infos_view, signers_view, AccountId, EpochId, EpochInfo, EpochInfoView};
use vstd::prelude::*;

verus! {

/// One authorized signer of an epoch: its key, and the newest record that was
/// admitted for it, if any.
struct Account {
    key: PublicKey,
    data: Option<SignedAccountData>,
}

impl View for Account {
    type V = AccountView;

    closed spec fn view(&self) -> AccountView {
        AccountView {
            key: self.key,
            data: match self.data {
                Some(d) => Some(d@),
                None => None,
            },
        }
    }
}

impl Account {
    fn is_new(&self, t: i128) -> (b: bool)
        ensures
            b == self@.is_new(t),
    {
        match &self.data {
            Some(old) if old.timestamp >= t => false,
            _ => true,
        }
    }
}

/// Whether the record in the slot, if there is one, is of the account that
/// the slot belongs to.
spec fn holds_own(p: (Seq<char>, AccountView)) -> bool {
    match p.1.data {
        Some(d) => d.account_id == p.0,
        None => true,
    }
}

/// Whether the record in the slot, if there is one, is for `epoch`.
spec fn is_for(p: (Seq<char>, AccountView), epoch: EpochId) -> bool {
    match p.1.data {
        Some(d) => d.epoch_id == epoch,
        None => true,
    }
}

/// The slots of one epoch. Which accounts have a slot, and with which key,
/// is fixed when the epoch is created.
struct Epoch {
    accounts: Vec<(AccountId, Account)>,
}

impl Epoch {
    spec fn pairs(&self) -> Seq<(Seq<char>, AccountView)> {
        self.accounts@.map_values(|p: (AccountId, Account)| (p.0@, p.1@))
    }

    spec fn wf(&self) -> bool {
        &&& distinct(self.pairs())
        &&& forall|i: int| 0 <= i < self.pairs().len() ==> holds_own(#[trigger] self.pairs()[i])
    }

    /// Every record in the slots is for `epoch`.
    spec fn only_for(&self, epoch: EpochId) -> bool {
        forall|i: int| 0 <= i < self.pairs().len() ==> is_for(#[trigger] self.pairs()[i], epoch)
    }

    /// The position of the slot of `id`.
    fn find(&self, id: &AccountId) -> (res: Option<usize>)
        ensures
            match res {
                Some(i) => i < self.accounts.len() && self.pairs()[i as int].0 == id@,
                None => !has_key(self.pairs(), id@),
            },
    {
        let mut i: usize = 0;
        while i < self.accounts.len()
            invariant
                i <= self.accounts.len(),
                forall|j: int| 0 <= j < i ==> (#[trigger] self.pairs()[j]).0 != id@,
            decreases self.accounts.len() - i,
        {
            if self.accounts[i].0.same(id) {
                return Some(i);
            }
            i += 1;
        }
        None
    }

    /// One empty slot per signer of `keys`.
    fn new(keys: &Vec<(AccountId, PublicKey)>) -> (res: Self)
        ensures
            res.wf(),
            res@ == model::fresh_slots(signers_view(keys@)),
            forall|epoch: EpochId| res.only_for(epoch),
    {
        let mut res = Epoch { accounts: Vec::new() };
        let ghost signers = signers_view(keys@);
        assert(res@ =~= Map::empty());
        let mut i: usize = 0;
        while i < keys.len()
            invariant
                i <= keys.len(),
                signers == signers_view(keys@),
                res.wf(),
                res@ == model::fresh_slots(signers.take(i as int)),
                forall|j: int| 0 <= j < res.pairs().len() ==> (#[trigger] res.pairs()[j]).1.data is None,
            decreases keys.len() - i,
        {
            let ghost before = res.pairs();
            let key = keys[i].1;
            let slot = AccountView { key, data: None };
            assert(signers.take(i + 1).drop_last() =~= signers.take(i as int));
            assert(signers.take(i + 1).last() == (keys[i as int].0@, key));
            match res.find(&keys[i].0) {
                Some(j) => {
                    res.accounts[j].1 = Account { key, data: None };
                    proof {
                        lemma_update(before, j as int, slot);
                        assert(res.pairs() =~= before.update(j as int, (before[j as int].0, slot)));
                    }
                },
                None => {
                    res.accounts.push((keys[i].0.clone(), Account { key, data: None }));
                    proof {
                        lemma_push(before, keys[i as int].0@, slot);
                        assert(res.pairs() =~= before.push((keys[i as int].0@, slot)));
                    }
                },
            }
            i += 1;
        }
        assert(signers.take(i as int) =~= signers);
        res
    }
}

impl View for Epoch {
    type V = Slots;

    closed spec fn view(&self) -> Slots {
        to_map(self.pairs())
    }
}

/// The state while the descriptions are taken in one after the other, after
/// the first `n` of them: the epochs that stay, and those that the first `n`
/// descriptions added.
spec fn activated(state: State, infos: Seq<EpochInfoView>, n: int) -> State {
    Map::new(
        |epoch: EpochId|
            (state.dom().contains(epoch) && model::names(infos, epoch)) || model::names(
                infos.take(n),
                epoch,
            ),
        |epoch: EpochId|
            if state.dom().contains(epoch) {
                state[epoch]
            } else {
                model::fresh_slots(model::description(infos.take(n), epoch).signers)
            },
    )
}

/// The epochs by their ids.
struct EpochMap {
    epochs: Vec<(EpochId, Epoch)>,
}

impl View for EpochMap {
    type V = State;

    closed spec fn view(&self) -> State {
        to_map(self.pairs())
    }
}

impl EpochMap {
    spec fn pairs(&self) -> Seq<(EpochId, Slots)> {
        self.epochs@.map_values(|p: (EpochId, Epoch)| (p.0, p.1@))
    }

    /// No epoch and no account of an epoch occurs twice, and every record
    /// sits in the slot that it names.
    spec fn wf(&self) -> bool {
        &&& distinct(self.pairs())
        &&& forall|i: int|
            0 <= i < self.epochs.len() ==> (#[trigger] self.epochs[i]).1.wf() && self.epochs[i].1.only_for(
                self.epochs[i].0,
            )
    }

    /// The map holds a well-formed state.
    proof fn lemma_well_formed(&self)
        requires
            self.wf(),
        ensures
            model::well_formed(self@),
    {
        assert forall|epoch: EpochId, account: Seq<char>| #[trigger]
            model::tracks(self@, epoch, account) implies match self@[epoch][account].data {
            Some(d) => d.epoch_id == epoch && d.account_id == account,
            None => true,
        } by {
            let i = index_of(self.pairs(), epoch);
            lemma_at(self.pairs(), i);
            let table = self.epochs[i].1;
            let j = index_of(table.pairs(), account);
            lemma_at(table.pairs(), j);
            assert(holds_own(table.pairs()[j]));
            assert(is_for(table.pairs()[j], epoch));
        }
    }

    /// The empty map.
    fn new() -> (res: Self)
        ensures
            res.wf(),
            res@ == Map::<EpochId, Slots>::empty(),
    {
        let res = EpochMap { epochs: Vec::new() };
        assert(res@ =~= Map::<EpochId, Slots>::empty());
        res
    }

    /// The position of the epoch `id`.
    fn find(&self, id: &EpochId) -> (res: Option<usize>)
        ensures
            match res {
                Some(i) => i < self.epochs.len() && self.pairs()[i as int].0 == *id,
                None => !has_key(self.pairs(), *id),
            },
    {
        let mut i: usize = 0;
        while i < self.epochs.len()
            invariant
                i <= self.epochs.len(),
                forall|j: int| 0 <= j < i ==> (#[trigger] self.pairs()[j]).0 != *id,
            decreases self.epochs.len() - i,
        {
            if self.epochs[i].0.same(id) {
                return Some(i);
            }
            i += 1;
        }
        None
    }

    /// Keeps the epochs that `new_epochs` names, drops the others, and adds
    /// those that are named and missing. See [`Epochs::set_epochs`].
    fn set_epochs(&mut self, new_epochs: &Vec<&EpochInfo>) -> (has_new: bool)
        requires
            old(self).wf(),
        ensures
            final(self).wf(),
            final(self)@ == model::set_epochs(old(self)@, infos_view(new_epochs@)),
            has_new == model::adds_epoch(old(self)@, infos_view(new_epochs@)),
    {
        let ghost state = self@;
        let ghost infos = infos_view(new_epochs@);
        let ghost named = Set::new(|epoch: EpochId| model::names(infos, epoch));
        let ghost before = self.pairs();

        let mut previous: Vec<(EpochId, Epoch)> = Vec::new();
        core::mem::swap(&mut previous, &mut self.epochs);
        let ghost entries = previous@;
        assert(self@ =~= to_map(before.take(0)).restrict(named));
        for entry in it: previous
            invariant
                infos == infos_view(new_epochs@),
                named == Set::new(|epoch: EpochId| model::names(infos, epoch)),
                it.seq() == entries,
                before == entries.map_values(|p: (EpochId, Epoch)| (p.0, p.1@)),
                distinct(before),
                forall|i: int|
                    0 <= i < entries.len() ==> (#[trigger] entries[i]).1.wf() && entries[i].1.only_for(
                        entries[i].0,
                    ),
                self.wf(),
                self@ == to_map(before.take(it.index() as int)).restrict(named),
        {
            let ghost k = it.index() as int;
            let ghost kept = self.pairs();
            proof {
                assert(before.take(k + 1) =~= before.take(k).push(before[k]));
                assert(!has_key(before.take(k), before[k].0)) by {
                    if has_key(before.take(k), before[k].0) {
                        let x = index_of(before.take(k), before[k].0);
                        assert(before[x].0 == before[k].0);
                    }
                }
                assert(distinct(before.take(k))) by {
                    assert forall|a: int, b: int|
                        0 <= a < k && 0 <= b < k && (#[trigger] before.take(k)[a]).0 == (
                        #[trigger] before.take(k)[b]).0 implies a == b by {
                        assert(before[a].0 == before[b].0);
                    }
                }
                lemma_push(before.take(k), before[k].0, before[k].1);
            }
            if Self::names(new_epochs, &entry.0) {
                proof {
                    assert(!has_key(kept, entry.0)) by {
                        if has_key(kept, entry.0) {
                            assert(self@.dom().contains(entry.0));
                        }
                    }
                    lemma_push(kept, entry.0, entry.1@);
                }
                self.epochs.push(entry);
                assert(self.pairs() =~= kept.push((entry.0, entry.1@)));
                assert(self@ =~= to_map(before.take(k + 1)).restrict(named));
            } else {
                assert(self@ =~= to_map(before.take(k + 1)).restrict(named));
            }
        }
        assert(before.take(entries.len() as int) =~= before);
        assert(self@ =~= activated(state, infos, 0)) by {
            assert(infos.take(0) =~= Seq::<EpochInfoView>::empty());
        }

        let mut has_new = false;
        let mut i: usize = 0;
        while i < new_epochs.len()
            invariant
                i <= new_epochs.len(),
                infos == infos_view(new_epochs@),
                self.wf(),
                self@ == activated(state, infos, i as int),
                has_new == model::adds_epoch(state, infos.take(i as int)),
            decreases new_epochs.len() - i,
        {
            let e = new_epochs[i];
            let ghost kept = self.pairs();
            let ghost head = infos.take(i as int);
            let ghost next = infos.take(i + 1);
            proof {
                assert(next.drop_last() =~= head);
                assert(next.last() == e@);
                assert(infos[i as int] == e@);
                assert forall|epoch: EpochId| model::names(next, epoch) == (model::names(head, epoch)
                    || epoch == e.id) by {
                    if model::names(next, epoch) {
                        let x = choose|x: int| 0 <= x < next.len() && (#[trigger] next[x]).id == epoch;
                        if x < i {
                            assert(head[x].id == epoch);
                        }
                    }
                    if model::names(head, epoch) {
                        let x = choose|x: int| 0 <= x < head.len() && (#[trigger] head[x]).id == epoch;
                        assert(next[x].id == epoch);
                    }
                    if epoch == e.id {
                        assert(next[i as int].id == epoch);
                    }
                }
                assert forall|epoch: EpochId| model::names(head, epoch) implies model::description(
                    next,
                    epoch,
                ) == model::description(head, epoch) by {
                    model::lemma_description_prefix(infos, i as int, epoch);
                    assert(model::names(next, epoch));
                    model::lemma_description_prefix(infos, i + 1, epoch);
                }
                assert(model::adds_epoch(state, next) == (model::adds_epoch(state, head)
                    || !state.dom().contains(e.id))) by {
                    if model::adds_epoch(state, next) {
                        let x = choose|x: int|
                            0 <= x < next.len() && !state.dom().contains((#[trigger] next[x]).id);
                        if x < i {
                            assert(!state.dom().contains(head[x].id));
                        }
                    }
                    if model::adds_epoch(state, head) {
                        let x = choose|x: int|
                            0 <= x < head.len() && !state.dom().contains((#[trigger] head[x]).id);
                        assert(!state.dom().contains(next[x].id));
                    }
                    if !state.dom().contains(e.id) {
                        assert(!state.dom().contains(next[i as int].id));
                    }
                }
            }
            match self.find(&e.id) {
                Some(_) => {
                    proof {
                        assert(self@.dom().contains(e.id));
                        if !state.dom().contains(e.id) {
                            assert(model::names(head, e.id));
                            let x = choose|x: int| 0 <= x < head.len() && (#[trigger] head[x]).id == e.id;
                            assert(!state.dom().contains(head[x].id));
                        }
                        assert(self@ =~= activated(state, infos, i + 1));
                    }
                },
                None => {
                    let table = Epoch::new(&e.priority_accounts);
                    proof {
                        assert(!self@.dom().contains(e.id));
                        assert(model::names(infos, e.id));
                        assert(model::first_naming(next, e.id, i as int)) by {
                            assert forall|j: int| 0 <= j < i implies (#[trigger] next[j]).id != e.id by {
                                assert(head[j] == next[j]);
                            }
                        }
                        model::lemma_first_naming(next, e.id);
                        let y = choose|y: int| model::first_naming(next, e.id, y);
                        assert(y == i) by {
                            if y < i {
                                assert(next[y].id == e.id);
                            }
                        }
                        lemma_push(kept, e.id, table@);
                    }
                    self.epochs.push((e.id, table));
                    proof {
                        assert(self.pairs() =~= kept.push((e.id, table@)));
                        assert(self@ =~= activated(state, infos, i + 1));
                    }
                    has_new = true;
                },
            }
            i += 1;
        }
        proof {
            assert(infos.take(i as int) =~= infos);
            assert(self@ =~= model::set_epochs(state, infos));
        }
        has_new
    }

    /// Whether one of `infos` describes the epoch `id`.
    fn names(infos: &Vec<&EpochInfo>, id: &EpochId) -> (b: bool)
        ensures
            b == model::names(infos_view(infos@), *id),
    {
        let mut i: usize = 0;
        while i < infos.len()
            invariant
                i <= infos.len(),
                forall|j: int| 0 <= j < i ==> (#[trigger] infos_view(infos@)[j]).id != *id,
            decreases infos.len() - i,
        {
            if infos[i].id.same(id) {
                assert(infos_view(infos@)[i as int].id == *id);
                return true;
            }
            i += 1;
        }
        false
    }

    /// See [`Epochs::with_key`].
    fn with_key(&self, d: SignedAccountData) -> (res: Option<(SignedAccountData, PublicKey)>)
        requires
            self.wf(),
        ensures
            match res {
                Some((out, key)) => model::is_fresh(self@, d@) && out == d && key == model::key_for(
                    self@,
                    d@,
                ),
                None => !model::is_fresh(self@, d@),
            },
    {
        let i = match self.find(&d.epoch_id) {
            Some(i) => i,
            None => { return None; },
        };
        let j = match self.epochs[i].1.find(&d.account_id) {
            Some(j) => j,
            None => {
                proof {
                    lemma_at(self.pairs(), i as int);
                }
                return None;
            },
        };
        proof {
            lemma_at(self.pairs(), i as int);
            lemma_at(self.epochs[i as int].1.pairs(), j as int);
        }
        let a = &self.epochs[i].1.accounts[j].1;
        if !a.is_new(d.timestamp) {
            return None;
        }
        let key = a.key;
        Some((d, key))
    }

    /// See [`Epochs::try_insert`].
    fn try_insert(&mut self, d: SignedAccountData) -> (res: Option<SignedAccountData>)
        requires
            old(self).wf(),
        ensures
            final(self).wf(),
            final(self)@ == model::try_insert(old(self)@, d@),
            match res {
                Some(out) => model::is_fresh(old(self)@, d@) && out == d,
                None => !model::is_fresh(old(self)@, d@),
            },
    {
        let i = match self.find(&d.epoch_id) {
            Some(i) => i,
            None => { return None; },
        };
        let j = match self.epochs[i].1.find(&d.account_id) {
            Some(j) => j,
            None => {
                proof {
                    lemma_at(self.pairs(), i as int);
                }
                return None;
            },
        };
        let ghost outer = self.pairs();
        let ghost inner = self.epochs[i as int].1.pairs();
        proof {
            lemma_at(outer, i as int);
            lemma_at(inner, j as int);
        }
        if !self.epochs[i].1.accounts[j].1.is_new(d.timestamp) {
            return None;
        }
        let ghost slot = AccountView { key: inner[j as int].1.key, data: Some(d@) };
        self.epochs[i].1.accounts[j].1.data = Some(d.clone());
        proof {
            let table = self.epochs[i as int].1;
            assert(table.pairs() =~= inner.update(j as int, (inner[j as int].0, slot)));
            lemma_update(inner, j as int, slot);
            assert(self.pairs() =~= outer.update(i as int, (outer[i as int].0, table@)));
            lemma_update(outer, i as int, table@);
            assert(self@ =~= model::store(old(self)@, d@));
            assert forall|k: int| 0 <= k < self.epochs.len() implies (#[trigger] self.epochs[k]).1.wf()
                && self.epochs[k].1.only_for(self.epochs[k].0) by {
                if k != i {
                    assert(self.epochs[k] == old(self).epochs[k]);
                } else {
                    assert forall|x: int| 0 <= x < table.pairs().len() implies holds_own(
                        #[trigger] table.pairs()[x],
                    ) && is_for(table.pairs()[x], self.epochs[k].0) by {
                        if x != j {
                            assert(table.pairs()[x] == inner[x]);
                            assert(holds_own(old(self).epochs[i as int].1.pairs()[x]));
                            let before = old(self).epochs[i as int];
                            assert(is_for(before.1.pairs()[x], before.0));
                        }
                    }
                }
            }
        }
        Some(d)
    }

    /// See [`Epochs::select`].
    fn select(&self, data: Vec<SignedAccountData>) -> (out: Vec<(SignedAccountData, PublicKey)>)
        requires
            self.wf(),
        ensures
            keyed_views(out@) == model::select(self@, views(data@)),
    {
        let ghost batch = views(data@);
        let mut out: Vec<(SignedAccountData, PublicKey)> = Vec::new();
        proof {
            model::lemma_select_empty(self@);
            assert(batch.take(0) =~= Seq::<SignedAccountDataView>::empty());
            assert(keyed_views(out@) =~= Seq::<(SignedAccountDataView, PublicKey)>::empty());
        }
        for d in it: data
            invariant
                it.seq() == data@,
                batch == views(data@),
                self.wf(),
                keyed_views(out@) == model::select(self@, batch.take(it.index() as int)),
        {
            let ghost k = it.index() as int;
            let ghost chosen = keyed_views(out@);
            proof {
                assert(batch.take(k + 1) =~= batch.take(k).push(d@));
                model::lemma_select_push(self@, batch.take(k), d@);
            }
            match self.with_key(d) {
                Some(item) => {
                    out.push(item);
                    assert(keyed_views(out@) =~= chosen.push((d@, item.1)));
                },
                None => {},
            }
        }
        assert(batch.take(batch.len() as int) =~= batch);
        out
    }

    /// See [`Epochs::commit`].
    fn commit(&mut self, data: Vec<SignedAccountData>) -> (out: Vec<SignedAccountData>)
        requires
            old(self).wf(),
        ensures
            final(self).wf(),
            final(self)@ == model::commit(old(self)@, views(data@)),
            views(out@) == model::committed(old(self)@, views(data@)),
    {
        let ghost state = self@;
        let ghost batch = views(data@);
        let mut out: Vec<SignedAccountData> = Vec::new();
        proof {
            assert(batch.take(0) =~= Seq::<SignedAccountDataView>::empty());
            assert(views(out@) =~= Seq::<SignedAccountDataView>::empty());
        }
        for d in it: data
            invariant
                it.seq() == data@,
                batch == views(data@),
                self.wf(),
                self@ == model::commit(state, batch.take(it.index() as int)),
                views(out@) == model::committed(state, batch.take(it.index() as int)),
        {
            let ghost k = it.index() as int;
            let ghost stored = views(out@);
            proof {
                assert(batch.take(k + 1) =~= batch.take(k).push(d@));
                model::lemma_commit_push(state, batch.take(k), d@);
            }
            match self.try_insert(d) {
                Some(kept) => {
                    out.push(kept);
                    assert(views(out@) =~= stored.push(d@));
                },
                None => {},
            }
        }
        assert(batch.take(batch.len() as int) =~= batch);
        out
    }

    /// Whether `d` came from one of the slots that [`EpochMap::dump`] has
    /// visited when it stands at slot `j` of epoch `i`.
    spec fn visited(&self, d: SignedAccountDataView, i: int, j: int) -> bool {
        ||| has_key(self.pairs().take(i), d.epoch_id)
        ||| (0 <= i < self.epochs.len() && d.epoch_id == self.epochs[i].0 && has_key(
            self.epochs[i].1.pairs().take(j),
            d.account_id,
        ))
    }

    /// Whether the record in slot `b` of epoch `a`, if there is one, is in `out`.
    spec fn covered(&self, out: Seq<SignedAccountDataView>, a: int, b: int) -> bool {
        match self.epochs[a].1.pairs()[b].1.data {
            Some(d) => out.contains(d),
            None => true,
        }
    }

    /// Visits the slots epoch by epoch and copies what they hold.
    fn dump(&self) -> (out: Vec<SignedAccountData>)
        requires
            self.wf(),
        ensures
            model::lists_records(self@, views(out@)),
    {
        let mut out: Vec<SignedAccountData> = Vec::new();
        let mut i: usize = 0;
        while i < self.epochs.len()
            invariant
                i <= self.epochs.len(),
                self.wf(),
                forall|x: int| 0 <= x < out.len() ==> model::stored(self@, #[trigger] views(out@)[x]),
                forall|x: int| 0 <= x < out.len() ==> self.visited(#[trigger] views(out@)[x], i as int, 0),
                forall|x: int, y: int|
                    0 <= x < y < out.len() ==> #[trigger] views(out@)[x] != #[trigger] views(out@)[y],
                forall|a: int, b: int|
                    0 <= a < i && 0 <= b < self.epochs[a].1.pairs().len() ==> #[trigger] self.covered(
                        views(out@),
                        a,
                        b,
                    ),
            decreases self.epochs.len() - i,
        {
            let table = &self.epochs[i].1;
            let mut j: usize = 0;
            while j < table.accounts.len()
                invariant
                    i < self.epochs.len(),
                    j <= table.accounts.len(),
                    *table == self.epochs[i as int].1,
                    self.wf(),
                    forall|x: int| 0 <= x < out.len() ==> model::stored(self@, #[trigger] views(out@)[x]),
                    forall|x: int|
                        0 <= x < out.len() ==> self.visited(#[trigger] views(out@)[x], i as int, j as int),
                    forall|x: int, y: int|
                        0 <= x < y < out.len() ==> #[trigger] views(out@)[x] != #[trigger] views(
                            out@,
                        )[y],
                    forall|a: int, b: int|
                        0 <= a < i && 0 <= b < self.epochs[a].1.pairs().len() ==> #[trigger] self.covered(
                            views(out@),
                            a,
                            b,
                        ),
                    forall|b: int| 0 <= b < j ==> #[trigger] self.covered(views(out@), i as int, b),
                decreases table.accounts.len() - j,
            {
                let ghost listed = views(out@);
                proof {
                    lemma_at(self.pairs(), i as int);
                    lemma_at(table.pairs(), j as int);
                    assert(holds_own(table.pairs()[j as int]));
                    assert(is_for(table.pairs()[j as int], self.epochs[i as int].0));
                    assert forall|d: SignedAccountDataView|
                        self.visited(d, i as int, j as int) implies self.visited(
                        d,
                        i as int,
                        j + 1,
                    ) && !(d.epoch_id == self.epochs[i as int].0 && d.account_id
                        == table.pairs()[j as int].0) by {
                        self.lemma_visited_step(d, i as int, j as int);
                    }
                }
                match &table.accounts[j].1.data {
                    Some(d) => {
                        out.push(d.clone());
                        proof {
                            assert(views(out@) =~= listed.push(d@));
                            assert(table.pairs()[j as int].1.data == Some(d@));
                            assert(model::stored(self@, d@));
                            assert(self.visited(d@, i as int, j + 1)) by {
                                assert(table.pairs().take(j + 1)[j as int].0 == d@.account_id);
                            }
                            assert forall|a: int, b: int|
                                0 <= a < i && 0 <= b < self.epochs[a].1.pairs().len()
                                implies #[trigger] self.covered(views(out@), a, b) by {
                                assert(self.covered(listed, a, b));
                                lemma_push_contains(listed, d@);
                            }
                            assert forall|b: int| 0 <= b < j + 1 implies #[trigger] self.covered(
                                views(out@),
                                i as int,
                                b,
                            ) by {
                                lemma_push_contains(listed, d@);
                                if b < j {
                                    assert(self.covered(listed, i as int, b));
                                }
                            }
                        }
                    },
                    None => {},
                }
                j += 1;
            }
            proof {
                assert forall|x: int| 0 <= x < out.len() implies self.visited(
                    #[trigger] views(out@)[x],
                    i + 1,
                    0,
                ) by {
                    let d = views(out@)[x];
                    assert(self.visited(d, i as int, j as int));
                    self.lemma_visited_next(d, i as int);
                }
            }
            i += 1;
        }
        proof {
            self.lemma_well_formed();
            assert forall|d: SignedAccountDataView| #[trigger]
                model::stored(self@, d) implies views(out@).contains(d) by {
                let a = index_of(self.pairs(), d.epoch_id);
                lemma_at(self.pairs(), a);
                let b = index_of(self.epochs[a].1.pairs(), d.account_id);
                lemma_at(self.epochs[a].1.pairs(), b);
                assert(self.covered(views(out@), a, b));
            }
        }
        out
    }

    /// A record from a slot visited before slot `j` of epoch `i` is not for
    /// that slot, and counts as visited from the next slot on.
    proof fn lemma_visited_step(&self, d: SignedAccountDataView, i: int, j: int)
        requires
            self.wf(),
            0 <= i < self.epochs.len(),
            0 <= j < self.epochs[i].1.pairs().len(),
            self.visited(d, i, j),
        ensures
            self.visited(d, i, j + 1),
            !(d.epoch_id == self.epochs[i].0 && d.account_id == self.epochs[i].1.pairs()[j].0),
    {
        let outer = self.pairs();
        let inner = self.epochs[i].1.pairs();
        if has_key(outer.take(i), d.epoch_id) {
            let a = index_of(outer.take(i), d.epoch_id);
            assert(outer[a].0 == d.epoch_id);
            assert(outer[i].0 == self.epochs[i].0);
        } else {
            let b = index_of(inner.take(j), d.account_id);
            assert(inner[b].0 == d.account_id);
            assert(inner.take(j + 1)[b].0 == d.account_id);
        }
    }

    /// A record from a slot of the first `i` epochs, or of epoch `i`, is from
    /// one of the first `i + 1` epochs.
    proof fn lemma_visited_next(&self, d: SignedAccountDataView, i: int)
        requires
            0 <= i < self.epochs.len(),
            self.visited(d, i, self.epochs[i].1.pairs().len() as int),
        ensures
            self.visited(d, i + 1, 0),
    {
        let outer = self.pairs();
        if has_key(outer.take(i), d.epoch_id) {
            let a = index_of(outer.take(i), d.epoch_id);
            assert(outer.take(i + 1)[a].0 == d.epoch_id);
        } else {
            assert(outer.take(i + 1)[i].0 == d.epoch_id);
        }
    }
}

/// What a sequence contains it still contains after a push, and the pushed
/// value too.
proof fn lemma_push_contains<A>(s: Seq<A>, x: A)
    ensures
        s.push(x).contains(x),
        forall|y: A| s.contains(y) ==> #[trigger] s.push(x).contains(y),
{
    assert(s.push(x)[s.len() as int] == x);
    assert forall|y: A| s.contains(y) implies #[trigger] s.push(x).contains(y) by {
        let i = choose|i: int| 0 <= i < s.len() && s[i] == y;
        assert(s.push(x)[i] == y);
    }
}

/// The active epochs with their slots.
///
/// Every value of this type is well-formed: no epoch and no account of an
/// epoch occurs twice, and every record sits in the slot of the epoch and
/// account that it names. The functions that change the map take it out,
/// change it and put it back before they return.
pub struct Epochs {
    map: EpochMap,
}

impl View for Epochs {
    type V = State;

    closed spec fn view(&self) -> State {
        self.map@
    }
}

impl Epochs {
    #[verifier::type_invariant]
    spec fn inv(self) -> bool {
        self.map.wf()
    }

    /// No epoch is active.
    pub fn new() -> (res: Self)
        ensures
            res@ == Map::<EpochId, Slots>::empty(),
            model::well_formed(res@),
    {
        let map = EpochMap::new();
        proof {
            map.lemma_well_formed();
        }
        Epochs { map }
    }

    /// Makes the epochs that `new_epochs` describes the active ones, and says
    /// whether one of them was not active before.
    ///
    /// An epoch that is no longer named is dropped with everything it holds.
    /// An epoch that was active already is left untouched: which accounts
    /// sign for an epoch follows from its id, so a description that differs
    /// from the one it was created with is ignored.
    pub fn set_epochs(&mut self, new_epochs: &Vec<&EpochInfo>) -> (has_new: bool)
        ensures
            final(self)@ == model::set_epochs(old(self)@, infos_view(new_epochs@)),
            has_new == model::adds_epoch(old(self)@, infos_view(new_epochs@)),
            model::well_formed(final(self)@),
    {
        proof {
            use_type_invariant(&*self);
        }
        let mut map = EpochMap::new();
        core::mem::swap(&mut map, &mut self.map);
        let has_new = map.set_epochs(new_epochs);
        proof {
            map.lemma_well_formed();
        }
        self.map = map;
        has_new
    }

    /// Pairs `d` with the key of its slot if `d` is news: its account is
    /// tracked and has no record at least as new. Otherwise `d` is dropped.
    pub fn with_key(&self, d: SignedAccountData) -> (res: Option<(SignedAccountData, PublicKey)>)
        ensures
            match res {
                Some((out, key)) => model::is_fresh(self@, d@) && out == d && key == model::key_for(
                    self@,
                    d@,
                ),
                None => !model::is_fresh(self@, d@),
            },
    {
        proof {
            use_type_invariant(self);
        }
        self.map.with_key(d)
    }

    /// Stores `d` in its slot if `d` is news, and hands it back; otherwise
    /// leaves the tables as they are and returns nothing.
    pub fn try_insert(&mut self, d: SignedAccountData) -> (res: Option<SignedAccountData>)
        ensures
            final(self)@ == model::try_insert(old(self)@, d@),
            match res {
                Some(out) => model::is_fresh(old(self)@, d@) && out == d,
                None => !model::is_fresh(old(self)@, d@),
            },
            model::well_formed(final(self)@),
    {
        proof {
            use_type_invariant(&*self);
        }
        let mut map = EpochMap::new();
        core::mem::swap(&mut map, &mut self.map);
        let res = map.try_insert(d);
        proof {
            map.lemma_well_formed();
        }
        self.map = map;
        res
    }

    /// The records of `data` that are news, in their order, each with the key
    /// that its signature has to verify against. Records for an epoch or an
    /// account that is not tracked are dropped without complaint, and so are
    /// records that are not newer than what their slot holds.
    pub fn select(&self, data: Vec<SignedAccountData>) -> (out: Vec<(SignedAccountData, PublicKey)>)
        ensures
            keyed_views(out@) == model::select(self@, views(data@)),
    {
        proof {
            use_type_invariant(self);
        }
        self.map.select(data)
    }

    /// Offers the records of `data` to their slots, one after the other, and
    /// returns those that were stored. Each record is held against what its
    /// slot holds at that moment, not against what was there when the record
    /// was selected: of two records for one slot, whichever way they arrive,
    /// the one with the higher timestamp stays.
    pub fn commit(&mut self, data: Vec<SignedAccountData>) -> (out: Vec<SignedAccountData>)
        ensures
            final(self)@ == model::commit(old(self)@, views(data@)),
            views(out@) == model::committed(old(self)@, views(data@)),
            model::well_formed(final(self)@),
    {
        proof {
            use_type_invariant(&*self);
        }
        let mut map = EpochMap::new();
        core::mem::swap(&mut map, &mut self.map);
        let out = map.commit(data);
        proof {
            map.lemma_well_formed();
        }
        self.map = map;
        out
    }

    /// Copies of all the records that the cache holds.
    pub fn dump(&self) -> (out: Vec<SignedAccountData>)
        ensures
            model::lists_records(self@, views(out@)),
            model::well_formed(self@),
    {
        proof {
            use_type_invariant(self);
            self.map.lemma_well_formed();
        }
        self.map.dump()
    }
}

} // verus!
