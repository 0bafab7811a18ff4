//! The cache, driven the way a peer manager drives it, with real signatures.

use accounts_data::accounts_data::{check_shape, check_signatures, Cache, Epochs, Error};
use accounts_data::crypto::{PublicKey, Signature};
use accounts_data::network_protocol::{SignedAccountData, MAX_ACCOUNT_DATA_SIZE_BYTES};
use accounts_data::types::{AccountId, EpochId, EpochInfo};
use near_crypto::{KeyType, SecretKey};
use std::collections::HashMap;

/// A small deterministic generator: the tests need values that differ, not
/// values that are hard to guess.
struct Rng(u64);

fn make_rng(seed: u64) -> Rng {
    Rng(seed)
}

impl Rng {
    fn next(&mut self) -> u64 {
        self.0 = self.0.wrapping_add(0x9e37_79b9_7f4a_7c15);
        let mut z = self.0;
        z = (z ^ (z >> 30)).wrapping_mul(0xbf58_476d_1ce4_e5b9);
        z = (z ^ (z >> 27)).wrapping_mul(0x94d0_49bb_1331_11eb);
        z ^ (z >> 31)
    }
}

fn make_account_id(rng: &mut Rng) -> AccountId {
    AccountId::new(&format!("account{}.near", rng.next() % 1_000_000))
}

fn make_epoch_id(rng: &mut Rng) -> EpochId {
    let mut hash = [0u8; 32];
    for chunk in hash.chunks_mut(8) {
        chunk.copy_from_slice(&rng.next().to_le_bytes());
    }
    EpochId(hash)
}

fn make_secret_key(rng: &mut Rng) -> SecretKey {
    SecretKey::from_seed(KeyType::ED25519, &format!("seed{}", rng.next()))
}

fn public_key(secret_key: &SecretKey) -> PublicKey {
    match secret_key.public_key() {
        near_crypto::PublicKey::ED25519(key) => PublicKey::ED25519(key.0),
        near_crypto::PublicKey::SECP256K1(key) => {
            let mut bytes = [0u8; 64];
            bytes.copy_from_slice(key.as_ref());
            PublicKey::SECP256K1(bytes)
        }
    }
}

fn sign(secret_key: &SecretKey, payload: &[u8]) -> Signature {
    match secret_key.sign(payload) {
        near_crypto::Signature::ED25519(signature) => Signature::ED25519(signature.to_bytes()),
        near_crypto::Signature::SECP256K1(signature) => Signature::SECP256K1(signature.into()),
    }
}

/// What the signer commits to: the account, the epoch, the timestamp and the
/// addresses of a few peers.
fn encode(rng: &mut Rng, epoch_id: &EpochId, account_id: &AccountId, timestamp: i128) -> Vec<u8> {
    let mut payload = Vec::new();
    for _ in 0..3 {
        payload.extend_from_slice(&rng.next().to_le_bytes());
        payload.extend_from_slice(&rng.next().to_le_bytes());
    }
    payload.extend_from_slice(account_id.0.as_bytes());
    payload.extend_from_slice(&epoch_id.0);
    payload.extend_from_slice(&timestamp.to_le_bytes());
    payload
}

struct Signers {
    keys: HashMap<(EpochId, AccountId), SecretKey>,
}

impl Signers {
    fn new() -> Self {
        Signers { keys: HashMap::new() }
    }

    fn key(&mut self, rng: &mut Rng, epoch_id: &EpochId, account_id: &AccountId) -> &SecretKey {
        self.keys
            .entry((*epoch_id, account_id.clone()))
            .or_insert_with(|| make_secret_key(rng))
    }

    fn make_epoch(&mut self, rng: &mut Rng, account_ids: &[&AccountId]) -> EpochInfo {
        let epoch_id = make_epoch_id(rng);
        EpochInfo {
            id: epoch_id,
            priority_accounts: account_ids
                .iter()
                .map(|aid| ((*aid).clone(), public_key(self.key(rng, &epoch_id, aid))))
                .collect(),
        }
    }

    fn make_account_data(
        &mut self,
        rng: &mut Rng,
        epoch_id: &EpochId,
        account_id: &AccountId,
        timestamp: i128,
    ) -> SignedAccountData {
        let payload = encode(rng, epoch_id, account_id, timestamp);
        let signature = sign(self.key(rng, epoch_id, account_id), &payload);
        SignedAccountData {
            account_id: account_id.clone(),
            epoch_id: *epoch_id,
            timestamp,
            payload,
            signature,
        }
    }
}

const SECOND: i128 = 1_000_000_000;

/// The start of the fake clock: an arbitrary timestamp.
const NOW: i128 = 89108233 * SECOND;

fn none() -> Option<Error> {
    None
}

fn nothing() -> Vec<SignedAccountData> {
    Vec::new()
}

#[test]
fn test_accounts_data() {
    let mut rng = make_rng(2947294234);
    let rng = &mut rng;
    let now = NOW;

    let accounts: Vec<_> = (0..4).map(|_| make_account_id(rng)).collect();
    let mut signers = Signers::new();
    let e0 = signers.make_epoch(rng, &[&accounts[0], &accounts[1], &accounts[2]]);
    let e1 = signers.make_epoch(rng, &[&accounts[0], &accounts[3]]);
    let e2 = signers.make_epoch(rng, &[&accounts[1], &accounts[2]]);

    let mut ad = Cache::new();
    assert_eq!(ad.dump(), vec![]); // initially empty
    ad.set_epochs(vec![&e0, &e1]);
    assert_eq!(ad.dump(), vec![]); // empty after initial set_epoch.

    // initial insert
    let e0a0 = signers.make_account_data(rng, &e0.id, &accounts[0], now);
    let e0a1 = signers.make_account_data(rng, &e0.id, &accounts[1], now);
    let res = ad.insert(vec![e0a0.clone(), e0a1.clone()]);
    assert_eq!((vec![e0a0.clone(), e0a1.clone()], None), res);
    assert_eq!(vec![e0a0.clone(), e0a1.clone()], ad.dump());

    // entries of various types
    let e1a0 = signers.make_account_data(rng, &e1.id, &accounts[0], now);
    let e0a0new = signers.make_account_data(rng, &e0.id, &accounts[0], now + SECOND);
    let e0a1old = signers.make_account_data(rng, &e0.id, &accounts[0], now - SECOND);
    let e2a1 = signers.make_account_data(rng, &e2.id, &accounts[1], now);
    let e1a1 = signers.make_account_data(rng, &e1.id, &accounts[2], now);
    // Two entries for one account of one epoch make the whole batch malformed.
    let res = ad.insert(vec![
        e1a0.clone(),
        e0a0new.clone(),
        e0a1old.clone(),
        e2a1.clone(),
        e1a1.clone(),
    ]);
    assert_eq!((nothing(), Some(Error::SingleAccountMultipleData)), res);
    assert_eq!(vec![e0a0.clone(), e0a1.clone()], ad.dump());
    let res = ad.insert(vec![
        e1a0.clone(),    // initial value => insert
        e0a0new.clone(), // with newer timestamp => insert,
        e2a1.clone(),    // from inactive epoch => filter,
        e1a1.clone(),    // account not in the given active epoch => filter,
    ]);
    assert_eq!((vec![e1a0.clone(), e0a0new.clone()], None), res);
    let res = ad.insert(vec![
        e0a1old.clone(), // with older timestamp => filter,
    ]);
    assert_eq!((nothing(), None), res);
    assert_eq!(vec![e0a0new.clone(), e0a1.clone(), e1a0.clone()], ad.dump());

    // set_epoch again. Entries from inactive epochs should be dropped.
    ad.set_epochs(vec![&e0, &e2]);
    assert_eq!(vec![e0a0new.clone(), e0a1.clone()], ad.dump());
    // insert some entries again.
    let e0a2 = signers.make_account_data(rng, &e0.id, &accounts[2], now);
    let e1a3 = signers.make_account_data(rng, &e1.id, &accounts[3], now);
    let res = ad.insert(vec![
        e0a2.clone(), // e0 is still active => insert,
        e1a3.clone(), // e1 is not active any more => filter,
        e2a1.clone(), // e2 has become active => insert,
    ]);
    assert_eq!((vec![e0a2.clone(), e2a1.clone()], None), res);
    assert_eq!(
        vec![e0a0new.clone(), e0a1.clone(), e0a2.clone(), e2a1.clone()],
        ad.dump()
    );
}

/// Four accounts, and two epochs over them: e0 with a0, a1, a2, and e1 with
/// a0, a3.
struct World {
    rng: Rng,
    signers: Signers,
    accounts: Vec<AccountId>,
    e0: EpochInfo,
    e1: EpochInfo,
}

fn world() -> World {
    let mut rng = make_rng(7);
    let accounts: Vec<_> = (0..4).map(|i| AccountId::new(&format!("a{}", i))).collect();
    let mut signers = Signers::new();
    let e0 = signers.make_epoch(&mut rng, &[&accounts[0], &accounts[1], &accounts[2]]);
    let e1 = signers.make_epoch(&mut rng, &[&accounts[0], &accounts[3]]);
    World { rng, signers, accounts, e0, e1 }
}

impl World {
    fn data(&mut self, epoch: &EpochId, account: usize, timestamp: i128) -> SignedAccountData {
        let account_id = self.accounts[account].clone();
        self.signers.make_account_data(&mut self.rng, epoch, &account_id, timestamp)
    }
}

fn sorted(mut records: Vec<SignedAccountData>) -> Vec<SignedAccountData> {
    records.sort_by(|x, y| (x.epoch_id.0, &x.account_id.0).cmp(&(y.epoch_id.0, &y.account_id.0)));
    records
}

#[test]
fn concrete_scenario() {
    let mut w = world();
    let (e0, e1) = (w.e0.id, w.e1.id);
    let mut cache = Cache::new();
    assert!(cache.set_epochs(vec![&w.e0, &w.e1]));
    assert_eq!(cache.dump(), vec![]);

    let e0a0 = w.data(&e0, 0, 5);
    let e0a1 = w.data(&e0, 1, 5);
    let res = cache.insert(vec![e0a0.clone(), e0a1.clone()]);
    assert_eq!(res, (vec![e0a0.clone(), e0a1.clone()], None));
    assert_eq!(sorted(cache.dump()), sorted(vec![e0a0.clone(), e0a1.clone()]));

    let e1a0 = w.data(&e1, 0, 5);
    let e0a0_6 = w.data(&e0, 0, 6);
    let e0a0_4 = w.data(&e0, 0, 4);
    // The newer and the older record for (e0, a0) cannot travel in one batch.
    let res = cache.insert(vec![e1a0.clone(), e0a0_6.clone(), e0a0_4.clone()]);
    assert_eq!(res, (nothing(), Some(Error::SingleAccountMultipleData)));
    assert_eq!(cache.dump().len(), 2);
    // One after the other, the newer is admitted and the older is dropped.
    let res = cache.insert(vec![e1a0.clone(), e0a0_6.clone()]);
    assert_eq!(res, (vec![e1a0.clone(), e0a0_6.clone()], None));
    let res = cache.insert(vec![e0a0_4.clone()]);
    assert_eq!(res, (nothing(), None));
    let dump = cache.dump();
    assert_eq!(dump.len(), 3);
    assert_eq!(sorted(dump), sorted(vec![e0a0_6, e0a1, e1a0]));
}

#[test]
fn partial_credit_under_invalid_signature() {
    let mut w = world();
    let e0 = w.e0.id;
    let mut cache = Cache::new();
    cache.set_epochs(vec![&w.e0]);

    let a0 = w.data(&e0, 0, 10);
    let a1 = w.data(&e0, 1, 10);
    let mut a2 = w.data(&e0, 2, 10);
    a2.payload[0] ^= 1;
    let a3 = w.data(&e0, 3, 10);
    let res = cache.insert(vec![a0.clone(), a1.clone(), a2.clone(), a3.clone()]);
    assert_eq!(res, (vec![a0.clone(), a1.clone()], Some(Error::InvalidSignature)));
    assert_eq!(sorted(cache.dump()), sorted(vec![a0, a1]));
}

#[test]
fn records_after_an_invalid_signature_are_not_admitted() {
    let mut w = world();
    let e0 = w.e0.id;
    let mut cache = Cache::new();
    cache.set_epochs(vec![&w.e0]);

    let a0 = w.data(&e0, 0, 10);
    let mut a1 = w.data(&e0, 1, 10);
    a1.timestamp += 1;
    a1.payload.push(0);
    let a2 = w.data(&e0, 2, 10);
    let res = cache.insert(vec![a0.clone(), a1, a2.clone()]);
    assert_eq!(res, (vec![a0.clone()], Some(Error::InvalidSignature)));
    assert_eq!(cache.dump(), vec![a0.clone()]);
    // The valid record that came after it is still news.
    let res = cache.insert(vec![a0.clone(), a2.clone()]);
    assert_eq!(res, (vec![a2.clone()], None));
    assert_eq!(cache.dump(), vec![a0, a2]);
}

#[test]
fn invalid_signature_of_an_untracked_account_is_never_looked_at() {
    let mut w = world();
    let e1 = w.e1.id;
    let mut cache = Cache::new();
    cache.set_epochs(vec![&w.e1]);

    let a0 = w.data(&e1, 0, 10);
    let mut a2 = w.data(&e1, 2, 10);
    a2.payload[0] ^= 1;
    let res = cache.insert(vec![a2, a0.clone()]);
    assert_eq!(res, (vec![a0], None));
}

#[test]
fn duplicate_slot_rejects_the_whole_batch() {
    let mut w = world();
    let e0 = w.e0.id;
    let mut cache = Cache::new();
    cache.set_epochs(vec![&w.e0]);

    let first = w.data(&e0, 0, 10);
    let second = w.data(&e0, 0, 11);
    let other = w.data(&e0, 1, 10);
    let res = cache.insert(vec![other, first, second]);
    assert_eq!(res, (nothing(), Some(Error::SingleAccountMultipleData)));
    assert_eq!(cache.dump(), vec![]);
}

#[test]
fn duplicate_slot_is_rejected_for_untracked_accounts_too() {
    let mut w = world();
    let e1 = w.e1.id;
    let mut cache = Cache::new();
    cache.set_epochs(vec![&w.e0, &w.e1]);

    let good = w.data(&e1, 0, 10);
    let res = cache.insert(vec![good, w.data(&e1, 1, 10), w.data(&e1, 1, 11)]);
    assert_eq!(res, (nothing(), Some(Error::SingleAccountMultipleData)));
}

#[test]
fn same_account_in_two_epochs_is_no_duplicate() {
    let mut w = world();
    let (e0, e1) = (w.e0.id, w.e1.id);
    let mut cache = Cache::new();
    cache.set_epochs(vec![&w.e0, &w.e1]);

    let x = w.data(&e0, 0, 10);
    let y = w.data(&e1, 0, 10);
    let res = cache.insert(vec![x.clone(), y.clone()]);
    assert_eq!(res, (vec![x, y], None));
}

fn oversized(w: &mut World, epoch: &EpochId, account: usize, size: usize) -> SignedAccountData {
    let payload = vec![7u8; size];
    let account_id = w.accounts[account].clone();
    let signature = sign(w.signers.key(&mut w.rng, epoch, &account_id), &payload);
    SignedAccountData { account_id, epoch_id: *epoch, timestamp: 10, payload, signature }
}

#[test]
fn oversized_payload_rejects_the_whole_batch() {
    let mut w = world();
    let e0 = w.e0.id;
    let mut cache = Cache::new();
    cache.set_epochs(vec![&w.e0]);

    let small = w.data(&e0, 0, 10);
    let large = oversized(&mut w, &e0, 1, MAX_ACCOUNT_DATA_SIZE_BYTES + 1);
    let res = cache.insert(vec![small, large]);
    assert_eq!(res, (nothing(), Some(Error::DataTooLarge)));
    assert_eq!(cache.dump(), vec![]);
}

#[test]
fn payload_at_the_limit_is_accepted() {
    let mut w = world();
    let e0 = w.e0.id;
    let mut cache = Cache::new();
    cache.set_epochs(vec![&w.e0]);

    assert_eq!(MAX_ACCOUNT_DATA_SIZE_BYTES, 10000);
    let full = oversized(&mut w, &e0, 1, MAX_ACCOUNT_DATA_SIZE_BYTES);
    let res = cache.insert(vec![full.clone()]);
    assert_eq!(res, (vec![full], None));
}

#[test]
fn first_offending_record_decides_the_error() {
    let mut w = world();
    let e0 = w.e0.id;
    let a = w.data(&e0, 0, 10);
    let a_again = w.data(&e0, 0, 11);
    let large = oversized(&mut w, &e0, 1, MAX_ACCOUNT_DATA_SIZE_BYTES + 1);
    let large_again = oversized(&mut w, &e0, 0, MAX_ACCOUNT_DATA_SIZE_BYTES + 1);

    assert_eq!(check_shape(&vec![]), None);
    assert_eq!(check_shape(&vec![a.clone()]), None);
    assert_eq!(
        check_shape(&vec![a.clone(), large.clone(), a_again.clone()]),
        Some(Error::DataTooLarge)
    );
    assert_eq!(
        check_shape(&vec![a.clone(), a_again.clone(), large.clone()]),
        Some(Error::SingleAccountMultipleData)
    );
    // Repeated and oversized at once: the repetition is found first.
    assert_eq!(
        check_shape(&vec![a.clone(), large_again.clone()]),
        Some(Error::SingleAccountMultipleData)
    );
    assert_eq!(check_shape(&vec![large_again, a]), Some(Error::DataTooLarge));
}

#[test]
fn scope_filtering_is_silent() {
    let mut w = world();
    let (e0, e1) = (w.e0.id, w.e1.id);
    let mut rng = make_rng(99);
    let unknown_epoch = make_epoch_id(&mut rng);
    let mut cache = Cache::new();
    cache.set_epochs(vec![&w.e0]);

    let active = w.data(&e0, 0, 10);
    let inactive_epoch = w.data(&e1, 0, 10);
    let unknown = w.data(&unknown_epoch, 0, 10);
    let untracked_account = w.data(&e0, 3, 10);
    let res = cache.insert(vec![
        inactive_epoch,
        active.clone(),
        unknown,
        untracked_account,
    ]);
    assert_eq!(res, (vec![active.clone()], None));
    assert_eq!(cache.dump(), vec![active]);
}

#[test]
fn timestamps_never_go_back() {
    let mut w = world();
    let e0 = w.e0.id;
    let mut cache = Cache::new();
    cache.set_epochs(vec![&w.e0]);

    let at_10 = w.data(&e0, 0, 10);
    assert_eq!(cache.insert(vec![at_10.clone()]), (vec![at_10.clone()], None));
    // the same record again, an equal timestamp, an older one
    assert_eq!(cache.insert(vec![at_10.clone()]), (nothing(), None));
    assert_eq!(cache.insert(vec![w.data(&e0, 0, 10)]), (nothing(), None));
    assert_eq!(cache.insert(vec![w.data(&e0, 0, 9)]), (nothing(), None));
    assert_eq!(cache.insert(vec![w.data(&e0, 0, -3)]), (nothing(), None));
    assert_eq!(cache.dump(), vec![at_10]);
    let at_11 = w.data(&e0, 0, 11);
    assert_eq!(cache.insert(vec![at_11.clone()]), (vec![at_11.clone()], None));
    assert_eq!(cache.dump(), vec![at_11]);
}

#[test]
fn stale_records_are_not_verified() {
    let mut w = world();
    let e0 = w.e0.id;
    let mut cache = Cache::new();
    cache.set_epochs(vec![&w.e0]);

    let at_10 = w.data(&e0, 0, 10);
    cache.insert(vec![at_10]);
    // Its signature is invalid, but it is too old to be looked at.
    let mut at_9 = w.data(&e0, 0, 9);
    at_9.payload[0] ^= 1;
    assert_eq!(cache.verify(vec![at_9]), (nothing(), None));
}

#[test]
fn set_epochs_is_idempotent() {
    let mut w = world();
    let e0 = w.e0.id;
    let mut cache = Cache::new();
    assert!(cache.set_epochs(vec![&w.e0, &w.e1]));
    let a0 = w.data(&e0, 0, 10);
    cache.insert(vec![a0.clone()]);
    assert!(!cache.set_epochs(vec![&w.e0, &w.e1]));
    assert_eq!(cache.dump(), vec![a0.clone()]);
    assert!(!cache.set_epochs(vec![&w.e1, &w.e0, &w.e1]));
    assert_eq!(cache.dump(), vec![a0]);
}

#[test]
fn set_epochs_reports_new_epochs_only() {
    let w = world();
    let mut cache = Cache::new();
    assert!(!cache.set_epochs(vec![]));
    assert!(cache.set_epochs(vec![&w.e0]));
    assert!(cache.set_epochs(vec![&w.e0, &w.e1]));
    assert!(!cache.set_epochs(vec![&w.e1]));
    assert!(!cache.set_epochs(vec![]));
    assert!(cache.set_epochs(vec![&w.e1, &w.e1]));
}

#[test]
fn dropped_epoch_loses_its_records() {
    let mut w = world();
    let (e0, e1) = (w.e0.id, w.e1.id);
    let mut cache = Cache::new();
    cache.set_epochs(vec![&w.e0, &w.e1]);
    let x = w.data(&e0, 0, 10);
    let y = w.data(&e1, 0, 10);
    cache.insert(vec![x.clone(), y.clone()]);
    assert_eq!(cache.dump().len(), 2);

    assert!(!cache.set_epochs(vec![&w.e1]));
    assert_eq!(cache.dump(), vec![y]);
    // Records for the dropped epoch are out of scope now.
    assert_eq!(cache.insert(vec![w.data(&e0, 1, 10)]), (nothing(), None));
}

#[test]
fn reintroduced_epoch_starts_empty() {
    let mut w = world();
    let e0 = w.e0.id;
    let mut cache = Cache::new();
    cache.set_epochs(vec![&w.e0]);
    let x = w.data(&e0, 0, 10);
    cache.insert(vec![x.clone()]);
    cache.set_epochs(vec![&w.e1]);
    assert_eq!(cache.dump(), vec![]);

    assert!(cache.set_epochs(vec![&w.e0, &w.e1]));
    assert_eq!(cache.dump(), vec![]);
    // What was stale before the epoch was dropped is news again.
    let older = w.data(&e0, 0, 9);
    assert_eq!(cache.insert(vec![older.clone()]), (vec![older.clone()], None));
    assert_eq!(cache.dump(), vec![older]);
}

#[test]
fn signers_of_an_active_epoch_cannot_be_changed() {
    let mut w = world();
    let e0 = w.e0.id;
    let mut cache = Cache::new();
    cache.set_epochs(vec![&w.e0]);

    // The same epoch id, described with other accounts and other keys.
    let mut other = Signers::new();
    let mut imposter = other.make_epoch(&mut w.rng, &[&w.accounts[0], &w.accounts[3]]);
    imposter.id = e0;
    assert!(!cache.set_epochs(vec![&imposter]));

    let forged = other.make_account_data(&mut w.rng, &e0, &w.accounts[0], 10);
    assert_eq!(cache.insert(vec![forged]), (nothing(), Some(Error::InvalidSignature)));
    let added = other.make_account_data(&mut w.rng, &e0, &w.accounts[3], 10);
    assert_eq!(cache.insert(vec![added]), (nothing(), None));
    let genuine = w.data(&e0, 0, 10);
    assert_eq!(cache.insert(vec![genuine.clone()]), (vec![genuine], None));
}

#[test]
fn first_description_of_a_new_epoch_counts() {
    let mut w = world();
    let e0 = w.e0.id;
    let mut other = Signers::new();
    let mut second = other.make_epoch(&mut w.rng, &[&w.accounts[0]]);
    second.id = e0;

    let mut cache = Cache::new();
    assert!(cache.set_epochs(vec![&w.e0, &second]));
    let genuine = w.data(&e0, 1, 10);
    assert_eq!(cache.insert(vec![genuine.clone()]), (vec![genuine], None));
}

#[test]
fn later_key_of_a_repeated_signer_counts() {
    let mut w = world();
    let mut other = Signers::new();
    let epoch_id = make_epoch_id(&mut w.rng);
    let a0 = w.accounts[0].clone();
    let early = public_key(w.signers.key(&mut w.rng, &epoch_id, &a0));
    let late = public_key(other.key(&mut w.rng, &epoch_id, &a0));
    let info = EpochInfo { id: epoch_id, priority_accounts: vec![(a0.clone(), early), (a0.clone(), late)] };

    let mut cache = Cache::new();
    cache.set_epochs(vec![&info]);
    let by_early = w.data(&epoch_id, 0, 10);
    assert_eq!(cache.insert(vec![by_early]), (nothing(), Some(Error::InvalidSignature)));
    let by_late = other.make_account_data(&mut w.rng, &epoch_id, &a0, 10);
    assert_eq!(cache.insert(vec![by_late.clone()]), (vec![by_late], None));
}

#[test]
fn commit_holds_records_against_the_current_state() {
    let mut w = world();
    let e0 = w.e0.id;
    let mut epochs = Epochs::new();
    assert!(epochs.set_epochs(&vec![&w.e0]));

    // One caller selects and verifies two records ...
    let slow_0 = w.data(&e0, 0, 10);
    let slow_1 = w.data(&e0, 1, 10);
    let batch = vec![slow_0.clone(), slow_1.clone()];
    assert_eq!(check_shape(&batch), None);
    let items = epochs.select(batch);
    assert_eq!(items.len(), 2);
    let (verified, err) = check_signatures(items);
    assert_eq!((verified.clone(), err), (vec![slow_0.clone(), slow_1.clone()], None));

    // ... while another one commits a newer record for one of the slots.
    let fast_0 = w.data(&e0, 0, 11);
    assert_eq!(epochs.try_insert(fast_0.clone()), Some(fast_0.clone()));

    // The higher timestamp stays, whichever commit comes first.
    assert_eq!(epochs.commit(verified), vec![slow_1.clone()]);
    assert_eq!(epochs.dump(), vec![fast_0, slow_1]);
}

#[test]
fn with_key_pairs_news_with_the_key_of_its_slot() {
    let mut w = world();
    let (e0, e1) = (w.e0.id, w.e1.id);
    let mut epochs = Epochs::new();
    epochs.set_epochs(&vec![&w.e0]);

    let d = w.data(&e0, 1, 10);
    let key = w.e0.priority_accounts[1].1;
    assert_eq!(epochs.with_key(d.clone()), Some((d.clone(), key)));
    assert_eq!(epochs.with_key(w.data(&e1, 0, 10)), None);
    assert_eq!(epochs.with_key(w.data(&e0, 3, 10)), None);
    assert_eq!(epochs.try_insert(d.clone()), Some(d.clone()));
    assert_eq!(epochs.with_key(d.clone()), None);
    assert_eq!(epochs.try_insert(d), None);
    let newer = w.data(&e0, 1, 11);
    assert_eq!(epochs.with_key(newer.clone()), Some((newer, key)));
}

#[test]
fn signature_check_tells_valid_from_invalid() {
    let mut rng = make_rng(3);
    let secret_key = make_secret_key(&mut rng);
    let other_key = make_secret_key(&mut rng);
    let message = b"validator a0 is reachable here".to_vec();
    let signature = sign(&secret_key, &message);
    let key = public_key(&secret_key);

    assert!(signature.verify(&message, &key));
    assert!(!signature.verify(&b"validator a0 is reachable there".to_vec(), &key));
    assert!(!signature.verify(&message, &public_key(&other_key)));
    let mut bytes = match signature {
        Signature::ED25519(bytes) => bytes,
        Signature::SECP256K1(_) => unreachable!(),
    };
    bytes[5] ^= 0x40;
    assert!(!Signature::ED25519(bytes).verify(&message, &key));
    // bytes that are no signature at all
    assert!(!Signature::ED25519([0xff; 64]).verify(&message, &key));
    // a key that is no point of the curve
    assert!(!signature.verify(&message, &PublicKey::ED25519([2; 32])));
}

#[test]
fn only_ed25519_pairs_verify() {
    let ed = SecretKey::from_seed(KeyType::ED25519, "ed");
    let secp = SecretKey::from_seed(KeyType::SECP256K1, "secp");
    let message = vec![42u8; 32];
    let by_ed = sign(&ed, &message);
    let by_secp = sign(&secp, &message);

    assert!(by_ed.verify(&message, &public_key(&ed)));
    assert!(!by_ed.verify(&message, &public_key(&secp)));
    assert!(!by_secp.verify(&message, &public_key(&ed)));
    assert!(!by_secp.verify(&message, &public_key(&secp)));
    // A payload of another length, on which the curve's own check would abort.
    assert!(!by_secp.verify(&vec![42u8; 31], &public_key(&secp)));
}

#[test]
fn check_signatures_stops_at_the_first_invalid_one() {
    let mut w = world();
    let e0 = w.e0.id;
    let keys: Vec<PublicKey> = w.e0.priority_accounts.iter().map(|p| p.1).collect();
    let a0 = w.data(&e0, 0, 10);
    let a1 = w.data(&e0, 1, 10);
    let a2 = w.data(&e0, 2, 10);

    assert_eq!(check_signatures(vec![]), (nothing(), None));
    assert_eq!(
        check_signatures(vec![(a0.clone(), keys[0]), (a1.clone(), keys[1]), (a2.clone(), keys[2])]),
        (vec![a0.clone(), a1.clone(), a2.clone()], None)
    );
    // a1 against the key of a2
    assert_eq!(
        check_signatures(vec![(a0.clone(), keys[0]), (a1.clone(), keys[2]), (a2.clone(), keys[2])]),
        (vec![a0.clone()], Some(Error::InvalidSignature))
    );
    assert_eq!(
        check_signatures(vec![(a0, keys[1]), (a1, keys[1])]),
        (nothing(), Some(Error::InvalidSignature))
    );
}

#[test]
fn error_messages() {
    assert_eq!(Error::InvalidSignature.message(), "found an invalid signature");
    assert_eq!(Error::DataTooLarge.message(), "found too large payload");
    assert_eq!(
        Error::SingleAccountMultipleData.message(),
        "found multiple entries for the same (epoch_id,account_id)"
    );
}

#[test]
fn ids_compare_by_content() {
    assert!(AccountId::new("alice.near").same(&AccountId::new("alice.near")));
    assert!(!AccountId::new("alice.near").same(&AccountId::new("alice.nea")));
    assert!(!AccountId::new("").same(&AccountId::new("a")));
    let mut hash = [9u8; 32];
    assert!(EpochId(hash).same(&EpochId([9u8; 32])));
    hash[31] = 8;
    assert!(!EpochId(hash).same(&EpochId([9u8; 32])));
    hash[31] = 9;
    hash[0] = 8;
    assert!(!EpochId(hash).same(&EpochId([9u8; 32])));
}

#[test]
fn empty_cache_and_empty_batch() {
    let mut cache = Cache::new();
    assert_eq!(cache.dump(), vec![]);
    assert_eq!(cache.insert(vec![]), (nothing(), none()));
    let mut w = world();
    let e0 = w.e0.id;
    // Nothing is active before the first epochs are set.
    assert_eq!(cache.insert(vec![w.data(&e0, 0, 10)]), (nothing(), None));
    cache.set_epochs(vec![&w.e0]);
    assert_eq!(cache.insert(vec![]), (nothing(), None));
    assert_eq!(cache.dump(), vec![]);
}
