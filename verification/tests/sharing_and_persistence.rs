use wnfsutils::blockstore::{ContentId, FFIFriendlyBlockStore, MemoryStore};
use wnfsutils::crypto::{open, seal};
use wnfsutils::errors::FsError;
use wnfsutils::exchange::{PublicExchangeKey, SeededExchangeKey};
use wnfsutils::forest::Forest;
use wnfsutils::private_forest::{PrivateDirectoryHelper, SessionState};
use wnfsutils::sharing::{create_share_name, find_latest_share_counter, receive_share, share, AccessKey};

type Helper = PrivateDirectoryHelper<MemoryStore>;

fn fresh_store() -> FFIFriendlyBlockStore<MemoryStore> {
    FFIFriendlyBlockStore::new(MemoryStore::new())
}

fn err_of<T>(r: Result<T, FsError>) -> FsError {
    match r {
        Ok(_) => panic!("expected an error"),
        Err(e) => e,
    }
}


fn seed(b: u8) -> Vec<u8> {
    vec![b; 32]
}

fn path(p: &str) -> Vec<String> {
    PrivateDirectoryHelper::<MemoryStore>::parse_path(p.to_string())
}

#[test]
fn keypair_derivation_is_deterministic() {
    let k1 = SeededExchangeKey::from_seed(&seed(28)).unwrap();
    let k2 = SeededExchangeKey::from_seed(&seed(28)).unwrap();
    assert_eq!(k1.encode_public_key(), k2.encode_public_key());
}

#[test]
fn load_after_init_restores_content() {
    let mut state = SessionState::new();
    let (mut h, _ak, _cid) = Helper::init(fresh_store(), seed(11), &mut state).unwrap();
    let cid = h.write_file(&path("a/f"), b"persisted".to_vec(), 7).unwrap();
    let store = h.store;
    let mut state2 = SessionState::new();
    let mut h2 = Helper::load_with_wnfs_key(store, &cid, seed(11), &mut state2).unwrap();
    assert!(state2.initialized);
    assert_eq!(h2.read_file(&path("a/f")).unwrap(), b"persisted".to_vec());
}

#[test]
fn load_with_wrong_seed_fails() {
    // a populated forest whose snapshot is sealed under key material the
    // prober's seed cannot recover
    let mut store = fresh_store();
    let mut forest = Forest::create(vec![1u8; 32]);
    let tree = wnfsutils::directory::PrivateDirectory::new();
    let cipher = seal(&[7u8; 32], &tree.encode());
    forest.put_encrypted(vec![0u8; 33], 1, cipher);
    let cid = forest.serialize(&mut store).unwrap();
    let mut state = SessionState::new();
    let e = err_of(Helper::load_with_wnfs_key(store, &cid, seed(30), &mut state));
    assert!(matches!(e, FsError::NotFound | FsError::DecryptionError));
    assert!(!state.initialized);
}

#[test]
fn load_unknown_root_not_found() {
    let mut state = SessionState::new();
    let bogus = ContentId { bytes: vec![9u8; 32] };
    let e = err_of(Helper::load_with_wnfs_key(fresh_store(), &bogus, seed(25), &mut state));
    assert_eq!(e, FsError::NotFound);
}

#[test]
fn seal_open_round_trip_and_tamper_detection() {
    let key = seed(26);
    let plain = b"the quick brown fox".to_vec();
    let sealed = seal(&key, &plain);
    assert_eq!(open(&key, &sealed).unwrap(), plain);
    // a flipped ciphertext byte fails authentication
    let mut tampered = sealed.clone();
    tampered[9] ^= 0x01;
    assert_eq!(open(&key, &tampered).unwrap_err(), FsError::DecryptionError);
    // a wrong key fails authentication
    assert_eq!(open(&seed(27), &sealed).unwrap_err(), FsError::DecryptionError);
}

#[test]
fn share_then_receive_yields_same_access_key() {
    let keypair = SeededExchangeKey::from_seed(&seed(28)).unwrap();
    let modulus = keypair.encode_public_key();
    let recipient = PublicExchangeKey::from_modulus(&modulus).unwrap();
    let mut forest = Forest::create(vec![5u8; 32]);
    let ak = AccessKey { label: vec![0u8; 33], key: vec![7u8; 32] };
    share(&ak, 0, "owner", &recipient, &mut forest).unwrap();
    let name = create_share_name(0, "owner", &modulus, &forest);
    let got = receive_share(&name, &keypair, &forest).unwrap();
    assert_eq!(got.label, ak.label);
    assert_eq!(got.key, ak.key);
}

#[test]
fn share_counter_race_keeps_both_entries() {
    let keypair = SeededExchangeKey::from_seed(&seed(29)).unwrap();
    let modulus = keypair.encode_public_key();
    let recipient = PublicExchangeKey::from_modulus(&modulus).unwrap();
    let mut forest = Forest::create(vec![6u8; 32]);
    // both writers probe before either has shared: both see an empty run
    let c1 = find_latest_share_counter(0, 1000, &modulus, "owner", &forest);
    let c2 = find_latest_share_counter(0, 1000, &modulus, "owner", &forest);
    assert_eq!(c1, None);
    assert_eq!(c2, None);
    // both then occupy counter zero; the forest keeps both entries
    let ak1 = AccessKey { label: vec![0u8; 33], key: vec![1u8; 32] };
    let ak2 = AccessKey { label: vec![0u8; 33], key: vec![2u8; 32] };
    share(&ak1, 0, "owner", &recipient, &mut forest).unwrap();
    share(&ak2, 0, "owner", &recipient, &mut forest).unwrap();
    // resolution is deterministic: the same winner every time
    let name = create_share_name(0, "owner", &modulus, &forest);
    let first = receive_share(&name, &keypair, &forest).unwrap();
    let again = receive_share(&name, &keypair, &forest).unwrap();
    assert_eq!(first.key, again.key);
    assert!(first.key == ak1.key || first.key == ak2.key);
    // the probe now reports slot zero as taken
    assert_eq!(find_latest_share_counter(0, 1000, &modulus, "owner", &forest), Some(0));
}

#[test]
fn find_latest_share_counter_stops_at_gap() {
    let keypair = SeededExchangeKey::from_seed(&seed(30)).unwrap();
    let modulus = keypair.encode_public_key();
    let recipient = PublicExchangeKey::from_modulus(&modulus).unwrap();
    let mut forest = Forest::create(vec![7u8; 32]);
    let ak = AccessKey { label: vec![0u8; 33], key: vec![3u8; 32] };
    share(&ak, 0, "owner", &recipient, &mut forest).unwrap();
    share(&ak, 1, "owner", &recipient, &mut forest).unwrap();
    // a slot far beyond the run does not extend it
    share(&ak, 5, "owner", &recipient, &mut forest).unwrap();
    assert_eq!(find_latest_share_counter(0, 1000, &modulus, "owner", &forest), Some(1));
}

#[test]
fn access_key_decode_rejects_garbage() {
    let garbage = vec![1u8, 2, 3];
    assert!(matches!(AccessKey::decode(&garbage), Err(FsError::DecryptionError)));
}
