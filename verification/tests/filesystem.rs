use wnfsutils::blockstore::{FFIFriendlyBlockStore, MemoryStore};
use wnfsutils::crypto::seal;
use wnfsutils::directory::PrivateDirectory;
use wnfsutils::errors::FsError;
use wnfsutils::forest::Forest;
use wnfsutils::private_forest::{PrivateDirectoryHelper, SessionState};
use wnfsutils::sharing::AccessKey;

type Helper = PrivateDirectoryHelper<MemoryStore>;

fn fresh_store() -> FFIFriendlyBlockStore<MemoryStore> {
    FFIFriendlyBlockStore::new(MemoryStore::new())
}

fn err_of<T>(r: Result<T, FsError>) -> FsError {
    match r {
        Ok(_) => panic!("expected an error"),
        Err(e) => e,
    }
}

fn path(p: &str) -> Vec<String> {
    PrivateDirectoryHelper::<MemoryStore>::parse_path(p.to_string())
}

/// A session over a hand-assembled filesystem: an empty root directory
/// sealed into a fresh forest and opened with its access key — the
/// recipient-side constructor, which involves no exchange keypair.
fn fresh_session() -> Helper {
    let mut store = fresh_store();
    let mut forest = Forest::create(vec![9u8; 32]);
    let tree = PrivateDirectory::new();
    let key = vec![7u8; 32];
    let label = vec![0u8; 33];
    let cipher = seal(&key, &tree.encode());
    forest.put_encrypted(label.clone(), 1, cipher);
    let cid = forest.serialize(&mut store).unwrap();
    Helper::load_with_access_key(store, &cid, AccessKey { label, key }).unwrap()
}

#[test]
fn write_then_read_round_trip() {
    let mut h = fresh_session();
    let payload = b"hello world".to_vec();
    h.write_file(&path("root/test/file.bin"), payload.clone(), 0).unwrap();
    let back = h.read_file(&path("root/test/file.bin")).unwrap();
    assert_eq!(back, payload);
}

#[test]
fn last_write_wins() {
    let mut h = fresh_session();
    h.write_file(&path("a/f"), b"first".to_vec(), 100).unwrap();
    h.write_file(&path("a/f"), b"second".to_vec(), 200).unwrap();
    assert_eq!(h.read_file(&path("a/f")).unwrap(), b"second".to_vec());
}

#[test]
fn mkdir_then_ls_single_dir_entry() {
    let mut h = fresh_session();
    h.mkdir(&path("a/b/c")).unwrap();
    let listing = h.ls_files(&path("a/b")).unwrap();
    assert_eq!(listing.len(), 1);
    assert_eq!(listing[0].0, "c".to_string());
    assert!(listing[0].1.is_dir);
}

#[test]
fn mv_moves_content_and_clears_source() {
    let mut h = fresh_session();
    h.write_file(&path("a/f"), b"moving".to_vec(), 0).unwrap();
    h.mkdir(&path("b")).unwrap();
    h.mv(&path("a/f"), &path("b/f")).unwrap();
    assert_eq!(h.read_file(&path("b/f")).unwrap(), b"moving".to_vec());
    assert_eq!(h.read_file(&path("a/f")).unwrap_err(), FsError::NotFound);
}

#[test]
fn cp_is_independent_of_source() {
    let mut h = fresh_session();
    h.write_file(&path("a/f"), b"original".to_vec(), 0).unwrap();
    h.cp(&path("a/f"), &path("b/f")).unwrap();
    h.write_file(&path("b/f"), b"changed".to_vec(), 0).unwrap();
    assert_eq!(h.read_file(&path("a/f")).unwrap(), b"original".to_vec());
    assert_eq!(h.read_file(&path("b/f")).unwrap(), b"changed".to_vec());
}

#[test]
fn rm_removes_subtree() {
    let mut h = fresh_session();
    h.write_file(&path("a/b/f"), b"x".to_vec(), 0).unwrap();
    h.rm(&path("a")).unwrap();
    assert_eq!(h.read_file(&path("a/b/f")).unwrap_err(), FsError::NotFound);
    assert_eq!(err_of(h.ls_files(&path("a"))), FsError::NotFound);
}

#[test]
fn write_over_directory_already_exists() {
    let mut h = fresh_session();
    h.mkdir(&path("a/b")).unwrap();
    let e = err_of(h.write_file(&path("a/b"), b"clash".to_vec(), 0));
    assert_eq!(e, FsError::AlreadyExists);
}

#[test]
fn mkdir_over_file_already_exists() {
    let mut h = fresh_session();
    h.write_file(&path("a/b"), b"file".to_vec(), 0).unwrap();
    assert_eq!(err_of(h.mkdir(&path("a/b"))), FsError::AlreadyExists);
    assert_eq!(err_of(h.mkdir(&path("a/b/c"))), FsError::AlreadyExists);
}

#[test]
fn mkdir_twice_is_idempotent() {
    let mut h = fresh_session();
    h.mkdir(&path("a/b")).unwrap();
    h.write_file(&path("a/b/f"), b"x".to_vec(), 0).unwrap();
    h.mkdir(&path("a/b")).unwrap();
    assert_eq!(h.read_file(&path("a/b/f")).unwrap(), b"x".to_vec());
    let listing = h.ls_files(&path("a")).unwrap();
    assert_eq!(listing.len(), 1);
    assert_eq!(listing[0].0, "b".to_string());
}

#[test]
fn init_rejects_bad_seed_length() {
    let mut state = SessionState::new();
    let e = err_of(Helper::init(fresh_store(), vec![1, 2, 3], &mut state));
    assert_eq!(e, FsError::InvalidInput);
    let e2 = err_of(Helper::init(fresh_store(), Vec::new(), &mut state));
    assert_eq!(e2, FsError::InvalidInput);
}

#[test]
fn mv_into_own_subtree_rejected() {
    let mut h = fresh_session();
    h.mkdir(&path("a/b")).unwrap();
    assert_eq!(err_of(h.mv(&path("a"), &path("a/b/c"))), FsError::InvalidInput);
}

#[test]
fn parse_path_trims_and_splits() {
    let segs = path(" /a/b/c/ ");
    assert_eq!(segs, vec!["a".to_string(), "b".to_string(), "c".to_string()]);
    let single = path("file.txt");
    assert_eq!(single, vec!["file.txt".to_string()]);
}

#[test]
fn parse_path_empty_input_gives_one_empty_segment() {
    assert_eq!(path(""), vec!["".to_string()]);
    assert_eq!(path(" /// "), vec!["".to_string()]);
}

#[test]
fn parse_path_keeps_interior_empty_segments() {
    assert_eq!(path("a//b"), vec!["a".to_string(), "".to_string(), "b".to_string()]);
}

#[test]
fn unicode_names_survive_listing() {
    let mut h = fresh_session();
    h.mkdir(&path("docs/r\u{00e9}sum\u{00e9}s")).unwrap();
    let listing = h.ls_files(&path("docs")).unwrap();
    assert_eq!(listing.len(), 1);
    assert_eq!(listing[0].0, "r\u{00e9}sum\u{00e9}s".to_string());
}

#[test]
fn reload_requires_initialized_session() {
    let mut store = fresh_store();
    let forest = Forest::create(vec![9u8; 32]);
    let cid = forest.serialize(&mut store).unwrap();
    let mut fresh = SessionState::new();
    let e = err_of(Helper::reload(store, &cid, &mut fresh));
    assert_eq!(e, FsError::NotInitialized);
}

#[test]
fn load_with_access_key_rejects_malformed_key() {
    let mut store = fresh_store();
    let forest = Forest::create(vec![9u8; 32]);
    let cid = forest.serialize(&mut store).unwrap();
    let bad = AccessKey { label: vec![0u8; 4], key: vec![7u8; 32] };
    let e = err_of(Helper::load_with_access_key(store, &cid, bad));
    assert_eq!(e, FsError::DecryptionError);
}

#[test]
fn load_with_access_key_missing_snapshot_not_found() {
    let mut store = fresh_store();
    let forest = Forest::create(vec![9u8; 32]);
    let cid = forest.serialize(&mut store).unwrap();
    let ak = AccessKey { label: vec![0u8; 33], key: vec![7u8; 32] };
    let e = err_of(Helper::load_with_access_key(store, &cid, ak));
    assert_eq!(e, FsError::NotFound);
}

#[test]
fn load_with_access_key_wrong_key_fails_authentication() {
    let mut store = fresh_store();
    let mut forest = Forest::create(vec![9u8; 32]);
    let tree = PrivateDirectory::new();
    let label = vec![0u8; 33];
    let cipher = seal(&[7u8; 32], &tree.encode());
    forest.put_encrypted(label.clone(), 1, cipher);
    let cid = forest.serialize(&mut store).unwrap();
    let wrong = AccessKey { label, key: vec![8u8; 32] };
    let e = err_of(Helper::load_with_access_key(store, &cid, wrong));
    assert_eq!(e, FsError::DecryptionError);
}
