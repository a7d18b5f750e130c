use wnfsutils::blockstore::{FFIFriendlyBlockStore, MemoryStore};
use wnfsutils::codec::{bytes_eq, bytes_lt, push_u64_le, read_bytes, push_bytes, read_u64_le};
use wnfsutils::crypto::bytes_to_hex;
use wnfsutils::errors::FsError;
use wnfsutils::forest::Forest;

#[test]
fn u64_encoding_round_trips() {
    let mut buf: Vec<u8> = Vec::new();
    push_u64_le(&mut buf, 0x0102030405060708);
    assert_eq!(buf, vec![8, 7, 6, 5, 4, 3, 2, 1]);
    let (x, p) = read_u64_le(&buf, 0).unwrap();
    assert_eq!(x, 0x0102030405060708);
    assert_eq!(p, 8);
    assert_eq!(read_u64_le(&buf, 1).unwrap_err(), FsError::DecryptionError);
}

#[test]
fn framed_bytes_round_trip() {
    let mut buf: Vec<u8> = Vec::new();
    push_bytes(&mut buf, b"abc");
    push_bytes(&mut buf, b"");
    let (first, p) = read_bytes(&buf, 0).unwrap();
    assert_eq!(first, b"abc".to_vec());
    let (second, p2) = read_bytes(&buf, p).unwrap();
    assert_eq!(second, Vec::<u8>::new());
    assert_eq!(p2, buf.len());
}

#[test]
fn byte_comparisons() {
    assert!(bytes_eq(b"same", b"same"));
    assert!(!bytes_eq(b"same", b"other"));
    assert!(bytes_lt(b"abc", b"abd"));
    assert!(bytes_lt(b"ab", b"abc"));
    assert!(!bytes_lt(b"abd", b"abc"));
    assert!(!bytes_lt(b"abc", b"abc"));
}

#[test]
fn hex_rendering_exact() {
    assert_eq!(bytes_to_hex(&[0x00, 0x0f, 0xa5, 0xff]), "000fa5ff".to_string());
    assert_eq!(bytes_to_hex(&[]), "".to_string());
}

#[test]
fn forest_encoding_round_trips_through_store() {
    let mut store = FFIFriendlyBlockStore::new(MemoryStore::new());
    let mut forest = Forest::create(vec![1u8; 32]);
    forest.put_encrypted(vec![2u8; 33], 4, b"cipher-one".to_vec());
    forest.put_encrypted(vec![3u8; 33], 9, b"cipher-two".to_vec());
    let id = forest.serialize(&mut store).unwrap();
    let back = Forest::deserialize(&store, &id).unwrap();
    let (d, c) = back.get_latest(&vec![2u8; 33]).unwrap();
    assert_eq!(d, 4);
    assert_eq!(c, b"cipher-one".to_vec());
    let (d2, c2) = back.get_latest(&vec![3u8; 33]).unwrap();
    assert_eq!(d2, 9);
    assert_eq!(c2, b"cipher-two".to_vec());
    assert_eq!(back.get_latest(&vec![4u8; 33]).unwrap_err(), FsError::NotFound);
}

#[test]
fn forest_resolves_latest_by_depth() {
    let mut forest = Forest::create(vec![1u8; 32]);
    let name = vec![0u8; 33];
    forest.put_encrypted(name.clone(), 1, b"old".to_vec());
    forest.put_encrypted(name.clone(), 3, b"newest".to_vec());
    forest.put_encrypted(name.clone(), 2, b"middle".to_vec());
    let (d, c) = forest.get_latest(&name).unwrap();
    assert_eq!(d, 3);
    assert_eq!(c, b"newest".to_vec());
}

#[test]
fn content_addressing_is_deterministic() {
    let mut s1 = FFIFriendlyBlockStore::new(MemoryStore::new());
    let mut s2 = FFIFriendlyBlockStore::new(MemoryStore::new());
    let id1 = s1.put_block(b"identical".to_vec(), 0x55).unwrap();
    let id2 = s2.put_block(b"identical".to_vec(), 0x55).unwrap();
    assert_eq!(id1.bytes, id2.bytes);
    let id3 = s1.put_block(b"different".to_vec(), 0x55).unwrap();
    assert!(id1.bytes != id3.bytes);
    assert_eq!(s1.get_block(&id1).unwrap(), b"identical".to_vec());
    assert_eq!(s2.get_block(&id3).unwrap_err(), FsError::NotFound);
}

#[test]
fn error_messages_name_each_kind() {
    assert_eq!(FsError::NotFound.message(), "not found".to_string());
    assert_eq!(
        FsError::DecryptionError.message(),
        "decryption or authentication failure".to_string()
    );
    assert_eq!(FsError::AlreadyExists.message(), "already exists".to_string());
    assert_eq!(FsError::InvalidInput.message(), "invalid input".to_string());
    assert_eq!(FsError::BackendError.message(), "block store backend failure".to_string());
    assert_eq!(FsError::NotInitialized.message(), "not initialized".to_string());
}
