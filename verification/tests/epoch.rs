use maroon::epoch::Epoch;
use maroon::range_key::UniqueU64BlobId;
use sha2::{Digest, Sha256};

fn hex(bytes: &[u8]) -> String {
    bytes.iter().map(|b| format!("{:02x}", b)).collect()
}

#[test]
fn first_empty_epoch_hashes_nothing() {
    let epoch = Epoch::new(vec![], None);
    assert!(epoch.increments.is_empty());
    assert_eq!(
        hex(&epoch.hash),
        "e3b0c44298fc1c149afbf4c8996fb92427ae41e4649b934ca495991b7852b855"
    );
}

#[test]
fn epoch_hash_chains_previous_hash_and_increments() {
    let first = Epoch::new(vec![(UniqueU64BlobId(0), UniqueU64BlobId(15))], None);
    let second = Epoch::new(
        vec![(UniqueU64BlobId(16), UniqueU64BlobId(0x0102030405060708))],
        Some(first.hash),
    );

    let mut data = Vec::new();
    data.extend_from_slice(&0u64.to_le_bytes());
    data.extend_from_slice(&15u64.to_le_bytes());
    let expected_first: [u8; 32] = Sha256::digest(&data).into();
    assert_eq!(first.hash, expected_first);

    let mut data = Vec::new();
    data.extend_from_slice(&first.hash);
    data.extend_from_slice(&16u64.to_le_bytes());
    data.extend_from_slice(&0x0102030405060708u64.to_le_bytes());
    let expected_second: [u8; 32] = Sha256::digest(&data).into();
    assert_eq!(second.hash, expected_second);
    assert_ne!(first.hash, second.hash);
}
