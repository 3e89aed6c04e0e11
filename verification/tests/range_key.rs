use maroon::range_key::{
    min_and_max_keys_for_range, range_from_unique_blob_id, range_offset_from_unique_blob_id,
    unique_blob_id_from_range_and_offset, KeyOffset, KeyRange, UniqueU64BlobId, MAX_BLOCK_INDEX,
    SINGLE_BLOB_SIZE,
};

#[test]
fn test_range_offset_from_unique_blob_id() {
    let tests = vec![
        (UniqueU64BlobId(0), KeyRange(0), KeyOffset(0)),
        (UniqueU64BlobId(1), KeyRange(0), KeyOffset(1)),
        (UniqueU64BlobId(1_073_741_824), KeyRange(1), KeyOffset(0)),
    ];

    for (key, ex_range, ex_offset) in tests {
        let (range, offset) = range_offset_from_unique_blob_id(key);
        assert_eq!(range, ex_range, "key: {}", key.0);
        assert_eq!(offset, ex_offset, "key: {}", key.0);
        assert_eq!(unique_blob_id_from_range_and_offset(range, offset), key);
    }
}

#[test]
fn test_transaction_id_operation() {
    let tx1 = UniqueU64BlobId(10);
    let tx2 = UniqueU64BlobId(15);
    assert_eq!(UniqueU64BlobId(5), tx2 - tx1);
}

#[test]
fn id_round_trip_from_doc_example() {
    let id = UniqueU64BlobId(10);
    let (range, offset) = range_offset_from_unique_blob_id(id);
    let id_from = unique_blob_id_from_range_and_offset(range, offset);
    assert_eq!(id, id_from);
}

#[test]
fn id_round_trip_at_the_largest_id() {
    let id = UniqueU64BlobId(u64::MAX);
    let (range, offset) = range_offset_from_unique_blob_id(id);
    assert_eq!(range, KeyRange(MAX_BLOCK_INDEX));
    assert_eq!(offset, KeyOffset(SINGLE_BLOB_SIZE - 1));
    assert_eq!(unique_blob_id_from_range_and_offset(range, offset), id);
}

#[test]
fn min_and_max_keys_of_the_last_range() {
    assert_eq!(
        min_and_max_keys_for_range(KeyRange(MAX_BLOCK_INDEX)),
        (UniqueU64BlobId(u64::MAX - (SINGLE_BLOB_SIZE - 1)), UniqueU64BlobId(u64::MAX))
    );
}

#[test]
fn range_and_offset_round_trip() {
    let id = unique_blob_id_from_range_and_offset(KeyRange(7), KeyOffset(12345));
    assert_eq!(id, UniqueU64BlobId(7 * SINGLE_BLOB_SIZE + 12345));
    assert_eq!(range_offset_from_unique_blob_id(id), (KeyRange(7), KeyOffset(12345)));
}

#[test]
fn range_of_last_id_of_a_range() {
    assert_eq!(range_from_unique_blob_id(UniqueU64BlobId(SINGLE_BLOB_SIZE - 1)), KeyRange(0));
    assert_eq!(range_from_unique_blob_id(UniqueU64BlobId(2 * SINGLE_BLOB_SIZE)), KeyRange(2));
}

#[test]
fn min_and_max_keys_of_ranges() {
    assert_eq!(
        min_and_max_keys_for_range(KeyRange(0)),
        (UniqueU64BlobId(0), UniqueU64BlobId(1_073_741_823))
    );
    assert_eq!(
        min_and_max_keys_for_range(KeyRange(3)),
        (UniqueU64BlobId(3_221_225_472), UniqueU64BlobId(4_294_967_295))
    );
}

#[test]
fn offsets_and_ids_add_and_subtract() {
    assert_eq!(KeyOffset(3) + KeyOffset(1), KeyOffset(4));
    assert_eq!(KeyOffset(3) - KeyOffset(1), KeyOffset(2));
    assert_eq!(UniqueU64BlobId(3) + UniqueU64BlobId(1), UniqueU64BlobId(4));
}
