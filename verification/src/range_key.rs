use vstd::prelude::*;

verus! {

/// A range (block) of the global id space.
#[derive(Debug, Clone, Copy, PartialEq, Eq, Structural, Hash, PartialOrd, Ord)]
pub struct KeyRange(pub u64);

/// An offset inside a range.
#[derive(Debug, Clone, Copy, PartialEq, Eq, Structural, Hash, PartialOrd, Ord)]
pub struct KeyOffset(pub u64);

/// Unique identifier for a transaction.
#[derive(Debug, Clone, Copy, PartialEq, Eq, Structural, Hash, PartialOrd, Ord)]
pub struct UniqueU64BlobId(pub u64);

impl core::ops::Add for KeyOffset {
    type Output = KeyOffset;

    fn add(self, rhs: KeyOffset) -> (r: KeyOffset) {
        KeyOffset(self.0 + rhs.0)
    }
}

impl vstd::std_specs::ops::AddSpecImpl for KeyOffset {
    open spec fn obeys_add_spec() -> bool {
        true
    }

    open spec fn add_req(self, rhs: KeyOffset) -> bool {
        self.0 + rhs.0 <= u64::MAX
    }

    open spec fn add_spec(self, rhs: KeyOffset) -> KeyOffset {
        KeyOffset((self.0 + rhs.0) as u64)
    }
}

impl core::ops::Sub for KeyOffset {
    type Output = KeyOffset;

    fn sub(self, rhs: KeyOffset) -> (r: KeyOffset) {
        KeyOffset(self.0 - rhs.0)
    }
}

impl vstd::std_specs::ops::SubSpecImpl for KeyOffset {
    open spec fn obeys_sub_spec() -> bool {
        true
    }

    open spec fn sub_req(self, rhs: KeyOffset) -> bool {
        rhs.0 <= self.0
    }

    open spec fn sub_spec(self, rhs: KeyOffset) -> KeyOffset {
        KeyOffset((self.0 - rhs.0) as u64)
    }
}

impl core::ops::Add for UniqueU64BlobId {
    type Output = UniqueU64BlobId;

    fn add(self, rhs: UniqueU64BlobId) -> (r: UniqueU64BlobId) {
        UniqueU64BlobId(self.0 + rhs.0)
    }
}

impl vstd::std_specs::ops::AddSpecImpl for UniqueU64BlobId {
    open spec fn obeys_add_spec() -> bool {
        true
    }

    open spec fn add_req(self, rhs: UniqueU64BlobId) -> bool {
        self.0 + rhs.0 <= u64::MAX
    }

    open spec fn add_spec(self, rhs: UniqueU64BlobId) -> UniqueU64BlobId {
        UniqueU64BlobId((self.0 + rhs.0) as u64)
    }
}

impl core::ops::Sub for UniqueU64BlobId {
    type Output = UniqueU64BlobId;

    fn sub(self, rhs: UniqueU64BlobId) -> (r: UniqueU64BlobId) {
        UniqueU64BlobId(self.0 - rhs.0)
    }
}

impl vstd::std_specs::ops::SubSpecImpl for UniqueU64BlobId {
    open spec fn obeys_sub_spec() -> bool {
        true
    }

    open spec fn sub_req(self, rhs: UniqueU64BlobId) -> bool {
        rhs.0 <= self.0
    }

    open spec fn sub_spec(self, rhs: UniqueU64BlobId) -> UniqueU64BlobId {
        UniqueU64BlobId((self.0 - rhs.0) as u64)
    }
}

/// Number of ids in one range: 2^30.
pub const SINGLE_BLOB_SIZE: u64 = 1073741824;

/// Largest range index: 2^34 - 1.
pub const MAX_BLOCK_INDEX: u64 = 17179869183;

/// The range an id belongs to.
pub open spec fn range_of(id: int) -> int {
    id / (SINGLE_BLOB_SIZE as int)
}

/// The offset of an id inside its range.
pub open spec fn offset_of(id: int) -> int {
    id % (SINGLE_BLOB_SIZE as int)
}

/// The id at `offset` inside `range`.
pub open spec fn id_of(range: int, offset: int) -> int {
    range * (SINGLE_BLOB_SIZE as int) + offset
}

/// The first and the last id of a range; the ranges up to `MAX_BLOCK_INDEX` cover every id.
pub fn min_and_max_keys_for_range(range: KeyRange) -> (r: (UniqueU64BlobId, UniqueU64BlobId))
    requires
        range.0 <= MAX_BLOCK_INDEX,
    ensures
        r.0.0 == id_of(range.0 as int, 0),
        r.1.0 == id_of(range.0 as int, SINGLE_BLOB_SIZE - 1),
{
    (
        UniqueU64BlobId(range.0 * SINGLE_BLOB_SIZE),
        UniqueU64BlobId(range.0 * SINGLE_BLOB_SIZE + (SINGLE_BLOB_SIZE - 1)),
    )
}

/// The range that holds `global_key`.
pub fn range_from_unique_blob_id(global_key: UniqueU64BlobId) -> (r: KeyRange)
    ensures
        r.0 == range_of(global_key.0 as int),
        r.0 <= MAX_BLOCK_INDEX,
{
    KeyRange(global_key.0 / SINGLE_BLOB_SIZE)
}

/// Converts a full id into its range and the offset inside that range.
pub fn range_offset_from_unique_blob_id(global_key: UniqueU64BlobId) -> (r: (KeyRange, KeyOffset))
    ensures
        r.0.0 == range_of(global_key.0 as int),
        r.1.0 == offset_of(global_key.0 as int),
        r.0.0 <= MAX_BLOCK_INDEX,
        r.1.0 < SINGLE_BLOB_SIZE,
{
    let range = range_from_unique_blob_id(global_key);
    let offset = global_key.0 % SINGLE_BLOB_SIZE;
    (range, KeyOffset(offset))
}

/// The full id of `offset` inside `range`.
pub fn unique_blob_id_from_range_and_offset(range: KeyRange, offset: KeyOffset) -> (r: UniqueU64BlobId)
    requires
        id_of(range.0 as int, offset.0 as int) <= u64::MAX,
    ensures
        r.0 == id_of(range.0 as int, offset.0 as int),
{
    UniqueU64BlobId(range.0 * SINGLE_BLOB_SIZE + offset.0)
}

/// Splitting an id into range and offset and joining them again gives the id back.
pub proof fn lemma_split_join(id: u64)
    ensures
        id_of(range_of(id as int), offset_of(id as int)) == id,
        0 <= offset_of(id as int) < SINGLE_BLOB_SIZE,
        0 <= range_of(id as int) <= MAX_BLOCK_INDEX,
{
}

/// Joining a range and an offset inside it and splitting the id gives them back.
pub proof fn lemma_join_split(range: u64, offset: u64)
    requires
        offset < SINGLE_BLOB_SIZE,
    ensures
        range_of(id_of(range as int, offset as int)) == range,
        offset_of(id_of(range as int, offset as int)) == offset,
{
}

/// The ids of a range are exactly the ids that divide down to it: the ranges up to
/// `MAX_BLOCK_INDEX` are disjoint, each ends just before the next begins, and together they
/// cover every id.
pub proof fn lemma_range_block(range: u64, k: u64)
    requires
        range <= MAX_BLOCK_INDEX,
    ensures
        (id_of(range as int, 0) <= k <= id_of(range as int, SINGLE_BLOB_SIZE - 1)) <==> range_of(
            k as int,
        ) == range,
        id_of(range as int, SINGLE_BLOB_SIZE - 1) + 1 == id_of(range + 1, 0),
        id_of(range as int, SINGLE_BLOB_SIZE - 1) <= u64::MAX,
{
    vstd::arithmetic::div_mod::lemma_fundamental_div_mod(k as int, SINGLE_BLOB_SIZE as int);
}

} // verus!
