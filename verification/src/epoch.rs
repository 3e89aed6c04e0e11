use vstd::prelude::*;
use sha2::Digest;
use crate::range_key::UniqueU64BlobId;

verus! {

/// A committed step of the log: the intervals of ids it commits, and a hash that chains it to
/// the epoch before it.
#[derive(Debug, Clone)]
pub struct Epoch {
    pub increments: Vec<(UniqueU64BlobId, UniqueU64BlobId)>,
    pub hash: [u8; 32],
}

/// The SHA-256 digest of `data`.
pub uninterp spec fn sha256(data: Seq<u8>) -> Seq<u8>;

/// Calls `sha2::Sha256::digest` (through the `Digest` trait) on the bytes of `data`.
/// Claimed: the 32 bytes returned are the digest named `sha256` of those bytes, and depend on
/// nothing else.
#[verifier::external_body]
fn sha256_digest(data: &Vec<u8>) -> (digest: [u8; 32])
    ensures
        digest@ == sha256(data@),
{
    sha2::Sha256::digest(data.as_slice()).into()
}

/// The 8 little-endian bytes of `x`.
pub open spec fn le_bytes(x: u64) -> Seq<u8> {
    seq![
        (x % 256) as u8,
        ((x / 256) % 256) as u8,
        ((x / 65536) % 256) as u8,
        ((x / 16777216) % 256) as u8,
        ((x / 4294967296) % 256) as u8,
        ((x / 1099511627776) % 256) as u8,
        ((x / 281474976710656) % 256) as u8,
        ((x / 72057594037927936) % 256) as u8,
    ]
}

/// The bytes hashed for a list of increments: start then end of each, little-endian.
pub open spec fn increments_bytes(incs: Seq<(UniqueU64BlobId, UniqueU64BlobId)>) -> Seq<u8>
    decreases incs.len(),
{
    if incs.len() == 0 {
        Seq::empty()
    } else {
        increments_bytes(incs.drop_last()) + le_bytes(incs.last().0.0) + le_bytes(incs.last().1.0)
    }
}

/// The previous hash as plain bytes, none for the first epoch.
pub open spec fn hash_bytes(prev: Option<[u8; 32]>) -> Seq<u8> {
    match prev {
        Some(h) => h@,
        None => Seq::empty(),
    }
}

/// The bytes an epoch's hash is computed from: the previous hash, if any, then the increments.
pub open spec fn epoch_preimage(
    prev: Option<[u8; 32]>,
    incs: Seq<(UniqueU64BlobId, UniqueU64BlobId)>,
) -> Seq<u8> {
    hash_bytes(prev) + increments_bytes(incs)
}

/// The preimage covers every increment, in order: appending an increment appends its start and
/// then its end, 8 little-endian bytes each, so the preimage holds 16 bytes per increment.
pub proof fn lemma_increments_bytes_push(
    s: Seq<(UniqueU64BlobId, UniqueU64BlobId)>,
    p: (UniqueU64BlobId, UniqueU64BlobId),
)
    ensures
        increments_bytes(s.push(p)) == increments_bytes(s) + le_bytes(p.0.0) + le_bytes(p.1.0),
        increments_bytes(s.push(p)).len() == 16 * (s.len() + 1),
    decreases s.len(),
{
    assert(s.push(p).drop_last() =~= s);
    assert(s.push(p).last() == p);
    lemma_increments_bytes_len(s);
}

/// The preimage of a list of increments holds 16 bytes per increment.
pub proof fn lemma_increments_bytes_len(s: Seq<(UniqueU64BlobId, UniqueU64BlobId)>)
    ensures
        increments_bytes(s).len() == 16 * s.len(),
    decreases s.len(),
{
    if s.len() > 0 {
        lemma_increments_bytes_len(s.drop_last());
    }
}

/// The 8 bytes of `x` are its little-endian digits in base 256: they add back up to `x`.
pub proof fn lemma_le_bytes_value(x: u64)
    ensures
        le_bytes(x).len() == 8,
        x == le_bytes(x)[0] as int + 256 * (le_bytes(x)[1] as int) + 65536 * (le_bytes(x)[2] as int)
            + 16777216 * (le_bytes(x)[3] as int) + 4294967296 * (le_bytes(x)[4] as int) + 1099511627776
            * (le_bytes(x)[5] as int) + 281474976710656 * (le_bytes(x)[6] as int) + 72057594037927936
            * (le_bytes(x)[7] as int),
{
    let b = le_bytes(x);
    assert(b[0] == (x % 256) as u8);
    assert(b[7] == ((x / 72057594037927936) % 256) as u8);
    assert(x == ((x % 256) as u8) as int + 256 * ((((x / 256) % 256) as u8) as int) + 65536 * ((((x
        / 65536) % 256) as u8) as int) + 16777216 * ((((x / 16777216) % 256) as u8) as int)
        + 4294967296 * ((((x / 4294967296) % 256) as u8) as int) + 1099511627776 * ((((x
        / 1099511627776) % 256) as u8) as int) + 281474976710656 * ((((x / 281474976710656) % 256)
        as u8) as int) + 72057594037927936 * ((((x / 72057594037927936) % 256) as u8) as int))
        by (bit_vector);
}

/// An epoch's hash covers the previous epoch's whole hash, then its own increments: the 32
/// bytes of the previous hash come first when there is one, and nothing comes before the
/// increments otherwise.
pub proof fn lemma_epoch_preimage(prev: Option<[u8; 32]>, incs: Seq<(UniqueU64BlobId, UniqueU64BlobId)>)
    ensures
        prev is None ==> epoch_preimage(prev, incs) == increments_bytes(incs),
        prev matches Some(h) ==> epoch_preimage(prev, incs) == h@ + increments_bytes(incs)
            && epoch_preimage(prev, incs).len() == 32 + 16 * incs.len(),
{
    lemma_increments_bytes_len(incs);
    if prev is None {
        assert(epoch_preimage(prev, incs) =~= increments_bytes(incs));
    }
}

/// Appends the 8 little-endian bytes of `x`.
fn push_le_bytes(out: &mut Vec<u8>, x: u64)
    ensures
        final(out)@ == old(out)@ + le_bytes(x),
{
    out.push((x % 256) as u8);
    out.push(((x / 256) % 256) as u8);
    out.push(((x / 65536) % 256) as u8);
    out.push(((x / 16777216) % 256) as u8);
    out.push(((x / 4294967296) % 256) as u8);
    out.push(((x / 1099511627776) % 256) as u8);
    out.push(((x / 281474976710656) % 256) as u8);
    out.push(((x / 72057594037927936) % 256) as u8);
    assert(final(out)@ =~= old(out)@ + le_bytes(x));
}

impl Epoch {
    /// An epoch committing `increments`, chained to the epoch whose hash is `prev_hash`.
    pub fn new(
        increments: Vec<(UniqueU64BlobId, UniqueU64BlobId)>,
        prev_hash: Option<[u8; 32]>,
    ) -> (epoch: Epoch)
        ensures
            epoch.increments@ == increments@,
            epoch.hash@ == sha256(epoch_preimage(prev_hash, increments@)),
    {
        let mut data: Vec<u8> = Vec::new();
        if let Some(prev) = prev_hash {
            let mut i: usize = 0;
            while i < 32
                invariant
                    i <= 32,
                    data@ == prev@.take(i as int),
                decreases 32 - i,
            {
                data.push(prev[i]);
                i = i + 1;
                assert(data@ =~= prev@.take(i as int));
            }
            assert(prev@.take(32) =~= prev@);
        }
        assert(data@ =~= hash_bytes(prev_hash));
        let mut i: usize = 0;
        while i < increments.len()
            invariant
                i <= increments.len(),
                data@ == hash_bytes(prev_hash) + increments_bytes(increments@.take(i as int)),
            decreases increments.len() - i,
        {
            let (start, end) = increments[i];
            assert(increments@.take(i + 1).drop_last() =~= increments@.take(i as int));
            push_le_bytes(&mut data, start.0);
            push_le_bytes(&mut data, end.0);
            i = i + 1;
            assert(data@ =~= hash_bytes(prev_hash) + increments_bytes(increments@.take(i as int)));
        }
        assert(increments@.take(increments.len() as int) =~= increments@);
        let hash = sha256_digest(&data);
        Epoch { increments, hash }
    }
}

} // verus!
