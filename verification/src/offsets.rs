use vstd::prelude::*;
use std::collections::HashMap;
use crate::range_key::{
    KeyOffset, KeyRange, UniqueU64BlobId, MAX_BLOCK_INDEX, SINGLE_BLOB_SIZE, id_of, offset_of, range_from_unique_blob_id,
    range_of, range_offset_from_unique_blob_id, lemma_join_split,
    unique_blob_id_from_range_and_offset,
};
use crate::transaction::Transaction;

verus! {

broadcast use vstd::std_specs::hash::group_hash_axioms;

/// `order` lists every key of `dom` exactly once.
pub open spec fn enumerates(order: Seq<u64>, dom: Set<u64>) -> bool {
    &&& order.no_duplicates()
    &&& forall|k: u64| dom.contains(k) <==> order.contains(k)
}

/// The keys of a sequence of map entries.
pub open spec fn entry_keys<V>(pairs: Seq<(&u64, &V)>) -> Seq<u64> {
    pairs.map_values(|p: (&u64, &V)| *p.0)
}

/// The entries a hash map's iterator hands out list each key of the map once.
pub proof fn lemma_entries_enumerate<V>(m: Map<u64, V>, pairs: Seq<(&u64, &V)>)
    requires
        pairs.no_duplicates(),
        forall|i: int|
            0 <= i < pairs.len() ==> m.contains_key(*(#[trigger] pairs[i]).0) && m[*pairs[i].0]
                == *pairs[i].1,
        forall|k: u64| #[trigger] m.contains_key(k) ==> pairs.contains((&k, &m[k])),
    ensures
        enumerates(entry_keys(pairs), m.dom()),
{
    let keys = entry_keys(pairs);
    assert forall|i: int, j: int| 0 <= i < keys.len() && 0 <= j < keys.len() && i != j implies keys[i]
        != keys[j] by {
        if keys[i] == keys[j] {
            assert(pairs[i] == pairs[j]);
        }
    }
    assert forall|k: u64| m.dom().contains(k) <==> keys.contains(k) by {
        if m.dom().contains(k) {
            let i = choose|i: int| 0 <= i < pairs.len() && pairs[i] == (&k, &m[k]);
            assert(keys[i] == k);
        }
        if keys.contains(k) {
            let i = choose|i: int| 0 <= i < keys.len() && keys[i] == k;
            assert(m.contains_key(*pairs[i].0));
        }
    }
}

/// The transactions of `txs` whose ids fall in range `r`, in their order.
pub open spec fn txs_in_range(txs: Seq<Transaction>, r: int) -> Seq<Transaction>
    decreases txs.len(),
{
    if txs.len() == 0 {
        Seq::empty()
    } else {
        let rest = txs_in_range(txs.drop_last(), r);
        if range_of(txs.last().id.0 as int) == r {
            rest.push(txs.last())
        } else {
            rest
        }
    }
}

/// Groups transactions by the range of their ids, keeping their order inside each group.
pub fn txs_to_range_tx_map(txs: Vec<Transaction>) -> (range_map: HashMap<u64, Vec<Transaction>>)
    ensures
        forall|r: u64| #[trigger]
            range_map@.contains_key(r) <==> txs_in_range(txs@, r as int).len() > 0,
        forall|r: u64| #[trigger]
            range_map@.contains_key(r) ==> range_map@[r]@ == txs_in_range(txs@, r as int),
{
    let mut range_map: HashMap<u64, Vec<Transaction>> = HashMap::new();
    let mut i: usize = 0;
    while i < txs.len()
        invariant
            i <= txs.len(),
            forall|r: u64| #[trigger]
                range_map@.contains_key(r) <==> txs_in_range(txs@.take(i as int), r as int).len()
                    > 0,
            forall|r: u64| #[trigger]
                range_map@.contains_key(r) ==> range_map@[r]@ == txs_in_range(
                    txs@.take(i as int),
                    r as int,
                ),
        decreases txs.len() - i,
    {
        let tx = txs[i];
        assert(txs@.take(i + 1).drop_last() =~= txs@.take(i as int));
        assert(txs@.take(i + 1).last() == tx);
        let range = range_from_unique_blob_id(tx.id);
        let bucket = match range_map.remove(&range.0) {
            Some(mut bucket) => {
                bucket.push(tx);
                bucket
            },
            None => {
                let mut bucket = Vec::new();
                bucket.push(tx);
                bucket
            },
        };
        range_map.insert(range.0, bucket);
        i = i + 1;
        proof {
            assert forall|r: u64| #[trigger]
                range_map@.contains_key(r) <==> txs_in_range(txs@.take(i as int), r as int).len()
                    > 0 by {
                if r != range.0 {
                    assert(txs_in_range(txs@.take(i as int), r as int) == txs_in_range(
                        txs@.take(i - 1),
                        r as int,
                    ));
                }
            }
            assert forall|r: u64| #[trigger] range_map@.contains_key(r) implies range_map@[r]@
                == txs_in_range(txs@.take(i as int), r as int) by {
                if r != range.0 {
                    assert(txs_in_range(txs@.take(i as int), r as int) == txs_in_range(
                        txs@.take(i - 1),
                        r as int,
                    ));
                } else {
                    assert(range_map@[r]@ =~= txs_in_range(txs@.take(i as int), r as int));
                }
            }
        }
    }
    assert(txs@.take(txs.len() as int) =~= txs@);
    range_map
}

/// The increment that an epoch commits for range `r`, whose consensus offset is `offset`: from
/// just after the committed offset (or from the start of the range) up to `offset`, both ends
/// included, when the consensus offset is past the committed one (or the range has nothing
/// committed yet).
pub open spec fn epoch_increment(committed: Map<u64, u64>, r: u64, offset: u64) -> Option<(int, int)> {
    let start = if committed.contains_key(r) {
        committed[r] + 1
    } else {
        0
    };
    if start > offset {
        None
    } else {
        Some((id_of(r as int, start), id_of(r as int, offset as int)))
    }
}

/// The increments of the ranges in `order`, in that order.
pub open spec fn epoch_increments(
    consensus: Map<u64, u64>,
    committed: Map<u64, u64>,
    order: Seq<u64>,
) -> Seq<(int, int)>
    decreases order.len(),
{
    if order.len() == 0 {
        Seq::empty()
    } else {
        let rest = epoch_increments(consensus, committed, order.drop_last());
        match epoch_increment(committed, order.last(), consensus[order.last()]) {
            Some(p) => rest.push(p),
            None => rest,
        }
    }
}

/// A pair of ids as plain integers.
pub open spec fn id_pair(p: (UniqueU64BlobId, UniqueU64BlobId)) -> (int, int) {
    (p.0.0 as int, p.1.0 as int)
}

/// A sequence of id pairs as plain integers.
pub open spec fn id_pairs(s: Seq<(UniqueU64BlobId, UniqueU64BlobId)>) -> Seq<(int, int)> {
    s.map_values(|p: (UniqueU64BlobId, UniqueU64BlobId)| id_pair(p))
}

/// Neither the start after a committed offset nor, where there is an increment, the id of the
/// consensus offset overflows.
pub open spec fn increments_computable(consensus: Map<u64, u64>, committed: Map<u64, u64>) -> bool {
    forall|r: u64| #[trigger]
        consensus.contains_key(r) ==> (committed.contains_key(r) ==> committed[r] < u64::MAX) && (
        epoch_increment(committed, r, consensus[r]) is Some ==> id_of(r as int, consensus[r] as int)
            <= u64::MAX)
}

/// The ids that a new epoch commits: for each range whose consensus offset is past what was
/// committed (or that has nothing committed), the interval from the first uncommitted id to the
/// consensus offset's id, both included. The
/// ranges come in the order in which the map hands them out.
pub fn calculate_epoch_increments(
    consensus_offset: &HashMap<u64, u64>,
    commited_offsets: &HashMap<u64, u64>,
) -> (increments: Vec<(UniqueU64BlobId, UniqueU64BlobId)>)
    requires
        increments_computable(consensus_offset@, commited_offsets@),
    ensures
        exists|order: Seq<u64>|
            enumerates(order, consensus_offset@.dom()) && id_pairs(increments@) == epoch_increments(
                consensus_offset@,
                commited_offsets@,
                order,
            ),
{
    let mut increments: Vec<(UniqueU64BlobId, UniqueU64BlobId)> = Vec::new();
    let entries = consensus_offset.iter();
    let ghost all = vstd::std_specs::iter::IteratorSpec::remaining(&entries);
    proof {
        lemma_entries_enumerate(consensus_offset@, all);
    }
    for (range, offset) in it: entries
        invariant
            it.seq() == all,
            increments_computable(consensus_offset@, commited_offsets@),
            forall|i: int|
                0 <= i < all.len() ==> consensus_offset@.contains_key(*(#[trigger] all[i]).0)
                    && consensus_offset@[*all[i].0] == *all[i].1,
            id_pairs(increments@) == epoch_increments(
                consensus_offset@,
                commited_offsets@,
                entry_keys(all).take(it.index()),
            ),
    {
        let ghost idx = it.index();
        assert(entry_keys(all).take(idx + 1).drop_last() =~= entry_keys(all).take(idx));
        assert(entry_keys(all).take(idx + 1).last() == *range);
        let r = *range;
        let off = *offset;
        let start: u64 = match commited_offsets.get(&r) {
            Some(prev) => *prev + 1,
            None => 0,
        };
        if start <= off {
            let first = unique_blob_id_from_range_and_offset(KeyRange(r), KeyOffset(start));
            let last = unique_blob_id_from_range_and_offset(KeyRange(r), KeyOffset(off));
            increments.push((first, last));
        }
        assert(id_pairs(increments@) =~= epoch_increments(
            consensus_offset@,
            commited_offsets@,
            entry_keys(all).take(idx + 1),
        ));
    }
    assert(entry_keys(all).take(all.len() as int) =~= entry_keys(all));
    increments
}

/// The stored transactions after inserting `txs` one after the other, each under its id.
pub open spec fn insert_txs(tm: Map<u64, Transaction>, txs: Seq<Transaction>) -> Map<u64, Transaction>
    decreases txs.len(),
{
    if txs.len() == 0 {
        tm
    } else {
        insert_txs(tm, txs.drop_last()).insert(txs.last().id.0, txs.last())
    }
}

/// The stored transaction with id `id_of(r, j)`, when there is one.
pub open spec fn stored_at(tm: Map<u64, Transaction>, r: u64, j: int) -> bool {
    tm.contains_key(id_of(r as int, j) as u64)
}

/// The last offset of the run of stored ids of range `r` that follows offset `off` without a
/// gap. The run ends at the last offset of the range at the latest.
pub open spec fn run_end(tm: Map<u64, Transaction>, r: u64, off: int) -> int
    decreases SINGLE_BLOB_SIZE - off,
{
    if 0 <= off && off + 1 < SINGLE_BLOB_SIZE && stored_at(tm, r, off + 1) {
        run_end(tm, r, off + 1)
    } else {
        off
    }
}

/// Some transaction of `txs` is the first of its range.
pub open spec fn has_first_of_range(txs: Seq<Transaction>) -> bool {
    exists|i: int| 0 <= i < txs.len() && offset_of((#[trigger] txs[i]).id.0 as int) == 0
}

/// What receiving the transactions `txs` of range `r` does to the node's own offsets and to
/// the stored transactions, and the offset it reports: the transactions are stored; a range
/// that has no offset yet gets one only when the first transaction of the range is there; the
/// range's offset then moves to the end of the run of stored ids of the range that follows it.
/// The new offset is reported only when the range had none or it differs from the old one.
pub open spec fn range_update(
    so: Map<u64, u64>,
    tm: Map<u64, Transaction>,
    r: u64,
    txs: Seq<Transaction>,
) -> (Map<u64, u64>, Map<u64, Transaction>, Option<(u64, u64)>) {
    let tm2 = insert_txs(tm, txs);
    if !so.contains_key(r) && !has_first_of_range(txs) {
        (so, tm2, None)
    } else {
        let start = if so.contains_key(r) {
            so[r]
        } else {
            0
        };
        let off = run_end(tm2, r, start as int) as u64;
        (
            so.insert(r, off),
            tm2,
            if so.contains_key(r) && so[r] == off {
                None
            } else {
                Some((r, off))
            },
        )
    }
}

/// The effect of receiving the groups of `input` in the order of `order`, with the offsets
/// that moved, in that order.
pub open spec fn range_updates(
    so: Map<u64, u64>,
    tm: Map<u64, Transaction>,
    input: Map<u64, Seq<Transaction>>,
    order: Seq<u64>,
) -> (Map<u64, u64>, Map<u64, Transaction>, Seq<(u64, u64)>)
    decreases order.len(),
{
    if order.len() == 0 {
        (so, tm, Seq::empty())
    } else {
        let (so1, tm1, ups) = range_updates(so, tm, input, order.drop_last());
        let (so2, tm2, u) = range_update(so1, tm1, order.last(), input[order.last()]);
        (
            so2,
            tm2,
            match u {
                Some(p) => ups.push(p),
                None => ups,
            },
        )
    }
}

/// The groups of transactions by range as plain values.
pub open spec fn groups(input: Map<u64, Vec<Transaction>>) -> Map<u64, Seq<Transaction>> {
    input.map_values(|v: Vec<Transaction>| v@)
}

/// A range and an offset as plain integers.
pub open spec fn range_offset_pair(p: (KeyRange, KeyOffset)) -> (u64, u64) {
    (p.0.0, p.1.0)
}

/// A sequence of ranges and offsets as plain integers.
pub open spec fn range_offset_pairs(s: Seq<(KeyRange, KeyOffset)>) -> Seq<(u64, u64)> {
    s.map_values(|p: (KeyRange, KeyOffset)| range_offset_pair(p))
}

/// Receiving transactions keeps the offset of every range it does not touch.
pub proof fn lemma_range_updates_keep_others(
    so: Map<u64, u64>,
    tm: Map<u64, Transaction>,
    input: Map<u64, Seq<Transaction>>,
    order: Seq<u64>,
    k: u64,
)
    requires
        !order.contains(k),
    ensures
        range_updates(so, tm, input, order).0.contains_key(k) == so.contains_key(k),
        so.contains_key(k) ==> range_updates(so, tm, input, order).0[k] == so[k],
    decreases order.len(),
{
    if order.len() > 0 {
        assert(!order.drop_last().contains(k)) by {
            if order.drop_last().contains(k) {
                let i = choose|i: int| 0 <= i < order.drop_last().len() && order.drop_last()[i] == k;
                assert(order[i] == k);
            }
        }
        lemma_range_updates_keep_others(so, tm, input, order.drop_last(), k);
    }
}


/// Each range whose offset is computed (it has one, or it is given its first transaction) is a
/// range of the id space, and an offset it already has lies inside the range.
pub open spec fn updates_computable(so: Map<u64, u64>, input: Map<u64, Seq<Transaction>>) -> bool {
    forall|r: u64| #[trigger]
        input.contains_key(r) && (so.contains_key(r) || has_first_of_range(input[r])) ==> r
            <= MAX_BLOCK_INDEX && (so.contains_key(r) ==> so[r] < SINGLE_BLOB_SIZE)
}

/// Every range that has an offset is a range of the id space, and its offset lies inside it.
pub open spec fn offsets_in_range(so: Map<u64, u64>) -> bool {
    forall|r: u64| #[trigger] so.contains_key(r) ==> r <= MAX_BLOCK_INDEX && so[r] < SINGLE_BLOB_SIZE
}

/// `ups` lists, each range at most once, exactly the ranges whose offset in `new` is not the
/// one they had in `old` (or that had none), with their new offset.
pub open spec fn reports_moves(old: Map<u64, u64>, new: Map<u64, u64>, ups: Seq<(u64, u64)>) -> bool {
    &&& forall|i: int, j: int| 0 <= i < j < ups.len() ==> (#[trigger] ups[i]).0 != (#[trigger] ups[j]).0
    &&& forall|r: u64, o: u64|
        #[trigger] ups.contains((r, o)) <==> (new.contains_key(r) && new[r] == o && !(
        old.contains_key(r) && old[r] == o))
}

/// Offsets only move forward: every range keeps an offset no smaller than it had; the ranges
/// of `dom` end with an offset inside the range; the others keep what they had.
pub open spec fn offsets_advance(old: Map<u64, u64>, new: Map<u64, u64>, dom: Set<u64>) -> bool {
    &&& forall|r: u64| #[trigger] old.contains_key(r) ==> new.contains_key(r) && new[r] >= old[r]
    &&& forall|r: u64| #[trigger]
        new.contains_key(r) ==> (dom.contains(r) ==> new[r] < SINGLE_BLOB_SIZE) && (!dom.contains(r)
            ==> old.contains_key(r) && new[r] == old[r])
}

/// Stores the transactions of each range, and moves the node's own offset of each range to the
/// end of the run of stored transactions of the range that follows it. A range without an
/// offset gets one only once its first transaction is there. Returns the offsets that changed
/// (or that a range got for the first time), in the order in which the map hands the ranges
/// out.
pub fn update_self_offsets(
    self_offsets: &mut HashMap<u64, u64>,
    transactions: &mut HashMap<u64, Transaction>,
    range_transactions: HashMap<u64, Vec<Transaction>>,
) -> (updates: Vec<(KeyRange, KeyOffset)>)
    requires
        updates_computable(old(self_offsets)@, groups(range_transactions@)),
    ensures
        exists|order: Seq<u64>|
            enumerates(order, range_transactions@.dom()) && (
            final(self_offsets)@,
            final(transactions)@,
            range_offset_pairs(updates@),
        ) == range_updates(
                old(self_offsets)@,
                old(transactions)@,
                groups(range_transactions@),
                order,
            ),
        reports_moves(old(self_offsets)@, final(self_offsets)@, range_offset_pairs(updates@)),
        offsets_advance(old(self_offsets)@, final(self_offsets)@, range_transactions@.dom()),
        contiguous(old(self_offsets)@, old(transactions)@) && filed_by_range(groups(range_transactions@))
            ==> contiguous(final(self_offsets)@, final(transactions)@),
{
    let ghost input = groups(range_transactions@);
    let ghost so0 = self_offsets@;
    let ghost tm0 = transactions@;
    let mut updates: Vec<(KeyRange, KeyOffset)> = Vec::new();
    let entries = range_transactions.iter();
    let ghost all = vstd::std_specs::iter::IteratorSpec::remaining(&entries);
    proof {
        lemma_entries_enumerate(range_transactions@, all);
    }
    for (range, txs) in it: entries
        invariant
            it.seq() == all,
            input == groups(range_transactions@),
            updates_computable(so0, input),
            enumerates(entry_keys(all), range_transactions@.dom()),
            forall|i: int|
                0 <= i < all.len() ==> range_transactions@.contains_key(*(#[trigger] all[i]).0)
                    && range_transactions@[*all[i].0] == *all[i].1,
            (self_offsets@, transactions@, range_offset_pairs(updates@)) == range_updates(
                so0,
                tm0,
                input,
                entry_keys(all).take(it.index()),
            ),
    {
        let ghost idx = it.index();
        let ghost done = entry_keys(all).take(idx);
        assert(entry_keys(all).take(idx + 1).drop_last() =~= done);
        assert(entry_keys(all).take(idx + 1).last() == *range);
        let r = *range;
        proof {
            assert(!done.contains(r)) by {
                if done.contains(r) {
                    let j = choose|j: int| 0 <= j < done.len() && done[j] == r;
                    assert(entry_keys(all)[j] == entry_keys(all)[idx as int]);
                }
            }
            lemma_range_updates_keep_others(so0, tm0, input, done, r);
            assert(range_transactions@.contains_key(r));
            assert(input.contains_key(r));
            assert(input[r] == txs@);
        }
        let ghost tm_before = transactions@;
        let mut has_first = false;
        let mut j: usize = 0;
        while j < txs.len()
            invariant
                j <= txs.len(),
                transactions@ == insert_txs(tm_before, txs@.take(j as int)),
                has_first == has_first_of_range(txs@.take(j as int)),
            decreases txs.len() - j,
        {
            let tx = txs[j];
            assert(txs@.take(j + 1).drop_last() =~= txs@.take(j as int));
            assert(txs@.take(j + 1).last() == tx);
            let (_, offset) = range_offset_from_unique_blob_id(tx.id);
            transactions.insert(tx.id.0, tx);
            if offset.0 == 0 {
                has_first = true;
            }
            j = j + 1;
            proof {
                let t = txs@.take(j as int);
                if has_first_of_range(t.drop_last()) {
                    let k = choose|k: int| 0 <= k < t.drop_last().len() && offset_of((#[trigger] t.drop_last()[k]).id.0 as int) == 0;
                    assert(t[k] == t.drop_last()[k]);
                }
                if offset.0 == 0 {
                    assert(t[j - 1] == tx);
                }
                if has_first_of_range(t) {
                    let k = choose|k: int| 0 <= k < t.len() && offset_of((#[trigger] t[k]).id.0 as int) == 0;
                    if k < t.len() - 1 {
                        assert(t.drop_last()[k] == t[k]);
                    }
                }
            }
        }
        assert(txs@.take(txs.len() as int) =~= txs@);
        let existing: Option<u64> = match self_offsets.get(&r) {
            Some(e) => Some(*e),
            None => None,
        };
        let start: Option<u64> = match existing {
            Some(e) => Some(e),
            None => {
                if has_first {
                    self_offsets.insert(r, 0);
                    Some(0)
                } else {
                    None
                }
            },
        };
        if let Some(start) = start {
            let mut off: u64 = start;
            let mut key: u64 = unique_blob_id_from_range_and_offset(KeyRange(r), KeyOffset(start)).0;
            while off + 1 < SINGLE_BLOB_SIZE && transactions.contains_key(&(key + 1))
                invariant
                    start <= off < SINGLE_BLOB_SIZE,
                    r <= MAX_BLOCK_INDEX,
                    key == id_of(r as int, off as int),
                    run_end(transactions@, r, off as int) == run_end(transactions@, r, start as int),
                decreases SINGLE_BLOB_SIZE - off,
            {
                assert(id_of(r as int, off + 1) == key + 1);
                off = off + 1;
                key = key + 1;
            }
            assert(off + 1 < SINGLE_BLOB_SIZE ==> id_of(r as int, off + 1) == key + 1);
            self_offsets.insert(r, off);
            let moved = match existing {
                Some(e) => e != off,
                None => true,
            };
            if moved {
                updates.push((KeyRange(r), KeyOffset(off)));
            }
        }
        assert((self_offsets@, transactions@, range_offset_pairs(updates@)) =~= range_updates(
            so0,
            tm0,
            input,
            entry_keys(all).take(idx + 1),
        ));
    }
    assert(entry_keys(all).take(all.len() as int) =~= entry_keys(all));
    proof {
        let order = entry_keys(all);
        assert forall|i: int| 0 <= i < order.len() implies input.contains_key(#[trigger] order[i]) by {
            assert(order.contains(order[i]));
        }
        lemma_range_updates_moves(so0, tm0, input, order);
        assert(order.to_set() =~= range_transactions@.dom());
        if contiguous(so0, tm0) && filed_by_range(input) {
            lemma_range_updates_contiguous(so0, tm0, input, order);
        }
    }
    updates
}

/// Stores one transaction and moves the node's own offset of its range as
/// `update_self_offsets` does; returns the new offset when it changed (or the range got its
/// first one).
pub fn update_self_offset(
    self_offsets: &mut HashMap<u64, u64>,
    transactions: &mut HashMap<u64, Transaction>,
    tx: Transaction,
) -> (update: Option<(KeyRange, KeyOffset)>)
    requires
        updates_computable(old(self_offsets)@, map![range_of(tx.id.0 as int) as u64 => seq![tx]]),
    ensures
        (
            final(self_offsets)@,
            final(transactions)@,
            match update {
                Some(p) => Some(range_offset_pair(p)),
                None => None,
            },
        ) == range_update(
            old(self_offsets)@,
            old(transactions)@,
            range_of(tx.id.0 as int) as u64,
            seq![tx],
        ),
        contiguous(old(self_offsets)@, old(transactions)@) ==> contiguous(
            final(self_offsets)@,
            final(transactions)@,
        ),
{
    let ghost r = range_of(tx.id.0 as int) as u64;
    proof {
        assert(map![r => seq![tx]].contains_key(r));
        if contiguous(self_offsets@, transactions@) {
            lemma_range_update_contiguous(self_offsets@, transactions@, r, seq![tx]);
        }
    }
    let mut txs: Vec<Transaction> = Vec::new();
    txs.push(tx);
    assert(txs@ =~= seq![tx]);
    assert(range_of(tx.id.0 as int) <= MAX_BLOCK_INDEX);
    assert(txs_in_range(txs@, r as int) =~= seq![tx]) by {
        assert(txs@.drop_last() =~= Seq::<Transaction>::empty());
        reveal_with_fuel(txs_in_range, 2);
    };
    let range_map = txs_to_range_tx_map(txs);
    proof {
        assert forall|k: u64| #[trigger] range_map@.contains_key(k) implies k == r by {
            if k != r {
                assert(txs_in_range(txs@, k as int) =~= Seq::<Transaction>::empty()) by {
                    assert(txs@.drop_last() =~= Seq::<Transaction>::empty());
                    reveal_with_fuel(txs_in_range, 2);
                }
            }
        }
        assert(groups(range_map@) =~= map![r => seq![tx]]);
    }
    let mut updates = update_self_offsets(self_offsets, transactions, range_map);
    proof {
        let order = choose|order: Seq<u64>|
            enumerates(order, range_map@.dom()) && (
            self_offsets@,
            transactions@,
            range_offset_pairs(updates@),
        ) == range_updates(
                old(self_offsets)@,
                old(transactions)@,
                groups(range_map@),
                order,
            );
        assert(order.contains(r));
        assert(order =~= seq![r]) by {
            assert forall|i: int| 0 <= i < order.len() implies order[i] == r by {
                assert(order.contains(order[i]));
            }
            if order.len() > 1 {
                assert(order[0] == order[1]);
            }
        }
        assert(order.drop_last() =~= Seq::<u64>::empty());
        assert(groups(range_map@)[r] == seq![tx]);
        let ru = range_update(old(self_offsets)@, old(transactions)@, r, seq![tx]);
        assert(range_updates(old(self_offsets)@, old(transactions)@, groups(range_map@), order) == (
            ru.0,
            ru.1,
            match ru.2 {
                Some(p) => seq![p],
                None => Seq::<(u64, u64)>::empty(),
            },
        )) by {
            reveal_with_fuel(range_updates, 2);
            assert(Seq::<(u64, u64)>::empty().push((0u64, 0u64)) =~= seq![(0u64, 0u64)]);
            if let Some(p) = ru.2 {
                assert(Seq::<(u64, u64)>::empty().push(p) =~= seq![p]);
            }
        }
        assert(range_offset_pairs(updates@).len() == updates@.len());
        if updates@.len() > 0 {
            assert(range_offset_pairs(updates@)[0] == range_offset_pair(updates@[0]));
        }
    }
    let ghost ups = updates@;
    if updates.len() == 0 {
        None
    } else {
        let last = updates.pop();
        assert(last == Some(ups[0]));
        last
    }
}


/// The run of stored ids that follows an offset inside a range ends inside the range, not
/// before the offset; every id after the offset up to the end is stored, and the id after the
/// end is not, unless the end is the last offset of the range.
pub proof fn lemma_run_end(tm: Map<u64, Transaction>, r: u64, off: int)
    requires
        0 <= off < SINGLE_BLOB_SIZE,
    ensures
        off <= run_end(tm, r, off) < SINGLE_BLOB_SIZE,
        forall|j: int| off < j <= run_end(tm, r, off) ==> #[trigger] stored_at(tm, r, j),
        run_end(tm, r, off) + 1 == SINGLE_BLOB_SIZE || !stored_at(tm, r, run_end(tm, r, off) + 1),
    decreases SINGLE_BLOB_SIZE - off,
{
    if off + 1 < SINGLE_BLOB_SIZE && stored_at(tm, r, off + 1) {
        lemma_run_end(tm, r, off + 1);
    }
}

/// Receiving the transactions of range `r` touches only the offset of `r`: it moves forward
/// and stays inside the range, and it is reported exactly when it is new or changed.
pub proof fn lemma_range_update_moves(
    so: Map<u64, u64>,
    tm: Map<u64, Transaction>,
    r: u64,
    txs: Seq<Transaction>,
)
    requires
        so.contains_key(r) ==> so[r] < SINGLE_BLOB_SIZE,
    ensures
        ({
            let (so2, tm2, u) = range_update(so, tm, r, txs);
            &&& so2.contains_key(r) ==> so2[r] < SINGLE_BLOB_SIZE
            &&& so.contains_key(r) ==> so2.contains_key(r) && so2[r] >= so[r]
            &&& forall|q: u64|
                q != r ==> (#[trigger] so2.contains_key(q) == so.contains_key(q) && (so.contains_key(q)
                    ==> so2[q] == so[q]))
            &&& match u {
                Some(p) => p.0 == r && so2.contains_key(r) && so2[r] == p.1 && !(so.contains_key(r)
                    && so[r] == p.1),
                None => so2.contains_key(r) == so.contains_key(r) && (so.contains_key(r) ==> so2[r]
                    == so[r]),
            }
        }),
{
    let tm2 = insert_txs(tm, txs);
    if so.contains_key(r) || has_first_of_range(txs) {
        let start = if so.contains_key(r) {
            so[r]
        } else {
            0
        };
        lemma_run_end(tm2, r, start as int);
    }
}

/// Receiving groups of transactions, each range once, reports exactly the offsets that are new
/// or changed, each range once, and only moves offsets forward, inside their ranges.
pub proof fn lemma_range_updates_moves(
    so: Map<u64, u64>,
    tm: Map<u64, Transaction>,
    input: Map<u64, Seq<Transaction>>,
    order: Seq<u64>,
)
    requires
        order.no_duplicates(),
        forall|i: int| 0 <= i < order.len() ==> input.contains_key(#[trigger] order[i]),
        updates_computable(so, input),
    ensures
        reports_moves(so, range_updates(so, tm, input, order).0, range_updates(so, tm, input, order).2),
        offsets_advance(so, range_updates(so, tm, input, order).0, order.to_set()),
    decreases order.len(),
{
    if order.len() == 0 {
        assert(order.to_set() =~= Set::<u64>::empty());
    } else {
        let o1 = order.drop_last();
        let x = order.last();
        assert(order[order.len() - 1] == x);
        assert(o1.no_duplicates()) by {
            assert forall|i: int, j: int| 0 <= i < o1.len() && 0 <= j < o1.len() && i != j implies o1[i]
                != o1[j] by {
                assert(o1[i] == order[i] && o1[j] == order[j]);
            }
        }
        assert forall|i: int| 0 <= i < o1.len() implies input.contains_key(#[trigger] o1[i]) by {
            assert(o1[i] == order[i]);
        }
        assert(!o1.contains(x)) by {
            if o1.contains(x) {
                let j = choose|j: int| 0 <= j < o1.len() && o1[j] == x;
                assert(order[j] == order[order.len() - 1]);
            }
        }
        lemma_range_updates_moves(so, tm, input, o1);
        lemma_range_updates_keep_others(so, tm, input, o1, x);
        let prev = range_updates(so, tm, input, o1);
        assert(input.contains_key(x));
        lemma_range_update_moves(prev.0, prev.1, x, input[x]);
        let (so2, tm2, u) = range_update(prev.0, prev.1, x, input[x]);
        let ups = range_updates(so, tm, input, order).2;
        assert(range_updates(so, tm, input, order).0 == so2);
        assert forall|o: u64| !prev.2.contains((x, o)) by {
            if prev.2.contains((x, o)) {
                assert(prev.0.contains_key(x) && prev.0[x] == o);
            }
        }
        assert forall|i: int, j: int| 0 <= i < j < ups.len() implies (#[trigger] ups[i]).0
            != (#[trigger] ups[j]).0 by {
            if j < prev.2.len() {
                assert(ups[i] == prev.2[i] && ups[j] == prev.2[j]);
            } else {
                assert(ups[i] == prev.2[i]);
                assert(prev.2.contains(prev.2[i]));
                assert(prev.2[i] == (prev.2[i].0, prev.2[i].1));
            }
        }
        assert forall|q: u64, o: u64| #[trigger] ups.contains((q, o)) <==> (so2.contains_key(q)
            && so2[q] == o && !(so.contains_key(q) && so[q] == o)) by {
            if ups.contains((q, o)) && !prev.2.contains((q, o)) {
                let k = choose|k: int| 0 <= k < ups.len() && ups[k] == (q, o);
                if k < prev.2.len() {
                    assert(prev.2[k] == ups[k]);
                }
            }
            if prev.2.contains((q, o)) {
                let k = choose|k: int| 0 <= k < prev.2.len() && prev.2[k] == (q, o);
                assert(ups[k] == prev.2[k]);
            }
            if u is Some && q == x && so2[q] == o {
                assert(ups[ups.len() - 1] == (q, o));
            }
        }
        assert forall|q: u64| #[trigger] so.contains_key(q) implies so2.contains_key(q) && so2[q] >= so[q] by {
            if q != x {
                assert(prev.0.contains_key(q));
            }
        }
        assert forall|q: u64| #[trigger] so2.contains_key(q) implies (order.to_set().contains(q) ==> so2[q]
            < SINGLE_BLOB_SIZE) && (!order.to_set().contains(q) ==> so.contains_key(q) && so2[q] == so[q]) by {
            if q != x {
                assert(prev.0.contains_key(q));
                if o1.contains(q) {
                    let k = choose|k: int| 0 <= k < o1.len() && o1[k] == q;
                    assert(order[k] == q);
                } else if order.contains(q) {
                    let k = choose|k: int| 0 <= k < order.len() && order[k] == q;
                    assert(k < o1.len());
                    assert(o1[k] == q);
                }
                assert(o1.to_set().contains(q) == o1.contains(q));
            } else {
                assert(order.contains(x));
            }
        }
    }
}

/// For every range of the id space: the range has an offset exactly when its first id is
/// stored; every id of the range up to the offset is stored; and the id of the range just after
/// the offset is not (unless the offset is the range's last).
pub open spec fn contiguous(so: Map<u64, u64>, tm: Map<u64, Transaction>) -> bool {
    &&& forall|r: u64|
        #![trigger so.contains_key(r)]
        #![trigger stored_at(tm, r, 0)]
        r <= MAX_BLOCK_INDEX ==> (so.contains_key(r) <==> stored_at(tm, r, 0))
    &&& forall|r: u64, j: int|
        #![trigger stored_at(tm, r, j)]
        r <= MAX_BLOCK_INDEX && so.contains_key(r) && 0 <= j <= so[r] && j < SINGLE_BLOB_SIZE
            ==> stored_at(tm, r, j)
    &&& forall|r: u64| #[trigger]
        so.contains_key(r) ==> (r <= MAX_BLOCK_INDEX && so[r] + 1 < SINGLE_BLOB_SIZE ==> !stored_at(
            tm,
            r,
            so[r] + 1,
        ))
}

/// The transactions of each group lie in the group's range.
pub open spec fn filed_by_range(input: Map<u64, Seq<Transaction>>) -> bool {
    forall|r: u64| #[trigger]
        input.contains_key(r) ==> forall|i: int|
            0 <= i < input[r].len() ==> range_of((#[trigger] input[r][i]).id.0 as int) == r
}

/// The ids stored after inserting `txs` are the ids stored before and the ids of `txs`.
pub proof fn lemma_insert_txs_keys(tm: Map<u64, Transaction>, txs: Seq<Transaction>)
    ensures
        forall|k: u64| #[trigger]
            insert_txs(tm, txs).contains_key(k) <==> (tm.contains_key(k) || exists|i: int|
                0 <= i < txs.len() && (#[trigger] txs[i]).id.0 == k),
    decreases txs.len(),
{
    if txs.len() > 0 {
        let t1 = txs.drop_last();
        lemma_insert_txs_keys(tm, t1);
        assert forall|k: u64| #[trigger]
            insert_txs(tm, txs).contains_key(k) <==> (tm.contains_key(k) || exists|i: int|
                0 <= i < txs.len() && (#[trigger] txs[i]).id.0 == k) by {
            assert(insert_txs(tm, txs) == insert_txs(tm, t1).insert(txs.last().id.0, txs.last()));
            assert(insert_txs(tm, t1).contains_key(k) <==> (tm.contains_key(k) || exists|i: int|
                0 <= i < t1.len() && (#[trigger] t1[i]).id.0 == k));
            if exists|i: int| 0 <= i < t1.len() && (#[trigger] t1[i]).id.0 == k {
                let i = choose|i: int| 0 <= i < t1.len() && (#[trigger] t1[i]).id.0 == k;
                assert(txs[i] == t1[i]);
            }
            if exists|i: int| 0 <= i < txs.len() && (#[trigger] txs[i]).id.0 == k {
                let i = choose|i: int| 0 <= i < txs.len() && (#[trigger] txs[i]).id.0 == k;
                if i < t1.len() {
                    assert(t1[i] == txs[i]);
                } else {
                    assert(txs.last() == txs[i]);
                }
            }
            assert(txs.last() == txs[txs.len() - 1]);
        }
    }
}

/// Inside a range of the id space, an offset names exactly one id, and that id lies in the range.
proof fn lemma_stored_at_id(q: u64, j: int)
    requires
        q <= MAX_BLOCK_INDEX,
        0 <= j < SINGLE_BLOB_SIZE,
    ensures
        0 <= id_of(q as int, j) <= u64::MAX,
        range_of(id_of(q as int, j)) == q,
        offset_of(id_of(q as int, j)) == j,
        (id_of(q as int, j) as u64) as int == id_of(q as int, j),
{
    lemma_join_split(q, j as u64);
}

/// Receiving transactions of range `r`, all of them in `r`, keeps the offsets contiguous.
pub proof fn lemma_range_update_contiguous(
    so: Map<u64, u64>,
    tm: Map<u64, Transaction>,
    r: u64,
    txs: Seq<Transaction>,
)
    requires
        contiguous(so, tm),
        so.contains_key(r) || has_first_of_range(txs) ==> r <= MAX_BLOCK_INDEX && (so.contains_key(r)
            ==> so[r] < SINGLE_BLOB_SIZE),
        forall|i: int| 0 <= i < txs.len() ==> range_of((#[trigger] txs[i]).id.0 as int) == r,
    ensures
        contiguous(range_update(so, tm, r, txs).0, range_update(so, tm, r, txs).1),
{
    lemma_insert_txs_keys(tm, txs);
    let tm2 = insert_txs(tm, txs);
    let so2 = range_update(so, tm, r, txs).0;
    assert(range_update(so, tm, r, txs).1 == tm2);
    if r > MAX_BLOCK_INDEX {
        if txs.len() > 0 {
            assert(range_of(txs[0].id.0 as int) == r);
        }
        assert(tm2 =~= tm);
        assert(so2 == so);
        return;
    }
    assert forall|q: u64, j: int|
        q <= MAX_BLOCK_INDEX && 0 <= j < SINGLE_BLOB_SIZE implies (#[trigger] stored_at(tm2, q, j)
        == (stored_at(tm, q, j) || (q == r && exists|i: int|
            0 <= i < txs.len() && (#[trigger] txs[i]).id.0 == id_of(q as int, j)))) by {
        lemma_stored_at_id(q, j);
        let k = id_of(q as int, j) as u64;
        if exists|i: int| 0 <= i < txs.len() && (#[trigger] txs[i]).id.0 == k {
            let i = choose|i: int| 0 <= i < txs.len() && (#[trigger] txs[i]).id.0 == k;
            assert(range_of(txs[i].id.0 as int) == r);
        }
    }
    if so.contains_key(r) || has_first_of_range(txs) {
        let start: u64 = if so.contains_key(r) {
            so[r]
        } else {
            0
        };
        if !so.contains_key(r) {
            let i = choose|i: int| 0 <= i < txs.len() && offset_of((#[trigger] txs[i]).id.0 as int) == 0;
            lemma_stored_at_id(r, 0);
            assert(range_of(txs[i].id.0 as int) == r);
            assert(txs[i].id.0 == id_of(r as int, 0));
            assert(stored_at(tm2, r, 0));
        }
        lemma_run_end(tm2, r, start as int);
        let e = run_end(tm2, r, start as int);
        assert(so2 == so.insert(r, e as u64));
        assert forall|q: u64, j: int|
            q <= MAX_BLOCK_INDEX && so2.contains_key(q) && 0 <= j <= so2[q] && j < SINGLE_BLOB_SIZE implies #[trigger] stored_at(
            tm2,
            q,
            j,
        ) by {
            if q != r {
                assert(so.contains_key(q));
            } else if j <= start {
                if so.contains_key(r) {
                    assert(stored_at(tm, r, j));
                }
            }
        }
        assert forall|q: u64| #[trigger] so2.contains_key(q) && q <= MAX_BLOCK_INDEX && so2[q] + 1
            < SINGLE_BLOB_SIZE implies !stored_at(tm2, q, so2[q] + 1) by {
            if q != r {
                assert(so.contains_key(q));
            }
        }
        assert forall|q: u64| q <= MAX_BLOCK_INDEX implies (#[trigger] so2.contains_key(q) <==> stored_at(
            tm2,
            q,
            0,
        )) by {
            if q != r {
                assert(so.contains_key(q) <==> stored_at(tm, q, 0));
            }
        }
        assert forall|q: u64| #[trigger] stored_at(tm2, q, 0) && q <= MAX_BLOCK_INDEX implies so2.contains_key(q) by {
            if q != r {
                assert(so.contains_key(q) <==> stored_at(tm, q, 0));
            }
        }
    } else {
        assert(so2 == so);
        assert(!stored_at(tm2, r, 0)) by {
            lemma_stored_at_id(r, 0);
            if exists|i: int| 0 <= i < txs.len() && (#[trigger] txs[i]).id.0 == id_of(r as int, 0) {
                let i = choose|i: int| 0 <= i < txs.len() && (#[trigger] txs[i]).id.0 == id_of(r as int, 0);
                assert(offset_of(txs[i].id.0 as int) == 0);
            }
        }
        assert forall|q: u64, j: int|
            q <= MAX_BLOCK_INDEX && so2.contains_key(q) && 0 <= j <= so2[q] && j < SINGLE_BLOB_SIZE implies #[trigger] stored_at(
            tm2,
            q,
            j,
        ) by {
            assert(stored_at(tm, q, j));
        }
        assert forall|q: u64| #[trigger] so2.contains_key(q) && q <= MAX_BLOCK_INDEX && so2[q] + 1
            < SINGLE_BLOB_SIZE implies !stored_at(tm2, q, so2[q] + 1) by {
            assert(q != r);
        }
        assert forall|q: u64| #[trigger] stored_at(tm2, q, 0) && q <= MAX_BLOCK_INDEX implies so2.contains_key(q) by {
            if q != r {
                assert(so.contains_key(q) <==> stored_at(tm, q, 0));
            }
        }
    }
}

/// Offsets stay contiguous while groups of transactions are received, each group filed under
/// its range: every range with an offset has all its ids up to the offset stored and the next
/// one missing, and a range has an offset exactly when its first id is stored.
pub proof fn lemma_range_updates_contiguous(
    so: Map<u64, u64>,
    tm: Map<u64, Transaction>,
    input: Map<u64, Seq<Transaction>>,
    order: Seq<u64>,
)
    requires
        contiguous(so, tm),
        filed_by_range(input),
        updates_computable(so, input),
        order.no_duplicates(),
        forall|i: int| 0 <= i < order.len() ==> input.contains_key(#[trigger] order[i]),
    ensures
        contiguous(range_updates(so, tm, input, order).0, range_updates(so, tm, input, order).1),
    decreases order.len(),
{
    if order.len() > 0 {
        let o1 = order.drop_last();
        let x = order.last();
        assert(order[order.len() - 1] == x);
        assert forall|i: int| 0 <= i < o1.len() implies input.contains_key(#[trigger] o1[i]) by {
            assert(o1[i] == order[i]);
        }
        assert(o1.no_duplicates()) by {
            assert forall|i: int, j: int| 0 <= i < o1.len() && 0 <= j < o1.len() && i != j implies o1[i]
                != o1[j] by {
                assert(o1[i] == order[i] && o1[j] == order[j]);
            }
        }
        assert(!o1.contains(x)) by {
            if o1.contains(x) {
                let j = choose|j: int| 0 <= j < o1.len() && o1[j] == x;
                assert(order[j] == order[order.len() - 1]);
            }
        }
        lemma_range_updates_contiguous(so, tm, input, o1);
        lemma_range_updates_keep_others(so, tm, input, o1, x);
        let prev = range_updates(so, tm, input, o1);
        assert(input.contains_key(x));
        lemma_range_update_contiguous(prev.0, prev.1, x, input[x]);
    }
}

/// The transactions of range `r` are transactions of `txs` whose ids fall in `r`.
pub proof fn lemma_txs_in_range_members(txs: Seq<Transaction>, r: int)
    ensures
        forall|i: int|
            0 <= i < txs_in_range(txs, r).len() ==> range_of((#[trigger] txs_in_range(txs, r)[i]).id.0 as int)
                == r && txs.contains(txs_in_range(txs, r)[i]),
    decreases txs.len(),
{
    if txs.len() > 0 {
        lemma_txs_in_range_members(txs.drop_last(), r);
        let rest = txs_in_range(txs.drop_last(), r);
        assert forall|i: int| 0 <= i < txs_in_range(txs, r).len() implies range_of(
            (#[trigger] txs_in_range(txs, r)[i]).id.0 as int,
        ) == r && txs.contains(txs_in_range(txs, r)[i]) by {
            if i < rest.len() {
                assert(txs_in_range(txs, r)[i] == rest[i]);
                let j = choose|j: int| 0 <= j < txs.drop_last().len() && txs.drop_last()[j] == rest[i];
                assert(txs[j] == rest[i]);
            } else {
                assert(txs[txs.len() - 1] == txs.last());
            }
        }
    }
}


} // verus!
