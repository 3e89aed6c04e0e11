use vstd::prelude::*;
use std::collections::HashMap;
use crate::offsets::{entry_keys, enumerates, id_pairs, lemma_entries_enumerate};
use crate::peer::{PeerEntry, PeerId, PeerKey, PeerOffsets, set_peer};
use crate::range_key::{KeyOffset, KeyRange, UniqueU64BlobId, id_of, unique_blob_id_from_range_and_offset};
use crate::transaction::Transaction;

verus! {

broadcast use vstd::std_specs::hash::group_hash_axioms;

/// Every range's peer offsets have one entry per peer.
pub open spec fn offsets_wf(m: Map<u64, PeerOffsets>) -> bool {
    forall|r: u64| #[trigger] m.contains_key(r) ==> m[r].wf()
}

/// The peer entries of every range as plain values.
pub open spec fn offsets_view(m: Map<u64, PeerOffsets>) -> Map<u64, Seq<PeerEntry>> {
    m.map_values(|p: PeerOffsets| p@)
}

/// The peer entries of range `r` in a plain map, none when the range is unknown.
pub open spec fn entries_of(m: Map<u64, Seq<PeerEntry>>, r: u64) -> Seq<PeerEntry> {
    if m.contains_key(r) {
        m[r]
    } else {
        Seq::empty()
    }
}

/// The peer entries after `peer` reached offset `o` in range `r`.
pub open spec fn move_pointer(m: Map<u64, Seq<PeerEntry>>, peer: PeerKey, r: u64, o: u64) -> Map<
    u64,
    Seq<PeerEntry>,
> {
    m.insert(r, set_peer(entries_of(m, r), peer, o))
}

/// Records that `peer_id` has reached `new_offset` in `new_range`.
pub fn move_offset_pointer(
    offsets: &mut HashMap<u64, PeerOffsets>,
    peer_id: PeerId,
    new_range: KeyRange,
    new_offset: KeyOffset,
)
    requires
        offsets_wf(old(offsets)@),
    ensures
        offsets_wf(final(offsets)@),
        offsets_view(final(offsets)@) == move_pointer(
            offsets_view(old(offsets)@),
            peer_id@,
            new_range.0,
            new_offset.0,
        ),
{
    let ghost k = peer_id@;
    match offsets.remove(&new_range.0) {
        Some(mut in_map) => {
            in_map.set(peer_id, new_offset);
            offsets.insert(new_range.0, in_map);
        },
        None => {
            let in_map = PeerOffsets::single(peer_id, new_offset);
            offsets.insert(new_range.0, in_map);
            assert(set_peer(Seq::<PeerEntry>::empty(), k, new_offset.0) =~= in_map@);
        },
    }
    assert(offsets_view(final(offsets)@) =~= move_pointer(
        offsets_view(old(offsets)@),
        k,
        new_range.0,
        new_offset.0,
    ));
}

/// The index of the entry with the largest offset; the last such entry when several have it.
pub open spec fn last_max_index(s: Seq<PeerEntry>) -> int
    decreases s.len(),
{
    if s.len() <= 1 {
        0
    } else {
        let j = last_max_index(s.drop_last());
        if s.last().1 >= s[j].1 {
            s.len() - 1
        } else {
            j
        }
    }
}

/// The entry chosen in a range has the largest offset of the range, and it is the last entry
/// with that offset: every entry's offset is at most the chosen one's, and every later entry's
/// is smaller.
pub proof fn lemma_last_max_index(s: Seq<PeerEntry>)
    requires
        s.len() > 0,
    ensures
        0 <= last_max_index(s) < s.len(),
        forall|j: int| 0 <= j < s.len() ==> (#[trigger] s[j]).1 <= s[last_max_index(s)].1,
        forall|j: int| last_max_index(s) < j < s.len() ==> (#[trigger] s[j]).1 < s[last_max_index(s)].1,
    decreases s.len(),
{
    if s.len() > 1 {
        let t = s.drop_last();
        lemma_last_max_index(t);
        let k = last_max_index(t);
        assert(s[k] == t[k]);
        assert forall|j: int| 0 <= j < s.len() - 1 implies #[trigger] s[j] == t[j] by {}
        assert(s.last() == s[s.len() - 1]);
    }
}

/// The maximal runs of ids of range `r` that are not stored, scanning offsets from `p` to
/// `right`; the current run started at `lb` (a run is open while `lb < p`).
pub open spec fn missing_runs(
    tm: Map<u64, Transaction>,
    r: int,
    lb: int,
    p: int,
    right: int,
) -> Seq<(int, int)>
    decreases right + 1 - p,
{
    if p > right {
        if p != lb {
            seq![(id_of(r, lb), id_of(r, p - 1))]
        } else {
            Seq::empty()
        }
    } else if tm.contains_key(id_of(r, p) as u64) {
        (if lb < p {
            seq![(id_of(r, lb), id_of(r, p - 1))]
        } else {
            Seq::empty()
        }) + missing_runs(tm, r, p + 1, p + 1, right)
    } else {
        missing_runs(tm, r, lb, p + 1, right)
    }
}

/// What the node lacks of range `r` compared with the peer that is furthest ahead in it: that
/// peer, and the runs of missing ids from just after the node's own offset (or from the start
/// of the range) up to the peer's offset. None when no peer has an offset or the node is not
/// behind.
pub open spec fn range_delay(
    tm: Map<u64, Transaction>,
    so: Map<u64, u64>,
    r: u64,
    nodes: Seq<PeerEntry>,
) -> Option<(PeerKey, Seq<(int, int)>)> {
    if nodes.len() == 0 {
        None
    } else {
        let best = nodes[last_max_index(nodes)];
        let right = best.1;
        if so.contains_key(r) && so[r] >= right {
            None
        } else {
            let left = if so.contains_key(r) {
                so[r] + 1
            } else {
                0
            };
            Some((best.0, missing_runs(tm, r as int, left, left, right as int)))
        }
    }
}

/// The requests per peer after adding `runs` for peer `k`: appended to its requests, or as a
/// new entry at the end.
pub open spec fn add_delay(
    s: Seq<(PeerKey, Seq<(int, int)>)>,
    k: PeerKey,
    runs: Seq<(int, int)>,
) -> Seq<(PeerKey, Seq<(int, int)>)> {
    if exists|i: int| 0 <= i < s.len() && (#[trigger] s[i]).0 == k {
        let i = choose|i: int| 0 <= i < s.len() && (#[trigger] s[i]).0 == k;
        s.update(i, (k, s[i].1 + runs))
    } else {
        s.push((k, runs))
    }
}

/// The requests per peer for the ranges of `order`, taken in that order.
pub open spec fn delays(
    tm: Map<u64, Transaction>,
    so: Map<u64, u64>,
    offsets: Map<u64, Seq<PeerEntry>>,
    order: Seq<u64>,
) -> Seq<(PeerKey, Seq<(int, int)>)>
    decreases order.len(),
{
    if order.len() == 0 {
        Seq::empty()
    } else {
        let rest = delays(tm, so, offsets, order.drop_last());
        match range_delay(tm, so, order.last(), offsets[order.last()]) {
            Some((k, runs)) => add_delay(rest, k, runs),
            None => rest,
        }
    }
}

/// The requests per peer as plain values.
pub open spec fn delay_view(s: Seq<(PeerId, Vec<(UniqueU64BlobId, UniqueU64BlobId)>)>) -> Seq<
    (PeerKey, Seq<(int, int)>),
> {
    s.map_values(|e: (PeerId, Vec<(UniqueU64BlobId, UniqueU64BlobId)>)| (e.0@, id_pairs(e.1@)))
}

/// In range `r`, the id of the furthest peer's offset fits in 64 bits, and so does one past
/// that offset.
pub open spec fn range_computable(offsets: Map<u64, Seq<PeerEntry>>, r: u64) -> bool {
    offsets.contains_key(r) && offsets[r].len() > 0 ==> {
        let right = offsets[r][last_max_index(offsets[r])].1;
        right < u64::MAX && id_of(r as int, right as int) <= u64::MAX
    }
}

/// The ids up to the furthest peer's offset in each range can be computed without overflow.
pub open spec fn delays_computable(offsets: Map<u64, Seq<PeerEntry>>) -> bool {
    forall|r: u64| #[trigger] range_computable(offsets, r)
}

/// The entry with the largest offset; the last such entry when several have it.
pub(crate) fn max_entry(nodes: &PeerOffsets) -> (i: usize)
    requires
        nodes@.len() > 0,
    ensures
        i == last_max_index(nodes@),
        i < nodes@.len(),
{
    let mut best: usize = 0;
    let mut i: usize = 1;
    while i < nodes.entries.len()
        invariant
            1 <= i <= nodes.entries.len(),
            best < i,
            best == last_max_index(nodes@.take(i as int)),
        decreases nodes.entries.len() - i,
    {
        assert(nodes@.take(i + 1).drop_last() =~= nodes@.take(i as int));
        assert(nodes@.take(i + 1)[best as int] == nodes@[best as int]);
        if nodes.entries[i].1.0 >= nodes.entries[best].1.0 {
            best = i;
        }
        i = i + 1;
    }
    assert(nodes@.take(i as int) =~= nodes@);
    best
}

/// The runs of ids of range `range` that are not stored, between offsets `left` and `right`.
fn missing_ranges(
    transactions: &HashMap<u64, Transaction>,
    range: u64,
    left: u64,
    right: u64,
) -> (runs: Vec<(UniqueU64BlobId, UniqueU64BlobId)>)
    requires
        left <= right < u64::MAX,
        id_of(range as int, right as int) <= u64::MAX,
    ensures
        id_pairs(runs@) == missing_runs(transactions@, range as int, left as int, left as int, right as int),
{
    let ghost whole = missing_runs(transactions@, range as int, left as int, left as int, right as int);
    let mut runs: Vec<(UniqueU64BlobId, UniqueU64BlobId)> = Vec::new();
    let mut left_border = left;
    let mut pointer = left;
    while pointer <= right
        invariant
            left <= left_border <= pointer <= right + 1,
            right < u64::MAX,
            id_of(range as int, right as int) <= u64::MAX,
            id_pairs(runs@) + missing_runs(
                transactions@,
                range as int,
                left_border as int,
                pointer as int,
                right as int,
            ) == whole,
        decreases right + 1 - pointer,
    {
        let id = unique_blob_id_from_range_and_offset(KeyRange(range), KeyOffset(pointer));
        if transactions.contains_key(&id.0) {
            let ghost before = runs@;
            if left_border < pointer {
                let first = unique_blob_id_from_range_and_offset(KeyRange(range), KeyOffset(left_border));
                let last = unique_blob_id_from_range_and_offset(KeyRange(range), KeyOffset(pointer - 1));
                runs.push((first, last));
            }
            proof {
                let rest = missing_runs(transactions@, range as int, pointer + 1, pointer + 1, right as int);
                let gap: Seq<(int, int)> = if left_border < pointer {
                    seq![(id_of(range as int, left_border as int), id_of(range as int, pointer - 1))]
                } else {
                    Seq::empty()
                };
                assert(id_pairs(runs@) =~= id_pairs(before) + gap);
                assert(id_pairs(before) + missing_runs(
                    transactions@,
                    range as int,
                    left_border as int,
                    pointer as int,
                    right as int,
                ) == id_pairs(before) + (gap + rest));
                assert(id_pairs(before) + (gap + rest) =~= (id_pairs(before) + gap) + rest);
            }
            pointer = pointer + 1;
            left_border = pointer;
        } else {
            pointer = pointer + 1;
        }
    }
    let ghost before = runs@;
    if pointer != left_border {
        let first = unique_blob_id_from_range_and_offset(KeyRange(range), KeyOffset(left_border));
        let last = unique_blob_id_from_range_and_offset(KeyRange(range), KeyOffset(pointer - 1));
        runs.push((first, last));
    }
    assert(id_pairs(runs@) =~= id_pairs(before) + missing_runs(
        transactions@,
        range as int,
        left_border as int,
        pointer as int,
        right as int,
    ));
    runs
}

/// No peer has two entries among the requests.
pub open spec fn unique_delay_peers(s: Seq<(PeerKey, Seq<(int, int)>)>) -> bool {
    forall|i: int, j: int|
        0 <= i < s.len() && 0 <= j < s.len() && i != j ==> (#[trigger] s[i]).0 != (#[trigger] s[j]).0
}

/// Adds `runs` to the requests for `peer`.
fn push_delay(
    result: &mut Vec<(PeerId, Vec<(UniqueU64BlobId, UniqueU64BlobId)>)>,
    peer: PeerId,
    runs: Vec<(UniqueU64BlobId, UniqueU64BlobId)>,
)
    requires
        unique_delay_peers(delay_view(old(result)@)),
    ensures
        unique_delay_peers(delay_view(final(result)@)),
        delay_view(final(result)@) == add_delay(delay_view(old(result)@), peer@, id_pairs(runs@)),
{
    let ghost s = delay_view(result@);
    let mut i: usize = 0;
    while i < result.len()
        invariant
            i <= result.len(),
            result@ == old(result)@,
            s == delay_view(result@),
            unique_delay_peers(s),
            forall|j: int| 0 <= j < i ==> (#[trigger] s[j]).0 != peer@,
        decreases result.len() - i,
    {
        if result[i].0.same(&peer) {
            proof {
                assert(s[i as int].0 == peer@);
                let c = choose|c: int| 0 <= c < s.len() && (#[trigger] s[c]).0 == peer@;
                assert(c == i);
            }
            let mut merged: Vec<(UniqueU64BlobId, UniqueU64BlobId)> = Vec::new();
            let mut j: usize = 0;
            while j < result[i].1.len()
                invariant
                    i < result.len(),
                    result@ == old(result)@,
                    j <= result@[i as int].1.len(),
                    merged@ == result@[i as int].1@.take(j as int),
                decreases result@[i as int].1.len() - j,
            {
                merged.push(result[i].1[j]);
                j = j + 1;
                assert(merged@ =~= result@[i as int].1@.take(j as int));
            }
            let mut k: usize = 0;
            while k < runs.len()
                invariant
                    i < result.len(),
                    result@ == old(result)@,
                    k <= runs.len(),
                    merged@ == result@[i as int].1@ + runs@.take(k as int),
                decreases runs.len() - k,
            {
                merged.push(runs[k]);
                k = k + 1;
                assert(merged@ =~= result@[i as int].1@ + runs@.take(k as int));
            }
            assert(runs@.take(runs.len() as int) =~= runs@);
            let ghost before = result@;
            result.set(i, (peer, merged));
            proof {
                assert(id_pairs(merged@) =~= id_pairs(before[i as int].1@) + id_pairs(runs@));
                assert(delay_view(result@) =~= s.update(i as int, (peer@, s[i as int].1 + id_pairs(runs@))));
            }
            return;
        }
        i = i + 1;
    }
    proof {
        assert(!(exists|j: int| 0 <= j < s.len() && (#[trigger] s[j]).0 == peer@));
    }
    let ghost before = result@;
    result.push((peer, runs));
    assert(delay_view(result@) =~= s.push((peer@, id_pairs(runs@))));
}

/// What the node lacks compared with the other nodes: for each range, the runs of ids it does
/// not store, from just after its own offset up to the offset of the peer that is furthest
/// ahead, requested from that peer. Ranges where the node is not behind request nothing. The
/// ranges are taken in the order in which the map hands them out; a peer that is furthest
/// ahead in several ranges gets one entry with their runs in that order.
pub fn self_delays(
    transactions: &HashMap<u64, Transaction>,
    self_offsets: &HashMap<u64, u64>,
    offsets: &HashMap<u64, PeerOffsets>,
) -> (result: Vec<(PeerId, Vec<(UniqueU64BlobId, UniqueU64BlobId)>)>)
    requires
        offsets_wf(offsets@),
        delays_computable(offsets_view(offsets@)),
    ensures
        unique_delay_peers(delay_view(result@)),
        exists|order: Seq<u64>|
            enumerates(order, offsets@.dom()) && delay_view(result@) == delays(
                transactions@,
                self_offsets@,
                offsets_view(offsets@),
                order,
            ),
{
    let mut result: Vec<(PeerId, Vec<(UniqueU64BlobId, UniqueU64BlobId)>)> = Vec::new();
    let entries = offsets.iter();
    let ghost all = vstd::std_specs::iter::IteratorSpec::remaining(&entries);
    proof {
        lemma_entries_enumerate(offsets@, all);
        assert(delay_view(result@) =~= Seq::<(PeerKey, Seq<(int, int)>)>::empty());
    }
    for (range, nodes) in it: entries
        invariant
            it.seq() == all,
            delays_computable(offsets_view(offsets@)),
            forall|i: int|
                0 <= i < all.len() ==> offsets@.contains_key(*(#[trigger] all[i]).0)
                    && offsets@[*all[i].0] == *all[i].1,
            unique_delay_peers(delay_view(result@)),
            delay_view(result@) == delays(
                transactions@,
                self_offsets@,
                offsets_view(offsets@),
                entry_keys(all).take(it.index()),
            ),
    {
        let ghost idx = it.index();
        assert(entry_keys(all).take(idx + 1).drop_last() =~= entry_keys(all).take(idx));
        assert(entry_keys(all).take(idx + 1).last() == *range);
        let r = *range;
        assert(offsets@.contains_key(r) && offsets@[r] == *nodes);
        assert(range_computable(offsets_view(offsets@), r));
        if nodes.len() > 0 {
            let best = max_entry(nodes);
            let right = nodes.entries[best].1.0;
            let left: Option<u64> = match self_offsets.get(&r) {
                Some(current) => if *current >= right {
                    None
                } else {
                    Some(*current + 1)
                },
                None => Some(0),
            };
            if let Some(left) = left {
                let runs = missing_ranges(transactions, r, left, right);
                let peer = nodes.entries[best].0.duplicate();
                push_delay(&mut result, peer, runs);
            }
        }
    }
    assert(entry_keys(all).take(all.len() as int) =~= entry_keys(all));
    result
}

/// The stored transactions with ids `l` to `r`, in order; ids that are not stored are skipped.
pub open spec fn txs_between(tm: Map<u64, Transaction>, l: int, r: int) -> Seq<Transaction>
    decreases r - l + 1,
{
    if r < l {
        Seq::empty()
    } else if tm.contains_key(r as u64) {
        txs_between(tm, l, r - 1).push(tm[r as u64])
    } else {
        txs_between(tm, l, r - 1)
    }
}

/// The transactions of the requested intervals, interval after interval.
pub open spec fn requested(tm: Map<u64, Transaction>, ranges: Seq<(int, int)>) -> Seq<Transaction>
    decreases ranges.len(),
{
    if ranges.len() == 0 {
        Seq::empty()
    } else {
        requested(tm, ranges.drop_last()) + txs_between(tm, ranges.last().0, ranges.last().1)
    }
}

/// Each requested interval is ordered and ends before the largest id.
pub open spec fn requests_servable(ranges: Seq<(int, int)>) -> bool {
    forall|i: int|
        0 <= i < ranges.len() ==> {
            let (l, r) = #[trigger] ranges[i];
            l <= r < u64::MAX
        }
}

/// The stored transactions of the requested intervals of ids, interval after interval; ids that
/// are not stored are skipped.
pub fn requested_transactions(
    transactions: &HashMap<u64, Transaction>,
    ranges: &Vec<(UniqueU64BlobId, UniqueU64BlobId)>,
) -> (response: Vec<Transaction>)
    requires
        requests_servable(id_pairs(ranges@)),
    ensures
        response@ == requested(transactions@, id_pairs(ranges@)),
{
    let ghost rs = id_pairs(ranges@);
    let mut response: Vec<Transaction> = Vec::new();
    let mut i: usize = 0;
    while i < ranges.len()
        invariant
            i <= ranges.len(),
            rs == id_pairs(ranges@),
            requests_servable(rs),
            response@ == requested(transactions@, rs.take(i as int)),
        decreases ranges.len() - i,
    {
        assert(rs.take(i + 1).drop_last() =~= rs.take(i as int));
        assert(rs[i as int] == (ranges[i as int].0.0 as int, ranges[i as int].1.0 as int));
        let (left, right) = ranges[i];
        let ghost prefix = response@;
        let mut pointer = left.0;
        while pointer <= right.0
            invariant
                left.0 <= pointer <= right.0 + 1,
                right.0 < u64::MAX,
                response@ == prefix + txs_between(transactions@, left.0 as int, pointer - 1),
            decreases right.0 + 1 - pointer,
        {
            let tx = transactions.get(&pointer);
            match tx {
                Some(tx) => response.push(*tx),
                None => {},
            }
            pointer = pointer + 1;
            assert(response@ =~= prefix + txs_between(transactions@, left.0 as int, pointer - 1));
        }
        i = i + 1;
    }
    assert(rs.take(ranges.len() as int) =~= rs);
    response
}

/// Some run of `runs` holds `id`.
pub open spec fn covered(runs: Seq<(int, int)>, id: int) -> bool {
    exists|i: int| 0 <= i < runs.len() && (#[trigger] runs[i]).0 <= id <= runs[i].1
}

proof fn lemma_covered_concat(a: Seq<(int, int)>, b: Seq<(int, int)>, id: int)
    ensures
        covered(a + b, id) <==> covered(a, id) || covered(b, id),
{
    if covered(a + b, id) {
        let i = choose|i: int| 0 <= i < (a + b).len() && (#[trigger] (a + b)[i]).0 <= id <= (a + b)[i].1;
        if i < a.len() {
            assert(a[i] == (a + b)[i]);
        } else {
            assert(b[i - a.len()] == (a + b)[i]);
        }
    }
    if covered(a, id) {
        let i = choose|i: int| 0 <= i < a.len() && (#[trigger] a[i]).0 <= id <= a[i].1;
        assert((a + b)[i] == a[i]);
    }
    if covered(b, id) {
        let i = choose|i: int| 0 <= i < b.len() && (#[trigger] b[i]).0 <= id <= b[i].1;
        assert((a + b)[i + a.len()] == b[i]);
    }
}

/// The runs requested for range `r` between offsets `lb` and `right` hold exactly the ids of
/// that stretch that are not stored: each run lies inside the stretch and is not empty, and an
/// id of the stretch is in some run if and only if it is missing.
pub proof fn lemma_missing_runs_exact(tm: Map<u64, Transaction>, r: int, lb: int, p: int, right: int)
    requires
        0 <= r,
        0 <= lb <= p <= right + 1,
        id_of(r, right) <= u64::MAX,
        forall|k: int| lb <= k < p ==> !#[trigger] tm.contains_key(id_of(r, k) as u64),
    ensures
        forall|i: int|
            0 <= i < missing_runs(tm, r, lb, p, right).len() ==> id_of(r, lb) <= (
            #[trigger] missing_runs(tm, r, lb, p, right)[i]).0 <= missing_runs(tm, r, lb, p, right)[i].1
                <= id_of(r, right),
        forall|k: int|
            lb <= k <= right ==> (covered(missing_runs(tm, r, lb, p, right), #[trigger] id_of(r, k))
                <==> !tm.contains_key(id_of(r, k) as u64)),
    decreases right + 1 - p,
{
    let runs = missing_runs(tm, r, lb, p, right);
    if p > right {
        if p != lb {
            assert forall|k: int| lb <= k <= right implies (covered(runs, #[trigger] id_of(r, k))
                <==> !tm.contains_key(id_of(r, k) as u64)) by {
                assert(runs[0].0 <= id_of(r, k) <= runs[0].1);
            }
        }
    } else if tm.contains_key(id_of(r, p) as u64) {
        let gap: Seq<(int, int)> = if lb < p {
            seq![(id_of(r, lb), id_of(r, p - 1))]
        } else {
            Seq::empty()
        };
        let rest = missing_runs(tm, r, p + 1, p + 1, right);
        lemma_missing_runs_exact(tm, r, p + 1, p + 1, right);
        assert(runs == gap + rest);
        assert forall|i: int| 0 <= i < runs.len() implies id_of(r, lb) <= (#[trigger] runs[i]).0
            <= runs[i].1 <= id_of(r, right) by {
            if i < gap.len() {
                assert(runs[i] == gap[i]);
            } else {
                assert(runs[i] == rest[i - gap.len()]);
            }
        }
        assert forall|k: int| lb <= k <= right implies (covered(runs, #[trigger] id_of(r, k))
            <==> !tm.contains_key(id_of(r, k) as u64)) by {
            lemma_covered_concat(gap, rest, id_of(r, k));
            if k < p {
                assert(gap[0].0 <= id_of(r, k) <= gap[0].1);
            } else if k == p {
                if covered(rest, id_of(r, k)) {
                    let i = choose|i: int| 0 <= i < rest.len() && (#[trigger] rest[i]).0 <= id_of(r, k) <= rest[i].1;
                    assert(id_of(r, p + 1) <= rest[i].0);
                }
                if covered(gap, id_of(r, k)) {
                    let i = choose|i: int| 0 <= i < gap.len() && (#[trigger] gap[i]).0 <= id_of(r, k) <= gap[i].1;
                    assert(gap[i] == gap[0]);
                }
            } else {
                if covered(gap, id_of(r, k)) {
                    let i = choose|i: int| 0 <= i < gap.len() && (#[trigger] gap[i]).0 <= id_of(r, k) <= gap[i].1;
                    assert(gap[i] == gap[0]);
                }
            }
        }
    } else {
        lemma_missing_runs_exact(tm, r, lb, p + 1, right);
    }
}

} // verus!
