use vstd::prelude::*;
use std::collections::HashMap;
use crate::delays::{
    delay_view, delays, delays_computable, entries_of, move_offset_pointer, move_pointer, offsets_view,
    offsets_wf, requested, requested_transactions, requests_servable, self_delays, last_max_index,
    max_entry, range_computable,
};
use crate::epoch::{Epoch, epoch_preimage, sha256, increments_bytes, hash_bytes};
use crate::offsets::{
    calculate_epoch_increments, entry_keys, enumerates, epoch_increment, epoch_increments, groups,
    id_pairs, lemma_entries_enumerate, range_offset_pairs,
    range_update, range_updates, txs_in_range, txs_to_range_tx_map,
    update_self_offset, update_self_offsets, updates_computable, contiguous, offsets_in_range,
    filed_by_range, lemma_txs_in_range_members, reports_moves, offsets_advance,
    lemma_range_update_moves,
};
use crate::peer::{
    PeerEntry, PeerId, PeerKey, PeerOffsets, consensus_maximum, count_before, delay_factor,
    entry_offsets, is_nth_largest, lemma_nth_largest_unique, peer_keys, set_peer, has_peer,
    unique_peers,
};
use crate::range_key::{
    KeyOffset, KeyRange, UniqueU64BlobId, MAX_BLOCK_INDEX, SINGLE_BLOB_SIZE, id_of,
    offset_of, range_of, range_offset_from_unique_blob_id,
};
use crate::transaction::Transaction;

verus! {

broadcast use vstd::std_specs::hash::group_hash_axioms;

/// Tuning of a node.
#[derive(Clone, Copy, Debug, PartialEq, Eq, Structural)]
pub struct Params {
    /// How often the node sends its state to the other nodes, in milliseconds.
    pub advertise_period: u64,
    /// How many nodes (this one included) must have a transaction before it is confirmed;
    /// at least one.
    pub consensus_nodes: usize,
    /// How long after the previous epoch a new one should start, in milliseconds.
    pub epoch_period: u64,
}

impl Params {
    /// Advertise every 5 s, confirm with 2 nodes, new epoch every 10 s.
    pub fn default() -> (p: Params)
        ensures
            p.advertise_period == 5000,
            p.consensus_nodes == 2,
            p.epoch_period == 10000,
    {
        Params { advertise_period: 5000, consensus_nodes: 2, epoch_period: 10000 }
    }

    /// The same parameters with another advertise period.
    pub fn set_advertise_period(self, new_period: u64) -> (p: Params)
        ensures
            p == (Params { advertise_period: new_period, ..self }),
    {
        let mut p = self;
        p.advertise_period = new_period;
        p
    }

    /// The same parameters with another number of consensus nodes.
    pub fn set_consensus_nodes(self, n_consensus: usize) -> (p: Params)
        requires
            n_consensus >= 1,
        ensures
            p == (Params { consensus_nodes: n_consensus, ..self }),
    {
        let mut p = self;
        p.consensus_nodes = n_consensus;
        p
    }

    /// The same parameters with another epoch period.
    pub fn set_epoch_period(self, new_period: u64) -> (p: Params)
        ensures
            p == (Params { epoch_period: new_period, ..self }),
    {
        let mut p = self;
        p.epoch_period = new_period;
        p
    }
}

/// The offsets a node has reached, per range.
#[derive(Debug, Clone, PartialEq, Eq)]
pub struct NodeState {
    pub offsets: HashMap<u64, u64>,
}

/// What the network layer hands to the node.
#[derive(Debug, PartialEq, Eq)]
pub enum Inbox {
    /// The state another node advertised.
    State((PeerId, NodeState)),
    /// The nodes currently alive, each once.
    Nodes(Vec<PeerId>),
    /// A transaction a gateway sent.
    NewTransaction(Transaction),
    /// A node asks for the transactions of these intervals of ids.
    RequestMissingTxs((PeerId, Vec<(UniqueU64BlobId, UniqueU64BlobId)>)),
    /// Transactions this node asked for.
    MissingTx(Vec<Transaction>),
}

/// What the node hands to the network layer.
#[derive(Debug, PartialEq, Eq)]
pub enum Outbox {
    /// This node's state, for all nodes.
    State(NodeState),
    /// Asks a node for the transactions of these intervals of ids.
    RequestMissingTxs((PeerId, Vec<(UniqueU64BlobId, UniqueU64BlobId)>)),
    /// The transactions a node asked for.
    RequestedTxsForPeer((PeerId, Vec<Transaction>)),
}

/// A question to the node about its state.
#[derive(Debug, Clone, Copy, PartialEq, Eq, Structural)]
pub enum Request {
    GetState,
}

/// The node's own offsets and the consensus offsets.
#[derive(Debug, Clone, PartialEq, Eq)]
pub struct CurrentOffsets {
    pub self_offsets: HashMap<u64, u64>,
    pub consensus_offset: HashMap<u64, u64>,
}

/// The answer to a `Request`.
#[derive(Debug, Clone, PartialEq, Eq)]
pub enum Response {
    State(CurrentOffsets),
}

/// What handling an inbox message produced: messages to send, and, for a new list of nodes,
/// this node's position among them.
#[derive(Debug)]
pub struct Reaction {
    pub outbox: Vec<Outbox>,
    pub delay_factor: Option<usize>,
}

/// The groups of `txs` by range, as plain values.
pub open spec fn tx_groups(txs: Seq<Transaction>) -> Map<u64, Seq<Transaction>> {
    Map::new(
        |r: u64| txs_in_range(txs, r as int).len() > 0,
        |r: u64| txs_in_range(txs, r as int),
    )
}

/// The peer entries after this node moved its own offsets as listed in `ups`, in order.
pub open spec fn move_pointers(m: Map<u64, Seq<PeerEntry>>, peer: PeerKey, ups: Seq<(u64, u64)>) -> Map<
    u64,
    Seq<PeerEntry>,
>
    decreases ups.len(),
{
    if ups.len() == 0 {
        m
    } else {
        move_pointer(move_pointers(m, peer, ups.drop_last()), peer, ups.last().0, ups.last().1)
    }
}

/// The peer entries after `peer` advertised the offsets `st`.
pub open spec fn merge_state(m: Map<u64, Seq<PeerEntry>>, peer: PeerKey, st: Map<u64, u64>) -> Map<
    u64,
    Seq<PeerEntry>,
> {
    Map::new(
        |r: u64| m.contains_key(r) || st.contains_key(r),
        |r: u64|
            if st.contains_key(r) {
                set_peer(entries_of(m, r), peer, st[r])
            } else {
                m[r]
            },
    )
}

/// The consensus offsets after recalculation from the peer entries: each range with at least
/// `n` peers gets the `n`-th largest of their offsets; the others keep what they had.
pub open spec fn consensus_recalculated(
    old_c: Map<u64, u64>,
    new_c: Map<u64, u64>,
    offs: Map<u64, Seq<PeerEntry>>,
    n: int,
) -> bool {
    &&& forall|r: u64|
        #[trigger] new_c.contains_key(r) <==> (old_c.contains_key(r) || (offs.contains_key(r)
            && offs[r].len() >= n))
    &&& forall|r: u64|
        #[trigger] offs.contains_key(r) && offs[r].len() >= n ==> is_nth_largest(
            entry_offsets(offs[r]),
            n,
            new_c[r],
        )
    &&& forall|r: u64|
        #[trigger] old_c.contains_key(r) && !(offs.contains_key(r) && offs[r].len() >= n) ==> new_c[r]
            == old_c[r]
}

/// The committed offsets after an epoch with the increments `incs`: each increment's range is
/// committed up to the increment's end.
pub open spec fn apply_commits(c: Map<u64, u64>, incs: Seq<(int, int)>) -> Map<u64, u64>
    decreases incs.len(),
{
    if incs.len() == 0 {
        c
    } else {
        apply_commits(c, incs.drop_last()).insert(
            range_of(incs.last().1) as u64,
            offset_of(incs.last().1) as u64,
        )
    }
}

/// Range `r`'s increment can be computed: the offset after its committed one fits in 64 bits,
/// and, when there is an increment, the id of its consensus offset does too.
pub open spec fn commit_range_ok(consensus: Map<u64, u64>, committed: Map<u64, u64>, r: u64) -> bool {
    consensus.contains_key(r) ==> {
        &&& committed.contains_key(r) ==> committed[r] < u64::MAX
        &&& epoch_increment(committed, r, consensus[r]) is Some ==> id_of(r as int, consensus[r] as int)
            <= u64::MAX
    }
}

/// An epoch can be committed: the increment of every range can be computed.
pub open spec fn commit_computable(consensus: Map<u64, u64>, committed: Map<u64, u64>) -> bool {
    forall|r: u64| #[trigger] commit_range_ok(consensus, committed, r)
}

/// The requests per peer carried by a list of outgoing messages.
pub open spec fn outbox_requests(s: Seq<Outbox>) -> Seq<(PeerKey, Seq<(int, int)>)> {
    s.map_values(
        |o: Outbox|
            match o {
                Outbox::RequestMissingTxs((p, rs)) => (p@, id_pairs(rs@)),
                _ => (placeholder_peer(), Seq::empty()),
            },
    )
}

/// A placeholder peer key.
pub open spec fn placeholder_peer() -> PeerKey {
    (0, Seq::empty())
}

/// Every range of a group of transactions is a range of the id space, and the transactions of
/// the group lie in it.
proof fn lemma_tx_groups_in_space(txs: Seq<Transaction>)
    ensures
        forall|r: u64| #[trigger]
            tx_groups(txs).contains_key(r) ==> r <= MAX_BLOCK_INDEX && forall|i: int|
                0 <= i < tx_groups(txs)[r].len() ==> range_of((#[trigger] tx_groups(txs)[r][i]).id.0 as int)
                    == r,
{
    assert forall|r: u64| #[trigger] tx_groups(txs).contains_key(r) implies r <= MAX_BLOCK_INDEX
        && forall|i: int|
        0 <= i < tx_groups(txs)[r].len() ==> range_of((#[trigger] tx_groups(txs)[r][i]).id.0 as int)
            == r by {
        lemma_txs_in_range_members(txs, r as int);
        let g = txs_in_range(txs, r as int);
        assert(g.len() > 0);
        assert(range_of(g[0].id.0 as int) == r);
    }
}

/// The offset of peer `k` among the entries `s`, if it has an entry.
pub open spec fn offset_of_peer(s: Seq<PeerEntry>, k: PeerKey) -> Option<u64> {
    if has_peer(s, k) {
        Some(s[choose|i: int| 0 <= i < s.len() && (#[trigger] s[i]).0 == k].1)
    } else {
        None
    }
}

/// The entries of every range hold each peer at most once.
pub open spec fn entries_unique(m: Map<u64, Seq<PeerEntry>>) -> bool {
    forall|r: u64| #[trigger] m.contains_key(r) ==> unique_peers(m[r])
}

/// Peer `k`'s entries in `m` are the offsets `so`: it has an entry in a range exactly when `so`
/// has an offset for the range, and the entry holds that offset.
pub open spec fn mirrors(so: Map<u64, u64>, m: Map<u64, Seq<PeerEntry>>, k: PeerKey) -> bool {
    forall|r: u64| #[trigger]
        offset_of_peer(entries_of(m, r), k) == if so.contains_key(r) {
            Some(so[r])
        } else {
            None
        }
}

/// The last offset that `ups` gives range `q`, if it gives one.
pub open spec fn last_update(ups: Seq<(u64, u64)>, q: u64) -> Option<u64>
    decreases ups.len(),
{
    if ups.len() == 0 {
        None
    } else if ups.last().0 == q {
        Some(ups.last().1)
    } else {
        last_update(ups.drop_last(), q)
    }
}

/// When peers are unique, any entry of `k` holds the offset that `offset_of_peer` gives.
proof fn lemma_offset_of_peer_at(s: Seq<PeerEntry>, k: PeerKey, i: int)
    requires
        unique_peers(s),
        0 <= i < s.len(),
        s[i].0 == k,
    ensures
        offset_of_peer(s, k) == Some(s[i].1),
{
    assert(has_peer(s, k));
    let j = choose|j: int| 0 <= j < s.len() && (#[trigger] s[j]).0 == k;
    if j != i {
        assert(s[j].0 != s[i].0);
    }
}

/// Entries kept per range with one entry per peer hold each peer at most once.
proof fn lemma_entries_unique(m: Map<u64, PeerOffsets>)
    requires
        offsets_wf(m),
    ensures
        entries_unique(offsets_view(m)),
{
    assert forall|r: u64| #[trigger] offsets_view(m).contains_key(r) implies unique_peers(
        offsets_view(m)[r],
    ) by {
        assert(m.contains_key(r));
        assert(m[r].wf());
    }
}

/// Giving peer `k` an offset sets its entry and leaves the entries of other peers as they were.
proof fn lemma_set_peer_offsets(s: Seq<PeerEntry>, k: PeerKey, v: u64)
    requires
        unique_peers(s),
    ensures
        unique_peers(set_peer(s, k, v)),
        offset_of_peer(set_peer(s, k, v), k) == Some(v),
        forall|q: PeerKey| q != k ==> #[trigger] offset_of_peer(set_peer(s, k, v), q) == offset_of_peer(s, q),
{
    let s2 = set_peer(s, k, v);
    if has_peer(s, k) {
        let i0 = choose|i: int| 0 <= i < s.len() && (#[trigger] s[i]).0 == k;
        assert(s2 == s.update(i0, (k, v)));
        assert forall|i: int, j: int| 0 <= i < s2.len() && 0 <= j < s2.len() && i != j implies (
        #[trigger] s2[i]).0 != (#[trigger] s2[j]).0 by {
            if i != i0 && j != i0 {
                assert(s[i].0 != s[j].0);
            } else if i == i0 {
                assert(s[i0].0 != s[j].0);
            } else {
                assert(s[i].0 != s[i0].0);
            }
        }
        lemma_offset_of_peer_at(s2, k, i0);
        assert forall|q: PeerKey| q != k implies #[trigger] offset_of_peer(s2, q) == offset_of_peer(s, q) by {
            if has_peer(s, q) {
                let j = choose|j: int| 0 <= j < s.len() && (#[trigger] s[j]).0 == q;
                lemma_offset_of_peer_at(s, q, j);
                lemma_offset_of_peer_at(s2, q, j);
            } else if has_peer(s2, q) {
                let j = choose|j: int| 0 <= j < s2.len() && (#[trigger] s2[j]).0 == q;
                assert(s[j].0 == q);
            }
        }
    } else {
        assert(s2 == s.push((k, v)));
        assert forall|i: int, j: int| 0 <= i < s2.len() && 0 <= j < s2.len() && i != j implies (
        #[trigger] s2[i]).0 != (#[trigger] s2[j]).0 by {
            if i < s.len() && j < s.len() {
                assert(s[i].0 != s[j].0);
            } else if i < s.len() {
                assert(s[i].0 != k);
            } else {
                assert(s[j].0 != k);
            }
        }
        lemma_offset_of_peer_at(s2, k, s.len() as int);
        assert forall|q: PeerKey| q != k implies #[trigger] offset_of_peer(s2, q) == offset_of_peer(s, q) by {
            if has_peer(s, q) {
                let j = choose|j: int| 0 <= j < s.len() && (#[trigger] s[j]).0 == q;
                lemma_offset_of_peer_at(s, q, j);
                lemma_offset_of_peer_at(s2, q, j);
            } else if has_peer(s2, q) {
                let j = choose|j: int| 0 <= j < s2.len() && (#[trigger] s2[j]).0 == q;
                assert(s[j].0 == q);
            }
        }
    }
}

/// Moving peer `k`'s offset of range `r` to `o` changes only that entry.
proof fn lemma_move_pointer_offsets(m: Map<u64, Seq<PeerEntry>>, k: PeerKey, r: u64, o: u64)
    requires
        entries_unique(m),
    ensures
        entries_unique(move_pointer(m, k, r, o)),
        forall|q: u64, p: PeerKey| #[trigger]
            offset_of_peer(entries_of(move_pointer(m, k, r, o), q), p) == if q == r && p == k {
                Some(o)
            } else {
                offset_of_peer(entries_of(m, q), p)
            },
{
    assert(unique_peers(entries_of(m, r)));
    lemma_set_peer_offsets(entries_of(m, r), k, o);
    let m2 = move_pointer(m, k, r, o);
    assert(entries_of(m2, r) == set_peer(entries_of(m, r), k, o));
    assert forall|q: u64| q != r implies #[trigger] entries_of(m2, q) == entries_of(m, q) by {}
}

/// Moving peer `k`'s offsets as listed in `ups` leaves each range's entry of `k` at the last
/// offset `ups` gives the range, and every other entry as it was.
proof fn lemma_move_pointers_offsets(m: Map<u64, Seq<PeerEntry>>, k: PeerKey, ups: Seq<(u64, u64)>)
    requires
        entries_unique(m),
    ensures
        entries_unique(move_pointers(m, k, ups)),
        forall|q: u64| #[trigger]
            offset_of_peer(entries_of(move_pointers(m, k, ups), q), k) == match last_update(ups, q) {
                Some(o) => Some(o),
                None => offset_of_peer(entries_of(m, q), k),
            },
    decreases ups.len(),
{
    if ups.len() > 0 {
        lemma_move_pointers_offsets(m, k, ups.drop_last());
        let prev = move_pointers(m, k, ups.drop_last());
        lemma_move_pointer_offsets(prev, k, ups.last().0, ups.last().1);
        assert forall|q: u64| #[trigger]
            offset_of_peer(entries_of(move_pointers(m, k, ups), q), k) == match last_update(ups, q) {
                Some(o) => Some(o),
                None => offset_of_peer(entries_of(m, q), k),
            } by {
            assert(offset_of_peer(entries_of(prev, q), k) == match last_update(ups.drop_last(), q) {
                Some(o) => Some(o),
                None => offset_of_peer(entries_of(m, q), k),
            });
        }
    }
}

/// The last offset `ups` gives a range is one of its pairs; a range it gives none has no pair.
proof fn lemma_last_update(ups: Seq<(u64, u64)>, q: u64)
    ensures
        last_update(ups, q) matches Some(o) ==> ups.contains((q, o)),
        last_update(ups, q) is None ==> forall|o: u64| !(#[trigger] ups.contains((q, o))),
    decreases ups.len(),
{
    if ups.len() > 0 {
        lemma_last_update(ups.drop_last(), q);
        assert(ups.last() == ups[ups.len() - 1]);
        if let Some(o) = last_update(ups.drop_last(), q) {
            if ups.last().0 != q {
                let i = choose|i: int| 0 <= i < ups.drop_last().len() && ups.drop_last()[i] == (q, o);
                assert(ups[i] == (q, o));
            }
        }
        assert forall|o: u64| last_update(ups, q) is None implies !(#[trigger] ups.contains((q, o))) by {
            if ups.contains((q, o)) {
                let i = choose|i: int| 0 <= i < ups.len() && ups[i] == (q, o);
                if i < ups.len() - 1 {
                    assert(ups.drop_last()[i] == (q, o));
                    assert(ups.drop_last().contains((q, o)));
                }
            }
        }
    }
}

/// Reporting the moved offsets to the entries keeps the node's entries a mirror of its offsets.
proof fn lemma_mirror_moves(
    so: Map<u64, u64>,
    so2: Map<u64, u64>,
    m: Map<u64, Seq<PeerEntry>>,
    k: PeerKey,
    ups: Seq<(u64, u64)>,
    dom: Set<u64>,
)
    requires
        mirrors(so, m, k),
        entries_unique(m),
        reports_moves(so, so2, ups),
        offsets_advance(so, so2, dom),
    ensures
        mirrors(so2, move_pointers(m, k, ups), k),
{
    lemma_move_pointers_offsets(m, k, ups);
    assert forall|q: u64| #[trigger]
        offset_of_peer(entries_of(move_pointers(m, k, ups), q), k) == if so2.contains_key(q) {
            Some(so2[q])
        } else {
            None
        } by {
        lemma_last_update(ups, q);
        assert(offset_of_peer(entries_of(m, q), k) == if so.contains_key(q) {
            Some(so[q])
        } else {
            None
        });
        if let Some(o) = last_update(ups, q) {
            assert(ups.contains((q, o)));
        } else if so2.contains_key(q) {
            assert(!ups.contains((q, so2[q])));
        } else if so.contains_key(q) {
            assert(so2.contains_key(q));
        }
    }
}

/// After `p` advertises the offsets `st`, `p`'s entry in every advertised range holds the
/// advertised offset, whatever it held before; the entries of other peers stay as they were,
/// and ranges `st` does not mention are untouched.
pub proof fn lemma_merge_state(m: Map<u64, Seq<PeerEntry>>, p: PeerKey, st: Map<u64, u64>)
    requires
        entries_unique(m),
    ensures
        entries_unique(merge_state(m, p, st)),
        forall|r: u64| #[trigger]
            st.contains_key(r) ==> offset_of_peer(entries_of(merge_state(m, p, st), r), p) == Some(
                st[r],
            ),
        forall|r: u64, q: PeerKey|
            q != p ==> #[trigger] offset_of_peer(entries_of(merge_state(m, p, st), r), q)
                == offset_of_peer(entries_of(m, r), q),
        forall|r: u64| !st.contains_key(r) ==> #[trigger] entries_of(merge_state(m, p, st), r)
            == entries_of(m, r),
{
    let m2 = merge_state(m, p, st);
    assert forall|r: u64| st.contains_key(r) implies #[trigger] entries_of(m2, r) == set_peer(
        entries_of(m, r),
        p,
        st[r],
    ) && unique_peers(entries_of(m, r)) by {}
    assert forall|r: u64| st.contains_key(r) implies offset_of_peer(#[trigger] entries_of(m2, r), p)
        == Some(st[r]) by {
        lemma_set_peer_offsets(entries_of(m, r), p, st[r]);
    }
    assert forall|r: u64, q: PeerKey| q != p implies #[trigger] offset_of_peer(entries_of(m2, r), q)
        == offset_of_peer(entries_of(m, r), q) by {
        if st.contains_key(r) {
            lemma_set_peer_offsets(entries_of(m, r), p, st[r]);
        }
    }
    assert forall|r: u64| #[trigger] m2.contains_key(r) implies unique_peers(m2[r]) by {
        if st.contains_key(r) {
            lemma_set_peer_offsets(entries_of(m, r), p, st[r]);
            assert(m2[r] == entries_of(m2, r));
        }
    }
}

/// Each epoch's hash chains it to the one before: the first is the hash of its increments'
/// bytes, every later one the hash of the previous epoch's hash followed by its increments'
/// bytes.
pub open spec fn epochs_chained(epochs: Seq<Epoch>) -> bool {
    forall|i: int|
        0 <= i < epochs.len() ==> (#[trigger] epochs[i]).hash@ == sha256(
            if i == 0 {
                increments_bytes(epochs[i].increments@)
            } else {
                epochs[i - 1].hash@ + increments_bytes(epochs[i].increments@)
            },
        )
}

/// Merges the offsets that `peer_id` advertised into what the node knows of the others.
fn merge_peer_state(offsets: &mut HashMap<u64, PeerOffsets>, peer_id: PeerId, state: &HashMap<u64, u64>)
    requires
        offsets_wf(old(offsets)@),
    ensures
        offsets_wf(final(offsets)@),
        offsets_view(final(offsets)@) == merge_state(offsets_view(old(offsets)@), peer_id@, state@),
{
    let ghost offs0 = offsets_view(offsets@);
    let entries = state.iter();
    let ghost all = vstd::std_specs::iter::IteratorSpec::remaining(&entries);
    proof {
        lemma_entries_enumerate(state@, all);
        assert(state@.restrict(entry_keys(all).take(0).to_set()) =~= Map::<u64, u64>::empty());
        assert(merge_state(offs0, peer_id@, Map::<u64, u64>::empty()) =~= offs0);
    }
    for (range, offset) in it: entries
        invariant
            it.seq() == all,
            enumerates(entry_keys(all), state@.dom()),
            forall|i: int|
                0 <= i < all.len() ==> state@.contains_key(*(#[trigger] all[i]).0)
                    && state@[*all[i].0] == *all[i].1,
            offsets_wf(offsets@),
            offsets_view(offsets@) == merge_state(
                offs0,
                peer_id@,
                state@.restrict(entry_keys(all).take(it.index()).to_set()),
            ),
    {
        let ghost idx = it.index();
        let ghost done = entry_keys(all).take(idx);
        let ghost done2 = entry_keys(all).take(idx + 1);
        assert(done2 =~= done.push(*range));
        move_offset_pointer(offsets, peer_id.duplicate(), KeyRange(*range), KeyOffset(*offset));
        proof {
            assert(!done.contains(*range)) by {
                if done.contains(*range) {
                    let j = choose|j: int| 0 <= j < done.len() && done[j] == *range;
                    assert(entry_keys(all)[j] == entry_keys(all)[idx as int]);
                }
            }
            done.lemma_push_to_set_commute(*range);
            assert(done2.to_set() =~= done.to_set().insert(*range));
            assert(offsets_view(offsets@) =~= merge_state(
                offs0,
                peer_id@,
                state@.restrict(done2.to_set()),
            ));
        }
    }
    proof {
        assert(entry_keys(all).take(all.len() as int) =~= entry_keys(all));
        assert(state@.restrict(entry_keys(all).to_set()) =~= state@);
    }
}

/// Recalculates the consensus offsets from what the nodes advertised: each range with at least
/// `n_consensus` nodes gets the `n_consensus`-th largest of their offsets; the others keep
/// theirs.
fn recalculate_consensus_offsets(
    consensus_offset: &mut HashMap<u64, u64>,
    offsets: &HashMap<u64, PeerOffsets>,
    n_consensus: usize,
)
    requires
        n_consensus >= 1,
    ensures
        consensus_recalculated(
            old(consensus_offset)@,
            final(consensus_offset)@,
            offsets_view(offsets@),
            n_consensus as int,
        ),
{
    let ghost c0 = consensus_offset@;
    let ghost offs = offsets_view(offsets@);
    let entries = offsets.iter();
    let ghost all = vstd::std_specs::iter::IteratorSpec::remaining(&entries);
    proof {
        lemma_entries_enumerate(offsets@, all);
        assert(offs.restrict(entry_keys(all).take(0).to_set()) =~= Map::<u64, Seq<PeerEntry>>::empty());
    }
    for (range, nodes) in it: entries
        invariant
            it.seq() == all,
            n_consensus >= 1,
            offs == offsets_view(offsets@),
            enumerates(entry_keys(all), offsets@.dom()),
            forall|i: int|
                0 <= i < all.len() ==> offsets@.contains_key(*(#[trigger] all[i]).0)
                    && offsets@[*all[i].0] == *all[i].1,
            consensus_recalculated(
                c0,
                consensus_offset@,
                offs.restrict(entry_keys(all).take(it.index()).to_set()),
                n_consensus as int,
            ),
    {
        let ghost idx = it.index();
        let ghost done = entry_keys(all).take(idx);
        let ghost done2 = entry_keys(all).take(idx + 1);
        assert(done2 =~= done.push(*range));
        proof {
            done.lemma_push_to_set_commute(*range);
            assert(!done.contains(*range)) by {
                if done.contains(*range) {
                    let j = choose|j: int| 0 <= j < done.len() && done[j] == *range;
                    assert(entry_keys(all)[j] == entry_keys(all)[idx as int]);
                }
            }
        }
        if let Some(max) = consensus_maximum(nodes, n_consensus) {
            consensus_offset.insert(*range, max.0);
        }
        proof {
            let part = offs.restrict(done.to_set());
            let part2 = offs.restrict(done2.to_set());
            assert(part2 =~= part.insert(*range, offs[*range]));
        }
    }
    proof {
        assert(entry_keys(all).take(all.len() as int) =~= entry_keys(all));
        assert(offs.restrict(entry_keys(all).to_set()) =~= offs);
    }
}

/// Committing the increments of ranges in `order` commits range `r` up to its consensus offset
/// when it is one of them and has an increment, and leaves it as it was otherwise.
proof fn lemma_apply_commits_effect(
    consensus: Map<u64, u64>,
    committed: Map<u64, u64>,
    order: Seq<u64>,
    r: u64,
)
    requires
        order.no_duplicates(),
        forall|i: int| 0 <= i < order.len() ==> consensus.contains_key(#[trigger] order[i]),
        forall|q: u64| #[trigger] consensus.contains_key(q) ==> consensus[q] < SINGLE_BLOB_SIZE,
    ensures
        ({
            let c2 = apply_commits(committed, epoch_increments(consensus, committed, order));
            if order.contains(r) && epoch_increment(committed, r, consensus[r]) is Some {
                c2.contains_key(r) && c2[r] == consensus[r]
            } else {
                c2.contains_key(r) == committed.contains_key(r) && (committed.contains_key(r)
                    ==> c2[r] == committed[r])
            }
        }),
    decreases order.len(),
{
    if order.len() > 0 {
        let o1 = order.drop_last();
        let x = order.last();
        assert(order[order.len() - 1] == x);
        assert(consensus.contains_key(x));
        assert(o1.no_duplicates()) by {
            assert forall|i: int, j: int| 0 <= i < o1.len() && 0 <= j < o1.len() && i != j implies o1[i] != o1[j] by {
                assert(o1[i] == order[i] && o1[j] == order[j]);
            }
        }
        assert forall|i: int| 0 <= i < o1.len() implies consensus.contains_key(#[trigger] o1[i]) by {
            assert(o1[i] == order[i]);
        }
        lemma_apply_commits_effect(consensus, committed, o1, r);
        assert(!o1.contains(x)) by {
            if o1.contains(x) {
                let j = choose|j: int| 0 <= j < o1.len() && o1[j] == x;
                assert(order[j] == order[order.len() - 1]);
            }
        }
        let incs1 = epoch_increments(consensus, committed, o1);
        let incs = epoch_increments(consensus, committed, order);
        let c1 = apply_commits(committed, incs1);
        let c2 = apply_commits(committed, incs);
        match epoch_increment(committed, x, consensus[x]) {
            Some(p) => {
                assert(incs == incs1.push(p));
                assert(incs.drop_last() =~= incs1);
                assert(range_of(p.1) == x);
                assert(offset_of(p.1) == consensus[x]);
                assert(c2 == c1.insert(x, consensus[x]));
            },
            None => {
                assert(incs == incs1);
            },
        }
        if r != x {
            assert(order.contains(r) == o1.contains(r)) by {
                if order.contains(r) {
                    let j = choose|j: int| 0 <= j < order.len() && order[j] == r;
                    assert(j < o1.len());
                    assert(o1[j] == r);
                }
                if o1.contains(r) {
                    let j = choose|j: int| 0 <= j < o1.len() && o1[j] == r;
                    assert(order[j] == r);
                }
            }
        } else {
            assert(order.contains(x));
        }
    }
}

/// No increment is left for ranges whose committed offset has caught up with consensus.
proof fn lemma_no_increments(consensus: Map<u64, u64>, committed: Map<u64, u64>, order: Seq<u64>)
    requires
        forall|i: int| 0 <= i < order.len() ==> epoch_increment(
            committed,
            #[trigger] order[i],
            consensus[order[i]],
        ) is None,
    ensures
        epoch_increments(consensus, committed, order) == Seq::<(int, int)>::empty(),
    decreases order.len(),
{
    if order.len() > 0 {
        assert forall|i: int| 0 <= i < order.drop_last().len() implies epoch_increment(
            committed,
            #[trigger] order.drop_last()[i],
            consensus[order.drop_last()[i]],
        ) is None by {
            assert(order.drop_last()[i] == order[i]);
        }
        lemma_no_increments(consensus, committed, order.drop_last());
        assert(order[order.len() - 1] == order.last());
    }
}

/// Committing an epoch catches the committed offsets up with consensus: when every consensus
/// offset lies inside its range, the next epoch computed from the same consensus commits
/// nothing, whatever order the ranges come in.
pub proof fn lemma_commit_catches_up(
    consensus: Map<u64, u64>,
    committed: Map<u64, u64>,
    order: Seq<u64>,
    next_order: Seq<u64>,
)
    requires
        enumerates(order, consensus.dom()),
        enumerates(next_order, consensus.dom()),
        forall|r: u64| #[trigger] consensus.contains_key(r) ==> consensus[r] < SINGLE_BLOB_SIZE,
    ensures
        epoch_increments(
            consensus,
            apply_commits(committed, epoch_increments(consensus, committed, order)),
            next_order,
        ) == Seq::<(int, int)>::empty(),
{
    let c2 = apply_commits(committed, epoch_increments(consensus, committed, order));
    assert forall|i: int| 0 <= i < order.len() implies consensus.contains_key(#[trigger] order[i]) by {
        assert(order.contains(order[i]));
    }
    assert forall|i: int| 0 <= i < next_order.len() implies epoch_increment(
        c2,
        #[trigger] next_order[i],
        consensus[next_order[i]],
    ) is None by {
        let r = next_order[i];
        assert(next_order.contains(r));
        assert(order.contains(r));
        lemma_apply_commits_effect(consensus, committed, order, r);
    }
    lemma_no_increments(consensus, c2, next_order);
}

/// Recalculating the consensus offsets determines them: two results from the same offsets and
/// the same advertised entries are equal.
pub proof fn lemma_consensus_recalculated_unique(
    old_c: Map<u64, u64>,
    a: Map<u64, u64>,
    b: Map<u64, u64>,
    offs: Map<u64, Seq<PeerEntry>>,
    n: int,
)
    requires
        consensus_recalculated(old_c, a, offs, n),
        consensus_recalculated(old_c, b, offs, n),
    ensures
        a == b,
{
    assert forall|r: u64| #[trigger] a.contains_key(r) implies a[r] == b[r] by {
        if offs.contains_key(r) && offs[r].len() >= n {
            lemma_nth_largest_unique(entry_offsets(offs[r]), n, a[r], b[r]);
        }
    }
    assert(a =~= b);
}

/// The increments of all epochs, epoch after epoch.
pub open spec fn epochs_increments(epochs: Seq<Epoch>) -> Seq<(int, int)>
    decreases epochs.len(),
{
    if epochs.len() == 0 {
        Seq::empty()
    } else {
        epochs_increments(epochs.drop_last()) + id_pairs(epochs.last().increments@)
    }
}

/// Committing two lists of increments one after the other is committing them together.
proof fn lemma_apply_commits_concat(c: Map<u64, u64>, a: Seq<(int, int)>, b: Seq<(int, int)>)
    ensures
        apply_commits(c, a + b) == apply_commits(apply_commits(c, a), b),
    decreases b.len(),
{
    if b.len() == 0 {
        assert(a + b =~= a);
    } else {
        lemma_apply_commits_concat(c, a, b.drop_last());
        assert((a + b).drop_last() =~= a + b.drop_last());
        assert((a + b).last() == b.last());
    }
}

/// A node: its own offsets, what it knows of the other nodes, consensus, epochs and stored
/// transactions.
pub struct App {
    params: Params,
    peer_id: PeerId,
    self_offsets: HashMap<u64, u64>,
    offsets: HashMap<u64, PeerOffsets>,
    consensus_offset: HashMap<u64, u64>,
    commited_offsets: HashMap<u64, u64>,
    epochs: Vec<Epoch>,
    transactions: HashMap<u64, Transaction>,
}

impl App {
    /// The node's parameters.
    pub closed spec fn params_view(&self) -> Params {
        self.params
    }

    /// The node's own id.
    pub closed spec fn peer(&self) -> PeerKey {
        self.peer_id@
    }

    /// The node's own offset per range.
    pub closed spec fn self_offsets_view(&self) -> Map<u64, u64> {
        self.self_offsets@
    }

    /// The offsets of every known node (this one included) per range.
    pub closed spec fn offsets_view(&self) -> Map<u64, Seq<PeerEntry>> {
        offsets_view(self.offsets@)
    }

    /// The consensus offset per range.
    pub closed spec fn consensus_view(&self) -> Map<u64, u64> {
        self.consensus_offset@
    }

    /// The committed offset per range.
    pub closed spec fn committed_view(&self) -> Map<u64, u64> {
        self.commited_offsets@
    }

    /// The epochs so far.
    pub closed spec fn epochs_view(&self) -> Seq<Epoch> {
        self.epochs@
    }

    /// The stored transactions by id.
    pub closed spec fn transactions_view(&self) -> Map<u64, Transaction> {
        self.transactions@
    }

    /// The node's state is consistent.
    pub closed spec fn wf(&self) -> bool {
        &&& self.params.consensus_nodes >= 1
        &&& offsets_wf(self.offsets@)
        &&& offsets_in_range(self.self_offsets@)
        &&& contiguous(self.self_offsets@, self.transactions@)
        &&& epochs_chained(self.epochs@)
        &&& self.commited_offsets@ == apply_commits(Map::empty(), epochs_increments(self.epochs@))
    }

    /// The node's own entries among the offsets of all nodes are its own offsets.
    pub open spec fn own_offsets_mirrored(&self) -> bool {
        mirrors(self.self_offsets_view(), self.offsets_view(), self.peer())
    }

    /// The hash of the last epoch, none before the first.
    pub open spec fn last_hash(&self) -> Option<[u8; 32]> {
        if self.epochs_view().len() > 0 {
            Some(self.epochs_view().last().hash)
        } else {
            None
        }
    }

    /// A message can be handled: a new list of nodes holds this node, and transactions that are
    /// received or requested can be found.
    pub open spec fn accepts(&self, msg: Inbox) -> bool {
        match msg {
            Inbox::State(_) => true,
            Inbox::Nodes(ids) => peer_keys(ids@).contains(self.peer()) && peer_keys(ids@).no_duplicates(),
            Inbox::NewTransaction(_) => true,
            Inbox::RequestMissingTxs((_, ranges)) => requests_servable(id_pairs(ranges@)),
            Inbox::MissingTx(_) => true,
        }
    }

    /// The epochs of a node are chained by their hashes.
    pub proof fn lemma_epochs_chained(&self)
        requires
            self.wf(),
        ensures
            epochs_chained(self.epochs_view()),
    {
    }

    /// The committed offsets can be recalculated from the epochs: they are what committing the
    /// increments of every epoch, in order, gives from nothing.
    pub proof fn lemma_committed_from_epochs(&self)
        requires
            self.wf(),
        ensures
            self.committed_view() == apply_commits(Map::empty(), epochs_increments(self.epochs_view())),
    {
    }

    /// A node that knows nothing yet.
    pub fn new(peer_id: PeerId, params: Params) -> (app: App)
        requires
            params.consensus_nodes >= 1,
        ensures
            app.wf(),
            app.params_view() == params,
            app.peer() == peer_id@,
            app.self_offsets_view() == Map::<u64, u64>::empty(),
            app.offsets_view() == Map::<u64, Seq<PeerEntry>>::empty(),
            app.consensus_view() == Map::<u64, u64>::empty(),
            app.committed_view() == Map::<u64, u64>::empty(),
            app.epochs_view() == Seq::<Epoch>::empty(),
            app.transactions_view() == Map::<u64, Transaction>::empty(),
            app.own_offsets_mirrored(),
    {
        let app = App {
            params,
            peer_id,
            self_offsets: HashMap::new(),
            offsets: HashMap::new(),
            consensus_offset: HashMap::new(),
            commited_offsets: HashMap::new(),
            epochs: Vec::new(),
            transactions: HashMap::new(),
        };
        assert(offsets_view(app.offsets@) =~= Map::<u64, Seq<PeerEntry>>::empty());
        app
    }

    /// Recalculates the consensus offsets, then sends this node's offsets to all nodes and,
    /// for each range where another node is ahead, asks the node that is furthest ahead for the
    /// transactions this one lacks.
    pub fn advertise_offsets_and_request_missing(&mut self) -> (outbox: Vec<Outbox>)
        requires
            old(self).wf(),
            delays_computable(old(self).offsets_view()),
        ensures
            final(self).wf(),
            final(self).params_view() == old(self).params_view(),
            final(self).peer() == old(self).peer(),
            final(self).self_offsets_view() == old(self).self_offsets_view(),
            final(self).offsets_view() == old(self).offsets_view(),
            final(self).transactions_view() == old(self).transactions_view(),
            final(self).committed_view() == old(self).committed_view(),
            final(self).epochs_view() == old(self).epochs_view(),
            old(self).own_offsets_mirrored() ==> final(self).own_offsets_mirrored(),
            consensus_recalculated(
                old(self).consensus_view(),
                final(self).consensus_view(),
                old(self).offsets_view(),
                old(self).params_view().consensus_nodes as int,
            ),
            outbox@.len() >= 1,
            outbox@[0] matches Outbox::State(st) && st.offsets@ == old(self).self_offsets_view(),
            forall|i: int| 1 <= i < outbox@.len() ==> #[trigger] outbox@[i] is RequestMissingTxs,
            exists|order: Seq<u64>|
                enumerates(order, old(self).offsets_view().dom()) && outbox_requests(
                    outbox@.skip(1),
                ) == delays(
                    old(self).transactions_view(),
                    old(self).self_offsets_view(),
                    old(self).offsets_view(),
                    order,
                ),
    {
        recalculate_consensus_offsets(&mut self.consensus_offset, &self.offsets, self.params.consensus_nodes);
        let mut outbox: Vec<Outbox> = Vec::new();
        outbox.push(Outbox::State(NodeState { offsets: self.self_offsets.clone() }));
        let mut pending = self_delays(&self.transactions, &self.self_offsets, &self.offsets);
        let ghost dv = delay_view(pending@);
        let ghost n = pending.len();
        let ghost order = choose|order: Seq<u64>|
            enumerates(order, self.offsets@.dom()) && dv == delays(
                self.transactions@,
                self.self_offsets@,
                offsets_view(self.offsets@),
                order,
            );
        let mut i: usize = 0;
        while pending.len() > 0
            invariant
                i + pending.len() == n,
                dv.len() == n,
                delay_view(pending@) == dv.skip(i as int),
                outbox@.len() == i + 1,
                outbox@[0] matches Outbox::State(st) && st.offsets@ == self.self_offsets@,
                forall|j: int| 1 <= j < outbox@.len() ==> #[trigger] outbox@[j] is RequestMissingTxs,
                outbox_requests(outbox@.skip(1)) == dv.take(i as int),
            decreases pending.len(),
        {
            let ghost before = pending@;
            let ghost out_before = outbox@;
            let (peer_id, ranges) = pending.remove(0);
            assert(pending@ =~= before.subrange(1, before.len() as int));
            assert(delay_view(before)[0] == (peer_id@, id_pairs(ranges@)));
            assert(delay_view(before)[0] == dv.skip(i as int)[0]);
            outbox.push(Outbox::RequestMissingTxs((peer_id, ranges)));
            assert(outbox@.skip(1) =~= out_before.skip(1).push(outbox@[i + 1]));
            i = i + 1;
            assert forall|k: int| 0 <= k < pending@.len() implies #[trigger] delay_view(pending@)[k] == dv.skip(i as int)[k] by {
                assert(pending@[k] == before[k + 1]);
                assert(delay_view(before)[k + 1] == dv.skip(i - 1)[k + 1]);
            }
            assert(delay_view(pending@) =~= dv.skip(i as int));
            assert(outbox_requests(outbox@.skip(1)) =~= dv.take(i as int));
        }
        assert(dv.take(n as int) =~= dv);
        proof {
            assert(offsets_view(self.offsets@).dom() =~= self.offsets@.dom());
            assert(self.offsets@ == old(self).offsets@);
            assert(self.transactions@ == old(self).transactions@);
            assert(self.self_offsets@ == old(self).self_offsets@);
            assert(enumerates(order, old(self).offsets_view().dom()));
            assert(outbox_requests(outbox@.skip(1)) == delays(
                self.transactions@,
                self.self_offsets@,
                offsets_view(self.offsets@),
                order,
            ));
        }
        outbox
    }

    /// Answers a question about the node's state.
    pub fn handle_request(&self, request: Request) -> (response: Response)
        ensures
            response matches Response::State(c) && c.self_offsets@ == self.self_offsets_view()
                && c.consensus_offset@ == self.consensus_view(),
    {
        match request {
            Request::GetState => Response::State(
                CurrentOffsets {
                    self_offsets: self.self_offsets.clone(),
                    consensus_offset: self.consensus_offset.clone(),
                },
            ),
        }
    }

    /// Commits a new epoch: its increments take each range from just after its committed
    /// offset up to its consensus offset (ranges without progress add nothing), it is chained
    /// to the last epoch by its hash, and the committed offsets move to the increments' ends.
    pub fn commit_epoch_if_needed(&mut self)
        requires
            old(self).wf(),
            commit_computable(old(self).consensus_view(), old(self).committed_view()),
        ensures
            final(self).wf(),
            final(self).params_view() == old(self).params_view(),
            final(self).peer() == old(self).peer(),
            final(self).self_offsets_view() == old(self).self_offsets_view(),
            final(self).offsets_view() == old(self).offsets_view(),
            final(self).transactions_view() == old(self).transactions_view(),
            final(self).consensus_view() == old(self).consensus_view(),
            final(self).epochs_view().len() == old(self).epochs_view().len() + 1,
            final(self).epochs_view().drop_last() == old(self).epochs_view(),
            old(self).own_offsets_mirrored() ==> final(self).own_offsets_mirrored(),
            old(self).epochs_view().len() > 0 ==> final(self).epochs_view().last().hash@ == sha256(
                old(self).epochs_view().last().hash@ + increments_bytes(
                    final(self).epochs_view().last().increments@,
                ),
            ),
            old(self).epochs_view().len() == 0 ==> final(self).epochs_view().last().hash@ == sha256(
                increments_bytes(final(self).epochs_view().last().increments@),
            ),
            exists|order: Seq<u64>|
                enumerates(order, old(self).consensus_view().dom()) && {
                    let incs = epoch_increments(
                        old(self).consensus_view(),
                        old(self).committed_view(),
                        order,
                    );
                    let e = final(self).epochs_view().last();
                    &&& id_pairs(e.increments@) == incs
                    &&& e.hash@ == sha256(epoch_preimage(old(self).last_hash(), e.increments@))
                    &&& final(self).committed_view() == apply_commits(old(self).committed_view(), incs)
                },
    {
        proof {
            assert forall|r: u64| #[trigger] self.consensus_offset@.contains_key(r) implies (
            self.commited_offsets@.contains_key(r) ==> self.commited_offsets@[r] < u64::MAX) && (
            epoch_increment(self.commited_offsets@, r, self.consensus_offset@[r]) is Some ==> id_of(
                r as int,
                self.consensus_offset@[r] as int,
            ) <= u64::MAX) by {
                assert(commit_range_ok(self.consensus_offset@, self.commited_offsets@, r));
            }
        }
        let increments = calculate_epoch_increments(&self.consensus_offset, &self.commited_offsets);
        let ghost incs = id_pairs(increments@);
        let ghost c0 = self.commited_offsets@;
        let prev_hash: Option<[u8; 32]> = if self.epochs.len() > 0 {
            Some(self.epochs[self.epochs.len() - 1].hash)
        } else {
            None
        };
        let mut i: usize = 0;
        while i < increments.len()
            invariant
                i <= increments.len(),
                incs == id_pairs(increments@),
                self.commited_offsets@ == apply_commits(c0, incs.take(i as int)),
                self.params == old(self).params,
                self.peer_id@ == old(self).peer_id@,
                self.self_offsets@ == old(self).self_offsets@,
                self.offsets@ == old(self).offsets@,
                self.transactions@ == old(self).transactions@,
                self.consensus_offset@ == old(self).consensus_offset@,
                self.epochs@ == old(self).epochs@,
            decreases increments.len() - i,
        {
            let (_, finish) = increments[i];
            assert(incs[i as int].1 == finish.0);
            let (range, new_offset) = range_offset_from_unique_blob_id(finish);
            self.commited_offsets.insert(range.0, new_offset.0);
            assert(incs.take(i + 1).drop_last() =~= incs.take(i as int));
            i = i + 1;
        }
        assert(incs.take(increments.len() as int) =~= incs);
        let new_epoch = Epoch::new(increments, prev_hash);
        self.epochs.push(new_epoch);
        assert(self.epochs@.drop_last() =~= old(self).epochs@);
        proof {
            lemma_apply_commits_concat(Map::empty(), epochs_increments(old(self).epochs@), incs);
            let es = self.epochs@;
            let n = es.len() - 1;
            assert(es[n] == new_epoch);
            assert(hash_bytes(prev_hash) + increments_bytes(new_epoch.increments@) =~= if n == 0 {
                increments_bytes(es[n].increments@)
            } else {
                es[n - 1].hash@ + increments_bytes(es[n].increments@)
            });
            assert forall|i: int| 0 <= i < es.len() implies (#[trigger] es[i]).hash@ == sha256(
                if i == 0 {
                    increments_bytes(es[i].increments@)
                } else {
                    es[i - 1].hash@ + increments_bytes(es[i].increments@)
                },
            ) by {
                if i < n {
                    assert(es[i] == old(self).epochs@[i]);
                    if i > 0 {
                        assert(es[i - 1] == old(self).epochs@[i - 1]);
                    }
                }
            }
        }
    }

    /// Whether the node can advertise: for each range, the offset of the node furthest ahead
    /// names an id that fits in 64 bits, and one past it does too.
    pub fn can_advertise(&self) -> (ok: bool)
        ensures
            ok == delays_computable(self.offsets_view()),
    {
        let entries = self.offsets.iter();
        let ghost all = vstd::std_specs::iter::IteratorSpec::remaining(&entries);
        proof {
            lemma_entries_enumerate(self.offsets@, all);
        }
        let mut ok = true;
        for (range, nodes) in it: entries
            invariant
                it.seq() == all,
                enumerates(entry_keys(all), self.offsets@.dom()),
                forall|i: int|
                    0 <= i < all.len() ==> self.offsets@.contains_key(*(#[trigger] all[i]).0)
                        && self.offsets@[*all[i].0] == *all[i].1,
                ok == forall|j: int| 0 <= j < it.index() ==> #[trigger] range_computable(
                    offsets_view(self.offsets@),
                    entry_keys(all)[j],
                ),
                all.len() == entry_keys(all).len(),
        {
            let ghost idx = it.index();
            assert(entry_keys(all)[idx as int] == *range);
            assert(self.offsets@.contains_key(*range) && self.offsets@[*range] == *nodes);
            let fits = if nodes.len() > 0 {
                let best = max_entry(nodes);
                let right = nodes.entries[best].1.0;
                right < u64::MAX && (*range as u128) * (SINGLE_BLOB_SIZE as u128) + (right as u128)
                    <= (u64::MAX as u128)
            } else {
                true
            };
            assert(fits == range_computable(offsets_view(self.offsets@), *range));
            ok = ok && fits;
        }
        proof {
            if ok {
                assert forall|r: u64| #[trigger] range_computable(offsets_view(self.offsets@), r) by {
                    if self.offsets@.contains_key(r) {
                        let j = choose|j: int| 0 <= j < entry_keys(all).len() && entry_keys(all)[j] == r;
                        assert(range_computable(offsets_view(self.offsets@), entry_keys(all)[j]));
                    }
                }
            } else {
                let j = choose|j: int| 0 <= j < all.len() && !(#[trigger] range_computable(offsets_view(self.offsets@), entry_keys(all)[j]));
                assert(!range_computable(offsets_view(self.offsets@), entry_keys(all)[j]));
            }
        }
        ok
    }

    /// Whether an epoch can be committed now: every range's increment can be computed and its
    /// end split into range and offset.
    pub fn can_commit(&self) -> (ok: bool)
        ensures
            ok == commit_computable(self.consensus_view(), self.committed_view()),
    {
        let entries = self.consensus_offset.iter();
        let ghost all = vstd::std_specs::iter::IteratorSpec::remaining(&entries);
        let ghost c = self.consensus_offset@;
        let ghost d = self.commited_offsets@;
        proof {
            lemma_entries_enumerate(c, all);
        }
        let mut ok = true;
        for (range, offset) in it: entries
            invariant
                it.seq() == all,
                c == self.consensus_offset@,
                d == self.commited_offsets@,
                enumerates(entry_keys(all), c.dom()),
                forall|i: int|
                    0 <= i < all.len() ==> c.contains_key(*(#[trigger] all[i]).0) && c[*all[i].0]
                        == *all[i].1,
                all.len() == entry_keys(all).len(),
                ok == forall|j: int| 0 <= j < it.index() ==> #[trigger] commit_range_ok(c, d, entry_keys(all)[j]),
        {
            let ghost idx = it.index();
            assert(entry_keys(all)[idx as int] == *range);
            assert(c.contains_key(*range) && c[*range] == *offset);
            let r = *range;
            let off = *offset;
            let id_fits = (r as u128) * (SINGLE_BLOB_SIZE as u128) + (off as u128) <= (u64::MAX as u128);
            let fits = match self.commited_offsets.get(&r) {
                Some(prev) => *prev < u64::MAX && (*prev + 1 > off || id_fits),
                None => id_fits,
            };
            assert(fits == commit_range_ok(c, d, r));
            ok = ok && fits;
        }
        proof {
            if ok {
                assert forall|r: u64| #[trigger] commit_range_ok(c, d, r) by {
                    if c.contains_key(r) {
                        let j = choose|j: int| 0 <= j < entry_keys(all).len() && entry_keys(all)[j] == r;
                        assert(commit_range_ok(c, d, entry_keys(all)[j]));
                    }
                }
            } else {
                let j = choose|j: int| 0 <= j < all.len() && !(#[trigger] commit_range_ok(c, d, entry_keys(all)[j]));
                assert(!commit_range_ok(c, d, entry_keys(all)[j]));
            }
        }
        ok
    }

    /// Whether a request for these intervals of ids can be answered: each interval is ordered
    /// and ends before the largest id.
    pub fn can_serve(&self, ranges: &Vec<(UniqueU64BlobId, UniqueU64BlobId)>) -> (ok: bool)
        ensures
            ok == requests_servable(id_pairs(ranges@)),
    {
        let ghost rs = id_pairs(ranges@);
        let mut i: usize = 0;
        while i < ranges.len()
            invariant
                i <= ranges.len(),
                rs == id_pairs(ranges@),
                requests_servable(rs.take(i as int)),
            decreases ranges.len() - i,
        {
            let (left, right) = ranges[i];
            assert(rs[i as int] == (left.0 as int, right.0 as int));
            if left.0 > right.0 || right.0 == u64::MAX {
                proof {
                    assert(!requests_servable(rs)) by {
                        let p = rs[i as int];
                        assert(!(p.0 <= p.1 && p.1 < u64::MAX));
                    }
                }
                return false;
            }
            proof {
                assert forall|j: int| 0 <= j < rs.take(i + 1).len() implies {
                    let (l, r) = #[trigger] rs.take(i + 1)[j];
                    l <= r < u64::MAX
                } by {
                    if j < i {
                        assert(rs.take(i + 1)[j] == rs.take(i as int)[j]);
                    }
                }
            }
            i = i + 1;
        }
        assert(rs.take(ranges.len() as int) =~= rs);
        true
    }

    /// The epochs committed so far.
    pub fn epochs(&self) -> (epochs: &Vec<Epoch>)
        ensures
            epochs@ == self.epochs_view(),
    {
        &self.epochs
    }

    /// The committed offset per range.
    pub fn commited_offsets(&self) -> (committed: &HashMap<u64, u64>)
        ensures
            committed@ == self.committed_view(),
    {
        &self.commited_offsets
    }

    /// Handles a message from the network layer: merges another node's advertised offsets,
    /// reports this node's position in a new list of nodes, stores new or missing transactions
    /// and moves this node's offsets accordingly, or answers a request for transactions.
    pub fn handle_inbox_message(&mut self, msg: Inbox) -> (reaction: Reaction)
        requires
            old(self).wf(),
            old(self).accepts(msg),
        ensures
            final(self).wf(),
            final(self).params_view() == old(self).params_view(),
            final(self).peer() == old(self).peer(),
            final(self).consensus_view() == old(self).consensus_view(),
            final(self).committed_view() == old(self).committed_view(),
            final(self).epochs_view() == old(self).epochs_view(),
            old(self).own_offsets_mirrored() && !(msg matches Inbox::State((p, _)) && p@ == old(
                self,
            ).peer()) ==> final(self).own_offsets_mirrored(),
            match msg {
                Inbox::State((peer, st)) => {
                    &&& final(self).offsets_view() == merge_state(
                        old(self).offsets_view(),
                        peer@,
                        st.offsets@,
                    )
                    &&& forall|r: u64| #[trigger]
                        st.offsets@.contains_key(r) ==> offset_of_peer(
                            entries_of(final(self).offsets_view(), r),
                            peer@,
                        ) == Some(st.offsets@[r])
                    &&& final(self).self_offsets_view() == old(self).self_offsets_view()
                    &&& final(self).transactions_view() == old(self).transactions_view()
                    &&& reaction.outbox@.len() == 0
                    &&& reaction.delay_factor is None
                },
                Inbox::Nodes(ids) => {
                    &&& final(self).offsets_view() == old(self).offsets_view()
                    &&& final(self).self_offsets_view() == old(self).self_offsets_view()
                    &&& final(self).transactions_view() == old(self).transactions_view()
                    &&& reaction.outbox@.len() == 0
                    &&& reaction.delay_factor == Some(
                        count_before(peer_keys(ids@), old(self).peer()) as usize,
                    )
                },
                Inbox::NewTransaction(tx) => {
                    let ru = range_update(
                        old(self).self_offsets_view(),
                        old(self).transactions_view(),
                        range_of(tx.id.0 as int) as u64,
                        seq![tx],
                    );
                    &&& final(self).self_offsets_view() == ru.0
                    &&& final(self).transactions_view() == ru.1
                    &&& final(self).offsets_view() == match ru.2 {
                        Some((r, o)) => move_pointer(old(self).offsets_view(), old(self).peer(), r, o),
                        None => old(self).offsets_view(),
                    }
                    &&& reaction.outbox@.len() == 0
                    &&& reaction.delay_factor is None
                },
                Inbox::RequestMissingTxs((peer, ranges)) => {
                    &&& final(self).offsets_view() == old(self).offsets_view()
                    &&& final(self).self_offsets_view() == old(self).self_offsets_view()
                    &&& final(self).transactions_view() == old(self).transactions_view()
                    &&& reaction.outbox@.len() == 1
                    &&& reaction.outbox@[0] matches Outbox::RequestedTxsForPeer((p, txs))
                    &&& p@ == peer@
                    &&& txs@ == requested(old(self).transactions_view(), id_pairs(ranges@))
                    &&& reaction.delay_factor is None
                },
                Inbox::MissingTx(txs) => {
                    &&& exists|order: Seq<u64>|
                        enumerates(order, tx_groups(txs@).dom()) && {
                            let (so2, tm2, ups) = range_updates(
                                old(self).self_offsets_view(),
                                old(self).transactions_view(),
                                tx_groups(txs@),
                                order,
                            );
                            &&& final(self).self_offsets_view() == so2
                            &&& final(self).transactions_view() == tm2
                            &&& final(self).offsets_view() == move_pointers(
                                old(self).offsets_view(),
                                old(self).peer(),
                                ups,
                            )
                        }
                    &&& reaction.outbox@.len() == 0
                    &&& reaction.delay_factor is None
                },
            },
    {
        match msg {
            Inbox::State((peer_id, state)) => {
                let ghost p = peer_id@;
                let ghost st = state.offsets@;
                let ghost m = offsets_view(self.offsets@);
                merge_peer_state(&mut self.offsets, peer_id, &state.offsets);
                proof {
                    lemma_entries_unique(old(self).offsets@);
                    lemma_merge_state(m, p, st);
                    if old(self).own_offsets_mirrored() && p != self.peer_id@ {
                        lemma_entries_unique(old(self).offsets@);
                        let me = self.peer_id@;
                        assert forall|r: u64| #[trigger]
                            offset_of_peer(entries_of(merge_state(m, p, st), r), me) == offset_of_peer(
                                entries_of(m, r),
                                me,
                            ) by {
                            if st.contains_key(r) {
                                assert(unique_peers(entries_of(m, r)));
                                lemma_set_peer_offsets(entries_of(m, r), p, st[r]);
                            }
                        }
                        assert(mirrors(self.self_offsets@, m, me));
                    }
                }
                Reaction { outbox: Vec::new(), delay_factor: None }
            },
            Inbox::Nodes(nodes) => {
                let factor = delay_factor(&self.peer_id, &nodes);
                Reaction { outbox: Vec::new(), delay_factor: Some(factor) }
            },
            Inbox::NewTransaction(tx) => {
                let ghost r = range_of(tx.id.0 as int) as u64;
                proof {
                    assert(range_of(tx.id.0 as int) <= MAX_BLOCK_INDEX);
                    let input = map![r => seq![tx]];
                    assert(input.contains_key(r));
                    assert(updates_computable(self.self_offsets@, input));
                    lemma_range_update_moves(self.self_offsets@, self.transactions@, r, seq![tx]);
                    lemma_entries_unique(self.offsets@);
                    let so2 = range_update(self.self_offsets@, self.transactions@, r, seq![tx]).0;
                    assert forall|q: u64| #[trigger] so2.contains_key(q) implies q <= MAX_BLOCK_INDEX
                        && so2[q] < SINGLE_BLOB_SIZE by {
                        if q != r {
                            assert(self.self_offsets@.contains_key(q));
                        }
                    }
                }
                let ghost so0 = self.self_offsets@;
                let ghost m = offsets_view(self.offsets@);
                let update = update_self_offset(&mut self.self_offsets, &mut self.transactions, tx);
                if let Some((new_range, new_offset)) = update {
                    let me = self.peer_id.duplicate();
                    move_offset_pointer(&mut self.offsets, me, new_range, new_offset);
                    proof {
                        lemma_move_pointer_offsets(m, self.peer_id@, new_range.0, new_offset.0);
                    }
                }
                proof {
                    if old(self).own_offsets_mirrored() {
                        let me = self.peer_id@;
                        let so2 = self.self_offsets@;
                        assert forall|q: u64| #[trigger] offset_of_peer(
                            entries_of(offsets_view(self.offsets@), q),
                            me,
                        ) == if so2.contains_key(q) {
                            Some(so2[q])
                        } else {
                            None
                        } by {
                            assert(offset_of_peer(entries_of(m, q), me) == if so0.contains_key(q) {
                                Some(so0[q])
                            } else {
                                None
                            });
                        }
                    }
                }
                Reaction { outbox: Vec::new(), delay_factor: None }
            },
            Inbox::MissingTx(txs) => {
                let ghost tx_seq = txs@;
                let range_map = txs_to_range_tx_map(txs);
                proof {
                    assert(groups(range_map@) =~= tx_groups(tx_seq));
                    lemma_tx_groups_in_space(tx_seq);
                    assert(filed_by_range(groups(range_map@)));
                }
                let ghost so0 = self.self_offsets@;
                let ghost tm0 = self.transactions@;
                let updates = update_self_offsets(
                    &mut self.self_offsets,
                    &mut self.transactions,
                    range_map,
                );
                let ghost ups = range_offset_pairs(updates@);
                proof {
                    let order = choose|order: Seq<u64>|
                        enumerates(order, range_map@.dom()) && (
                        self.self_offsets@,
                        self.transactions@,
                        ups,
                    ) == range_updates(so0, tm0, groups(range_map@), order);
                    assert(range_map@.dom() =~= tx_groups(tx_seq).dom());
                    assert forall|i: int| 0 <= i < order.len() implies tx_groups(tx_seq).contains_key(
                        #[trigger] order[i],
                    ) by {
                        assert(order.contains(order[i]));
                    }
                    assert forall|q: u64| #[trigger] self.self_offsets@.contains_key(q) implies q
                        <= MAX_BLOCK_INDEX && self.self_offsets@[q] < SINGLE_BLOB_SIZE by {
                        if !range_map@.dom().contains(q) {
                            assert(so0.contains_key(q));
                        } else {
                            assert(tx_groups(tx_seq).contains_key(q));
                        }
                    }
                }
                let ghost offs0 = offsets_view(self.offsets@);
                let ghost so1 = self.self_offsets@;
                let ghost tm1 = self.transactions@;
                let mut i: usize = 0;
                while i < updates.len()
                    invariant
                        i <= updates.len(),
                        self.params == old(self).params,
                        self.peer_id@ == old(self).peer_id@,
                        self.self_offsets@ == so1,
                        self.transactions@ == tm1,
                        self.consensus_offset@ == old(self).consensus_offset@,
                        self.commited_offsets@ == old(self).commited_offsets@,
                        self.epochs@ == old(self).epochs@,
                        ups == range_offset_pairs(updates@),
                        offsets_wf(self.offsets@),
                        offsets_view(self.offsets@) == move_pointers(offs0, self.peer_id@, ups.take(i as int)),
                    decreases updates.len() - i,
                {
                    assert(ups.take(i + 1).drop_last() =~= ups.take(i as int));
                    let (new_range, new_offset) = updates[i];
                    assert(ups.take(i + 1).last() == (new_range.0, new_offset.0));
                    let me = self.peer_id.duplicate();
                    move_offset_pointer(&mut self.offsets, me, new_range, new_offset);
                    i = i + 1;
                }
                assert(ups.take(updates.len() as int) =~= ups);
                proof {
                    if old(self).own_offsets_mirrored() {
                        lemma_entries_unique(old(self).offsets@);
                        lemma_mirror_moves(so0, so1, offs0, self.peer_id@, ups, range_map@.dom());
                    }
                }
                Reaction { outbox: Vec::new(), delay_factor: None }
            },
            Inbox::RequestMissingTxs((peer_id, ranges)) => {
                let response = requested_transactions(&self.transactions, &ranges);
                let mut outbox: Vec<Outbox> = Vec::new();
                outbox.push(Outbox::RequestedTxsForPeer((peer_id, response)));
                Reaction { outbox, delay_factor: None }
            },
        }
    }

}

} // verus!
