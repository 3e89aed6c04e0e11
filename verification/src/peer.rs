use vstd::prelude::*;
use crate::range_key::KeyOffset;

verus! {

/// Identifier of a peer of the network: the code and the digest of its multihash.
#[derive(Debug, Clone, PartialEq, Eq, Hash)]
pub struct PeerId {
    pub code: u64,
    pub digest: Vec<u8>,
}

/// A peer id as a plain value.
pub type PeerKey = (u64, Seq<u8>);

impl View for PeerId {
    type V = PeerKey;

    open spec fn view(&self) -> PeerKey {
        (self.code, self.digest@)
    }
}

/// Lexicographic order of two byte strings of the same length.
pub open spec fn bytes_lt(a: Seq<u8>, b: Seq<u8>) -> bool {
    exists|i: int|
        0 <= i < a.len() && i < b.len() && a.subrange(0, i) == b.subrange(0, i) && #[trigger] a[i]
            < b[i]
}

/// The order of peer ids: by multihash code, then by digest size, then by the digest's bytes.
pub open spec fn peer_lt(a: PeerKey, b: PeerKey) -> bool {
    ||| a.0 < b.0
    ||| a.0 == b.0 && a.1.len() < b.1.len()
    ||| a.0 == b.0 && a.1.len() == b.1.len() && bytes_lt(a.1, b.1)
}

/// Two byte strings of the same length that agree on their first `i` bytes but differ somewhere
/// differ first at some position at or after `i`.
proof fn lemma_first_difference(a: Seq<u8>, b: Seq<u8>, i: int)
    requires
        a.len() == b.len(),
        0 <= i <= a.len(),
        a.subrange(0, i) == b.subrange(0, i),
        a != b,
    ensures
        exists|k: int| i <= k < a.len() && a.subrange(0, k) == b.subrange(0, k) && #[trigger] a[k] != b[k],
    decreases a.len() - i,
{
    if i == a.len() {
        assert(a =~= a.subrange(0, i));
        assert(b =~= b.subrange(0, i));
    } else if a[i] != b[i] {
        assert(a[i] != b[i]);
    } else {
        assert(a.subrange(0, i + 1) =~= a.subrange(0, i).push(a[i]));
        assert(b.subrange(0, i + 1) =~= b.subrange(0, i).push(b[i]));
        lemma_first_difference(a, b, i + 1);
    }
}

/// The order of peer ids is a strict total order: no id comes before itself, of two ids at most
/// one comes before the other, and of two distinct ids one always comes before the other; two
/// digests of the same length are ordered by the first byte where they differ.
pub proof fn lemma_peer_order_total(a: PeerKey, b: PeerKey)
    ensures
        !peer_lt(a, a),
        !(peer_lt(a, b) && peer_lt(b, a)),
        a != b ==> peer_lt(a, b) || peer_lt(b, a),
        forall|k: int|
            a.0 == b.0 && a.1.len() == b.1.len() && 0 <= k < a.1.len() && a.1.subrange(0, k) == b.1.subrange(0, k)
                && #[trigger] a.1[k] < b.1[k] ==> peer_lt(a, b),
{
    if bytes_lt(a.1, a.1) {
        let i = choose|i: int| 0 <= i < a.1.len() && i < a.1.len() && a.1.subrange(0, i) == a.1.subrange(0, i) && #[trigger] a.1[i] < a.1[i];
    }
    if a.0 == b.0 && a.1.len() == b.1.len() && bytes_lt(a.1, b.1) && bytes_lt(b.1, a.1) {
        let i = choose|i: int| 0 <= i < a.1.len() && i < b.1.len() && a.1.subrange(0, i) == b.1.subrange(0, i) && #[trigger] a.1[i] < b.1[i];
        let j = choose|j: int| 0 <= j < b.1.len() && j < a.1.len() && b.1.subrange(0, j) == a.1.subrange(0, j) && #[trigger] b.1[j] < a.1[j];
        if i < j {
            assert(b.1.subrange(0, j)[i] == a.1.subrange(0, j)[i]);
        } else if j < i {
            assert(a.1.subrange(0, i)[j] == b.1.subrange(0, i)[j]);
        }
    }
    if a != b && a.0 == b.0 && a.1.len() == b.1.len() {
        assert(a.1 != b.1);
        assert(a.1.subrange(0, 0) =~= b.1.subrange(0, 0));
        lemma_first_difference(a.1, b.1, 0);
        let k = choose|k: int| 0 <= k < a.1.len() && a.1.subrange(0, k) == b.1.subrange(0, k) && #[trigger] a.1[k] != b.1[k];
        if a.1[k] < b.1[k] {
            assert(bytes_lt(a.1, b.1));
        } else {
            assert(b.1.subrange(0, k) == a.1.subrange(0, k));
            assert(bytes_lt(b.1, a.1));
        }
    }
}

/// How many of `ids` come before `p` in the order of peer ids.
pub open spec fn count_before(ids: Seq<PeerKey>, p: PeerKey) -> nat
    decreases ids.len(),
{
    if ids.len() == 0 {
        0
    } else {
        count_before(ids.drop_last(), p) + if peer_lt(ids.last(), p) {
            1nat
        } else {
            0nat
        }
    }
}

/// The plain values of a list of peer ids.
pub open spec fn peer_keys(ids: Seq<PeerId>) -> Seq<PeerKey> {
    ids.map_values(|p: PeerId| p@)
}

impl PeerId {
    /// A copy of this id.
    pub fn duplicate(&self) -> (r: PeerId)
        ensures
            r@ == self@,
    {
        let digest = self.digest.clone();
        assert(digest@ =~= self.digest@);
        PeerId { code: self.code, digest }
    }

    /// Whether two ids are the same.
    pub fn same(&self, other: &PeerId) -> (b: bool)
        ensures
            b == (self@ == other@),
    {
        if self.code != other.code || self.digest.len() != other.digest.len() {
            return false;
        }
        let mut i: usize = 0;
        while i < self.digest.len()
            invariant
                self.digest.len() == other.digest.len(),
                i <= self.digest.len(),
                forall|j: int| 0 <= j < i ==> self.digest@[j] == other.digest@[j],
            decreases self.digest.len() - i,
        {
            if self.digest[i] != other.digest[i] {
                return false;
            }
            i = i + 1;
        }
        assert(self.digest@ =~= other.digest@);
        true
    }

    /// Whether this id comes before `other` in the order of peer ids.
    pub fn precedes(&self, other: &PeerId) -> (b: bool)
        ensures
            b == peer_lt(self@, other@),
    {
        if self.code != other.code {
            return self.code < other.code;
        }
        if self.digest.len() != other.digest.len() {
            return self.digest.len() < other.digest.len();
        }
        let a = &self.digest;
        let b = &other.digest;
        let mut i: usize = 0;
        while i < a.len() && a[i] == b[i]
            invariant
                a.len() == b.len(),
                i <= a.len(),
                forall|j: int| 0 <= j < i ==> a@[j] == b@[j],
            decreases a.len() - i,
        {
            i = i + 1;
        }
        assert(a@.subrange(0, i as int) =~= b@.subrange(0, i as int));
        if i < a.len() && a[i] < b[i] {
            assert(bytes_lt(a@, b@));
            true
        } else {
            assert forall|k: int|
                0 <= k < a@.len() && k < b@.len() && a@.subrange(0, k) == b@.subrange(0, k) implies !(
                #[trigger] a@[k] < b@[k]) by {
                if k > i {
                    assert(a@.subrange(0, k)[i as int] == b@.subrange(0, k)[i as int]);
                }
            }
            false
        }
    }
}

/// The position of `self_id` among `ids` once they are sorted: the number of ids before it.
pub fn delay_factor(self_id: &PeerId, ids: &Vec<PeerId>) -> (r: usize)
    requires
        peer_keys(ids@).contains(self_id@),
        peer_keys(ids@).no_duplicates(),
    ensures
        r == count_before(peer_keys(ids@), self_id@),
        r < ids.len(),
{
    let mut count: usize = 0;
    let mut i: usize = 0;
    while i < ids.len()
        invariant
            i <= ids.len(),
            count == count_before(peer_keys(ids@).take(i as int), self_id@),
            count <= i,
        decreases ids.len() - i,
    {
        assert(peer_keys(ids@).take(i + 1).drop_last() =~= peer_keys(ids@).take(i as int));
        if ids[i].precedes(self_id) {
            count = count + 1;
        }
        i = i + 1;
    }
    assert(peer_keys(ids@).take(ids.len() as int) =~= peer_keys(ids@));
    proof {
        lemma_count_before_excludes_self(peer_keys(ids@), self_id@);
    }
    count
}

/// A peer is never before itself, so counting the ones before it leaves it out.
proof fn lemma_count_before_excludes_self(ids: Seq<PeerKey>, p: PeerKey)
    requires
        ids.contains(p),
    ensures
        count_before(ids, p) < ids.len(),
    decreases ids.len(),
{
    lemma_count_before_le(ids.drop_last(), p);
    if ids.last() != p {
        let k = choose|k: int| 0 <= k < ids.len() && ids[k] == p;
        assert(ids.drop_last()[k] == p);
        lemma_count_before_excludes_self(ids.drop_last(), p);
    } else {
        assert(!bytes_lt(p.1, p.1));
    }
}

proof fn lemma_count_before_le(ids: Seq<PeerKey>, p: PeerKey)
    ensures
        count_before(ids, p) <= ids.len(),
    decreases ids.len(),
{
    if ids.len() > 0 {
        lemma_count_before_le(ids.drop_last(), p);
    }
}

/// The offsets that peers have advertised for one range, one entry per peer.
#[derive(Debug, Clone, PartialEq, Eq)]
pub struct PeerOffsets {
    pub entries: Vec<(PeerId, KeyOffset)>,
}

/// An entry of `PeerOffsets` as a plain value.
pub type PeerEntry = (PeerKey, u64);

/// Whether some entry belongs to peer `k`.
pub open spec fn has_peer(s: Seq<PeerEntry>, k: PeerKey) -> bool {
    exists|i: int| 0 <= i < s.len() && (#[trigger] s[i]).0 == k
}

/// No peer has two entries.
pub open spec fn unique_peers(s: Seq<PeerEntry>) -> bool {
    forall|i: int, j: int| 0 <= i < s.len() && 0 <= j < s.len() && i != j ==> (#[trigger] s[i]).0 != (#[trigger] s[j]).0
}

/// The entries after peer `k` is given offset `v`: its entry is updated in place, or a new
/// entry is added at the end.
pub open spec fn set_peer(s: Seq<PeerEntry>, k: PeerKey, v: u64) -> Seq<PeerEntry> {
    if has_peer(s, k) {
        let i = choose|i: int| 0 <= i < s.len() && (#[trigger] s[i]).0 == k;
        s.update(i, (k, v))
    } else {
        s.push((k, v))
    }
}

/// The offsets of a list of entries.
pub open spec fn entry_offsets(s: Seq<PeerEntry>) -> Seq<u64> {
    s.map_values(|e: PeerEntry| e.1)
}

impl View for PeerOffsets {
    type V = Seq<PeerEntry>;

    open spec fn view(&self) -> Seq<PeerEntry> {
        self.entries@.map_values(|e: (PeerId, KeyOffset)| (e.0@, e.1.0))
    }
}

impl PeerOffsets {
    /// Each peer has at most one entry.
    pub open spec fn wf(&self) -> bool {
        unique_peers(self@)
    }

    /// No offsets yet.
    pub fn new() -> (r: PeerOffsets)
        ensures
            r@ == Seq::<PeerEntry>::empty(),
            r.wf(),
    {
        let r = PeerOffsets { entries: Vec::new() };
        assert(r@ =~= Seq::<PeerEntry>::empty());
        r
    }

    /// The offsets of a single peer.
    pub fn single(peer: PeerId, offset: KeyOffset) -> (r: PeerOffsets)
        ensures
            r@ == seq![(peer@, offset.0)],
            r.wf(),
    {
        let mut r = PeerOffsets::new();
        r.set(peer, offset);
        assert(set_peer(Seq::<PeerEntry>::empty(), peer@, offset.0) =~= seq![(peer@, offset.0)]);
        r
    }

    /// Number of peers with an offset.
    pub fn len(&self) -> (n: usize)
        ensures
            n == self@.len(),
    {
        self.entries.len()
    }

    /// Records `offset` for `peer`, replacing what it had.
    pub fn set(&mut self, peer: PeerId, offset: KeyOffset)
        requires
            old(self).wf(),
        ensures
            final(self).wf(),
            final(self)@ == set_peer(old(self)@, peer@, offset.0),
    {
        let ghost k = peer@;
        let mut i: usize = 0;
        while i < self.entries.len()
            invariant
                i <= self.entries.len(),
                self@ == old(self)@,
                unique_peers(self@),
                k == peer@,
                forall|j: int| 0 <= j < i ==> (#[trigger] self@[j]).0 != k,
            decreases self.entries.len() - i,
        {
            if self.entries[i].0.same(&peer) {
                assert(self@[i as int].0 == k);
                proof {
                    let c = choose|c: int| 0 <= c < self@.len() && (#[trigger] self@[c]).0 == k;
                    assert(c == i);
                }
                self.entries.set(i, (peer, offset));
                assert(self@ =~= old(self)@.update(i as int, (k, offset.0)));
                return;
            }
            i = i + 1;
        }
        assert(!has_peer(self@, k));
        self.entries.push((peer, offset));
        assert(self@ =~= old(self)@.push((k, offset.0)));
    }
}

/// Number of offsets that are at least `t`.
pub open spec fn count_ge(s: Seq<u64>, t: int) -> nat
    decreases s.len(),
{
    if s.len() == 0 {
        0
    } else {
        count_ge(s.drop_last(), t) + if s.last() >= t {
            1nat
        } else {
            0nat
        }
    }
}

/// Number of offsets that are above `t`.
pub open spec fn count_gt(s: Seq<u64>, t: int) -> nat
    decreases s.len(),
{
    if s.len() == 0 {
        0
    } else {
        count_gt(s.drop_last(), t) + if s.last() > t {
            1nat
        } else {
            0nat
        }
    }
}

/// `v` is the `n`-th largest offset: fewer than `n` offsets are above it and at least `n`
/// offsets are at least it.
pub open spec fn is_nth_largest(s: Seq<u64>, n: int, v: u64) -> bool {
    count_gt(s, v as int) < n <= count_ge(s, v as int)
}

/// The largest offset that at least `n_consensus` peers have reached, counting repeated
/// offsets once per peer; none when fewer than `n_consensus` peers have an offset.
pub fn consensus_maximum(map: &PeerOffsets, n_consensus: usize) -> (r: Option<KeyOffset>)
    requires
        n_consensus >= 1,
    ensures
        r is None <==> map@.len() < n_consensus,
        r matches Some(v) ==> (is_nth_largest(entry_offsets(map@), n_consensus as int, v.0)
            && entry_offsets(map@).contains(v.0)),
{
    let n = n_consensus;
    if map.entries.len() < n {
        return None;
    }
    let ghost vals = entry_offsets(map@);
    proof {
        lemma_nth_largest_exists(vals, n as int);
    }
    let mut i: usize = 0;
    while i < map.entries.len()
        invariant
            i <= map.entries.len(),
            vals == entry_offsets(map@),
            n == n_consensus,
            n <= vals.len(),
            n >= 1,
            forall|j: int| 0 <= j < i ==> !is_nth_largest(vals, n as int, #[trigger] vals[j]),
            exists|j: int| 0 <= j < vals.len() && is_nth_largest(vals, n as int, #[trigger] vals[j]),
        decreases map.entries.len() - i,
    {
        let v = map.entries[i].1.0;
        assert(v == vals[i as int]);
        let ge = count_offsets(map, v, true);
        let gt = count_offsets(map, v, false);
        if gt < n && n <= ge {
            assert(is_nth_largest(vals, n as int, v));
            assert(vals.contains(v));
            assert(map@.len() == vals.len());
            return Some(KeyOffset(v));
        }
        i = i + 1;
    }
    proof {
        let j = choose|j: int| 0 <= j < vals.len() && is_nth_largest(vals, n as int, #[trigger] vals[j]);
        assert(!is_nth_largest(vals, n as int, vals[j]));
    }
    vstd::pervasive::unreached()
}

/// Number of offsets that are at least `t` (or above `t`, when `inclusive` is false).
fn count_offsets(map: &PeerOffsets, t: u64, inclusive: bool) -> (c: usize)
    ensures
        inclusive ==> c == count_ge(entry_offsets(map@), t as int),
        !inclusive ==> c == count_gt(entry_offsets(map@), t as int),
{
    let ghost vals = entry_offsets(map@);
    let mut c: usize = 0;
    let mut i: usize = 0;
    while i < map.entries.len()
        invariant
            i <= map.entries.len(),
            vals == entry_offsets(map@),
            inclusive ==> c == count_ge(vals.take(i as int), t as int),
            !inclusive ==> c == count_gt(vals.take(i as int), t as int),
            c <= i,
        decreases map.entries.len() - i,
    {
        assert(vals.take(i + 1).drop_last() =~= vals.take(i as int));
        let v = map.entries[i].1.0;
        assert(v == vals[i as int]);
        if (inclusive && v >= t) || (!inclusive && v > t) {
            c = c + 1;
        }
        i = i + 1;
    }
    assert(vals.take(i as int) =~= vals);
    c
}

proof fn lemma_count_ge_zero(s: Seq<u64>)
    ensures
        count_ge(s, 0) == s.len(),
    decreases s.len(),
{
    if s.len() > 0 {
        lemma_count_ge_zero(s.drop_last());
    }
}

proof fn lemma_count_ge_past_max(s: Seq<u64>)
    ensures
        count_ge(s, u64::MAX + 1) == 0,
    decreases s.len(),
{
    if s.len() > 0 {
        lemma_count_ge_past_max(s.drop_last());
    }
}

/// Counting above `t` is counting from `t + 1`, and the two counts at `t` differ exactly when
/// `t` occurs.
proof fn lemma_count_steps(s: Seq<u64>, t: int)
    ensures
        count_gt(s, t) == count_ge(s, t + 1),
        count_ge(s, t) >= count_ge(s, t + 1),
        count_ge(s, t) > count_ge(s, t + 1) ==> exists|i: int| 0 <= i < s.len() && s[i] == t,
    decreases s.len(),
{
    if s.len() > 0 {
        lemma_count_steps(s.drop_last(), t);
        if count_ge(s.drop_last(), t) > count_ge(s.drop_last(), t + 1) {
            let i = choose|i: int| 0 <= i < s.drop_last().len() && s.drop_last()[i] == t;
            assert(s[i] == t);
        }
    }
}

/// Between a threshold that at least `n` offsets reach and one that fewer reach, there is a
/// last threshold that at least `n` offsets reach.
proof fn lemma_threshold_step(s: Seq<u64>, n: int, a: int, b: int) -> (t: int)
    requires
        a < b,
        count_ge(s, a) >= n,
        count_ge(s, b) < n,
    ensures
        a <= t < b,
        count_ge(s, t) >= n,
        count_ge(s, t + 1) < n,
    decreases b - a,
{
    if count_ge(s, a + 1) < n {
        a
    } else {
        lemma_threshold_step(s, n, a + 1, b)
    }
}

/// When there are at least `n` offsets, one of them is the `n`-th largest.
proof fn lemma_nth_largest_exists(s: Seq<u64>, n: int)
    requires
        1 <= n <= s.len(),
    ensures
        exists|j: int| 0 <= j < s.len() && is_nth_largest(s, n, #[trigger] s[j]),
{
    lemma_count_ge_zero(s);
    lemma_count_ge_past_max(s);
    let t = lemma_threshold_step(s, n, 0, u64::MAX + 1);
    lemma_count_steps(s, t);
    let j = choose|j: int| 0 <= j < s.len() && s[j] == t;
    assert(is_nth_largest(s, n, s[j]));
}

/// At most one offset is the `n`-th largest.
pub proof fn lemma_nth_largest_unique(s: Seq<u64>, n: int, v: u64, w: u64)
    requires
        is_nth_largest(s, n, v),
        is_nth_largest(s, n, w),
    ensures
        v == w,
{
    if v < w {
        lemma_count_ge_monotone(s, v as int + 1, w as int);
        lemma_count_steps(s, v as int);
    } else if w < v {
        lemma_count_ge_monotone(s, w as int + 1, v as int);
        lemma_count_steps(s, w as int);
    }
}

proof fn lemma_count_ge_monotone(s: Seq<u64>, a: int, b: int)
    requires
        a <= b,
    ensures
        count_ge(s, a) >= count_ge(s, b),
    decreases s.len(),
{
    if s.len() > 0 {
        lemma_count_ge_monotone(s.drop_last(), a, b);
    }
}

/// The consensus offset is the largest offset that at least `n` peers have reached: at least
/// `n` offsets are at or above it, and fewer than `n` are at or above any larger offset.
pub proof fn lemma_consensus_is_max(s: Seq<u64>, n: int, v: u64)
    requires
        is_nth_largest(s, n, v),
    ensures
        count_ge(s, v as int) >= n,
        forall|w: int| w > v ==> #[trigger] count_ge(s, w) < n,
{
    lemma_count_steps(s, v as int);
    assert forall|w: int| w > v implies #[trigger] count_ge(s, w) < n by {
        lemma_count_ge_monotone(s, v as int + 1, w);
    }
}

} // verus!
