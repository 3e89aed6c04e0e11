use vstd::prelude::*;
use crate::peer::{PeerId, PeerKey, peer_keys};

verus! {

/// The role a peer announces when it connects.
#[derive(Debug, Clone, Copy, PartialEq, Eq, Structural)]
pub enum Role {
    Gateway,
    Node,
}

/// The keys of `s` other than `k`, in order.
pub open spec fn without(s: Seq<PeerKey>, k: PeerKey) -> Seq<PeerKey> {
    s.filter(|x: PeerKey| x != k)
}

/// A set of peers, each held once, in the order they were added.
#[derive(Debug, Clone, PartialEq, Eq)]
pub struct PeerSet {
    pub ids: Vec<PeerId>,
}

impl View for PeerSet {
    type V = Seq<PeerKey>;

    open spec fn view(&self) -> Seq<PeerKey> {
        peer_keys(self.ids@)
    }
}

impl PeerSet {
    /// No peer is held twice.
    pub open spec fn wf(&self) -> bool {
        self@.no_duplicates()
    }

    /// An empty set.
    pub fn new() -> (s: PeerSet)
        ensures
            s.wf(),
            s@ == Seq::<PeerKey>::empty(),
    {
        let s = PeerSet { ids: Vec::new() };
        assert(s@ =~= Seq::<PeerKey>::empty());
        s
    }

    /// Number of peers held.
    pub fn len(&self) -> (n: usize)
        ensures
            n == self@.len(),
    {
        self.ids.len()
    }

    /// Where `peer` is held, if it is.
    fn position(&self, peer: &PeerId) -> (i: Option<usize>)
        ensures
            match i {
                Some(i) => i < self@.len() && self@[i as int] == peer@,
                None => !self@.contains(peer@),
            },
    {
        let mut i: usize = 0;
        while i < self.ids.len()
            invariant
                i <= self.ids.len(),
                forall|j: int| 0 <= j < i ==> self@[j] != peer@,
            decreases self.ids.len() - i,
        {
            if self.ids[i].same(peer) {
                return Some(i);
            }
            i = i + 1;
        }
        None
    }

    /// Whether `peer` is held.
    pub fn contains(&self, peer: &PeerId) -> (b: bool)
        ensures
            b == self@.contains(peer@),
    {
        self.position(peer).is_some()
    }

    /// Adds `peer`; returns whether it was not held yet.
    pub fn insert(&mut self, peer: PeerId) -> (added: bool)
        requires
            old(self).wf(),
        ensures
            final(self).wf(),
            added == !old(self)@.contains(peer@),
            final(self)@ == if added {
                old(self)@.push(peer@)
            } else {
                old(self)@
            },
    {
        if self.position(&peer).is_some() {
            return false;
        }
        let ghost k = peer@;
        self.ids.push(peer);
        assert(self@ =~= old(self)@.push(k));
        true
    }

    /// Removes `peer`; returns whether it was held.
    pub fn remove(&mut self, peer: &PeerId) -> (removed: bool)
        requires
            old(self).wf(),
        ensures
            final(self).wf(),
            removed == old(self)@.contains(peer@),
            final(self)@ == without(old(self)@, peer@),
    {
        match self.position(peer) {
            Some(i) => {
                let ghost before = self@;
                self.ids.remove(i);
                proof {
                    assert(self@ =~= before.remove(i as int));
                    lemma_remove_is_filter(before, i as int, peer@);
                }
                true
            },
            None => {
                proof {
                    lemma_filter_absent(self@, peer@);
                }
                false
            },
        }
    }

    /// A copy of the peers held, in order.
    pub fn to_vec(&self) -> (v: Vec<PeerId>)
        ensures
            peer_keys(v@) == self@,
    {
        let mut v: Vec<PeerId> = Vec::new();
        let mut i: usize = 0;
        while i < self.ids.len()
            invariant
                i <= self.ids.len(),
                peer_keys(v@) == self@.take(i as int),
            decreases self.ids.len() - i,
        {
            let ghost before = v@;
            v.push(self.ids[i].duplicate());
            assert(self@[i as int] == self.ids@[i as int]@);
            assert(peer_keys(v@) =~= peer_keys(before).push(self@[i as int]));
            i = i + 1;
            assert(peer_keys(v@) =~= self@.take(i as int));
        }
        assert(self@.take(i as int) =~= self@);
        v
    }
}

/// Filtering out a key that is not there keeps the sequence.
proof fn lemma_filter_absent(s: Seq<PeerKey>, k: PeerKey)
    requires
        !s.contains(k),
    ensures
        without(s, k) == s,
    decreases s.len(),
{
    reveal(Seq::filter);
    if s.len() > 0 {
        assert(!s.drop_last().contains(k)) by {
            if s.drop_last().contains(k) {
                let j = choose|j: int| 0 <= j < s.drop_last().len() && s.drop_last()[j] == k;
                assert(s[j] == k);
            }
        }
        lemma_filter_absent(s.drop_last(), k);
        assert(s.last() != k) by {
            assert(s[s.len() - 1] == s.last());
        }
        assert(s.drop_last().push(s.last()) =~= s);
    }
}

/// Removing the only occurrence of a key is filtering it out.
proof fn lemma_remove_is_filter(s: Seq<PeerKey>, i: int, k: PeerKey)
    requires
        s.no_duplicates(),
        0 <= i < s.len(),
        s[i] == k,
    ensures
        s.remove(i) == without(s, k),
        s.remove(i).no_duplicates(),
    decreases s.len(),
{
    reveal(Seq::filter);
    if i == s.len() - 1 {
        assert(s.remove(i) =~= s.drop_last());
        assert(!s.drop_last().contains(k)) by {
            if s.drop_last().contains(k) {
                let j = choose|j: int| 0 <= j < s.drop_last().len() && s.drop_last()[j] == k;
                assert(s[j] == s[i]);
            }
        }
        lemma_filter_absent(s.drop_last(), k);
    } else {
        let d = s.drop_last();
        assert(d[i] == k);
        lemma_remove_is_filter(d, i, k);
        assert(s.last() != k) by {
            assert(s[s.len() - 1] == s.last());
        }
        assert(s.remove(i) =~= d.remove(i).push(s.last()));
    }
}

/// Which peers are alive, by the role they announced. This node counts among the nodes.
#[derive(Debug)]
pub struct PeerRegistry {
    pub nodes: PeerSet,
    pub gateways: PeerSet,
}

impl PeerRegistry {
    /// Both sets are sets.
    pub open spec fn wf(&self) -> bool {
        self.nodes.wf() && self.gateways.wf()
    }

    /// A registry where only this node is alive.
    pub fn new(self_id: PeerId) -> (r: PeerRegistry)
        ensures
            r.wf(),
            r.nodes@ == seq![self_id@],
            r.gateways@ == Seq::<PeerKey>::empty(),
    {
        let mut nodes = PeerSet::new();
        nodes.insert(self_id);
        PeerRegistry { nodes, gateways: PeerSet::new() }
    }

    /// A peer announced its role. A gateway is remembered; a node is remembered and the alive
    /// nodes are returned, to be passed on.
    pub fn on_role(&mut self, peer: PeerId, role: Role) -> (nodes: Option<Vec<PeerId>>)
        requires
            old(self).wf(),
        ensures
            final(self).wf(),
            match role {
                Role::Gateway => {
                    &&& final(self).nodes == old(self).nodes
                    &&& final(self).gateways@ == if old(self).gateways@.contains(peer@) {
                        old(self).gateways@
                    } else {
                        old(self).gateways@.push(peer@)
                    }
                    &&& nodes is None
                },
                Role::Node => {
                    &&& final(self).gateways == old(self).gateways
                    &&& final(self).nodes@ == if old(self).nodes@.contains(peer@) {
                        old(self).nodes@
                    } else {
                        old(self).nodes@.push(peer@)
                    }
                    &&& nodes matches Some(v) && peer_keys(v@) == final(self).nodes@
                },
            },
    {
        match role {
            Role::Gateway => {
                self.gateways.insert(peer);
                None
            },
            Role::Node => {
                self.nodes.insert(peer);
                Some(self.nodes.to_vec())
            },
        }
    }

    /// A connection closed. The peer is forgotten as a gateway and as a node; when it was an
    /// alive node, the remaining nodes are returned, to be passed on.
    pub fn on_connection_closed(&mut self, peer: &PeerId) -> (nodes: Option<Vec<PeerId>>)
        requires
            old(self).wf(),
        ensures
            final(self).wf(),
            final(self).gateways@ == without(old(self).gateways@, peer@),
            final(self).nodes@ == without(old(self).nodes@, peer@),
            old(self).nodes@.contains(peer@) ==> (nodes matches Some(v) && peer_keys(v@)
                == final(self).nodes@),
            !old(self).nodes@.contains(peer@) ==> nodes is None,
    {
        self.gateways.remove(peer);
        if self.nodes.remove(peer) {
            Some(self.nodes.to_vec())
        } else {
            None
        }
    }
}

} // verus!
