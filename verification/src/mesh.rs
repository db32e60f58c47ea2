use vstd::prelude::*;

verus! {

/// The set of peers explicitly admitted to the pub/sub mesh, modeled as the
/// set of their identifier strings.
pub struct PeerSet {
    pub peers: Vec<String>,
}

impl View for PeerSet {
    type V = Set<Seq<char>>;

    open spec fn view(&self) -> Set<Seq<char>> {
        Set::new(
            |x: Seq<char>|
                exists|i: int| 0 <= i < self.peers@.len() && #[trigger] self.peers@[i]@ == x,
        )
    }
}

/// One event the peer-to-peer stack reports about a peer.
#[derive(Debug)]
pub enum MeshEvent {
    Discovered { peer: String },
    Expired { peer: String },
    ConnectionEstablished { peer: String },
    ConnectionClosed { peer: String },
}

impl PeerSet {
    /// No peer is held twice.
    pub open spec fn wf(&self) -> bool {
        forall|i: int, j: int|
            0 <= i < j < self.peers@.len() ==> #[trigger] self.peers@[i]@ != #[trigger] self.peers@[j]@
    }

    pub fn new() -> (ps: PeerSet)
        ensures
            ps.wf(),
            ps@ == Set::<Seq<char>>::empty(),
    {
        let ps = PeerSet { peers: Vec::new() };
        proof {
            assert(ps@ =~= Set::<Seq<char>>::empty());
        }
        ps
    }

    fn find(&self, peer: &String) -> (r: Option<usize>)
        ensures
            r matches Some(i) ==> i < self.peers@.len() && self.peers@[i as int]@ == peer@,
            r is None ==> forall|i: int|
                0 <= i < self.peers@.len() ==> #[trigger] self.peers@[i]@ != peer@,
    {
        let n = self.peers.len();
        let mut i: usize = 0;
        while i < n
            invariant
                i <= n,
                n == self.peers@.len(),
                forall|j: int| 0 <= j < i ==> #[trigger] self.peers@[j]@ != peer@,
            decreases n - i,
        {
            if self.peers[i].eq(peer) {
                return Some(i);
            }
            i += 1;
        }
        None
    }

    pub fn contains_peer(&self, peer: &String) -> (r: bool)
        ensures
            r == self@.contains(peer@),
    {
        match self.find(peer) {
            Some(_) => true,
            None => false,
        }
    }

    /// Admits a peer; admitting one twice changes nothing.
    pub fn add_peer(&mut self, peer: String)
        requires
            old(self).wf(),
        ensures
            final(self).wf(),
            final(self)@ == old(self)@.insert(peer@),
    {
        let present = self.contains_peer(&peer);
        if present {
            proof {
                assert(self@ =~= old(self)@.insert(peer@));
            }
        } else {
            let ghost old_peers = self.peers@;
            self.peers.push(peer);
            proof {
                assert forall|i: int, j: int|
                    0 <= i < j < self.peers@.len() implies #[trigger] self.peers@[i]@
                    != #[trigger] self.peers@[j]@ by {
                    if j < old_peers.len() {
                        assert(self.peers@[i]@ == old_peers[i]@);
                        assert(self.peers@[j]@ == old_peers[j]@);
                    } else {
                        assert(self.peers@[i]@ == old_peers[i]@);
                    }
                }
                assert forall|x: Seq<char>| #[trigger]
                    final(self)@.contains(x) == old(self)@.insert(peer@).contains(x) by {
                    if final(self)@.contains(x) {
                        let k = choose|k: int|
                            0 <= k < self.peers@.len() && #[trigger] self.peers@[k]@ == x;
                        if k < old_peers.len() {
                            assert(old_peers[k]@ == x);
                        } else {
                            assert(x == peer@);
                        }
                    }
                    if old(self)@.insert(peer@).contains(x) {
                        if x == peer@ {
                            assert(self.peers@[old_peers.len() as int]@ == x);
                        } else {
                            let k = choose|k: int|
                                0 <= k < old_peers.len() && #[trigger] old_peers[k]@ == x;
                            assert(self.peers@[k]@ == x);
                        }
                    }
                }
                assert(final(self)@ =~= old(self)@.insert(peer@));
            }
        }
    }

    /// Drops a peer; dropping an unknown peer changes nothing.
    pub fn expel(&mut self, peer: &String)
        requires
            old(self).wf(),
        ensures
            final(self).wf(),
            final(self)@ == old(self)@.remove(peer@),
    {
        match self.find(peer) {
            Some(i) => {
                let ghost old_peers = self.peers@;
                self.peers.remove(i);
                proof {
                    assert forall|a: int, b: int|
                        0 <= a < b < self.peers@.len() implies #[trigger] self.peers@[a]@
                        != #[trigger] self.peers@[b]@ by {
                        let a0: int = if a < i { a } else { a + 1 };
                        let b0: int = if b < i { b } else { b + 1 };
                        assert(self.peers@[a]@ == old_peers[a0]@);
                        assert(self.peers@[b]@ == old_peers[b0]@);
                    }
                    assert forall|x: Seq<char>| #[trigger]
                        final(self)@.contains(x) == old(self)@.remove(peer@).contains(x) by {
                        if final(self)@.contains(x) {
                            let k = choose|k: int|
                                0 <= k < self.peers@.len() && #[trigger] self.peers@[k]@ == x;
                            let k0: int = if k < i { k } else { k + 1 };
                            assert(old_peers[k0]@ == x);
                            if x == peer@ {
                                // two distinct indices would hold the peer
                                assert(old_peers[i as int]@ == peer@);
                                assert(false);
                            }
                        }
                        if old(self)@.remove(peer@).contains(x) {
                            let k0 = choose|k0: int|
                                0 <= k0 < old_peers.len() && #[trigger] old_peers[k0]@ == x;
                            if k0 < i {
                                assert(self.peers@[k0]@ == x);
                            } else {
                                assert(k0 != i);
                                assert(self.peers@[k0 - 1]@ == x);
                            }
                        }
                    }
                    assert(final(self)@ =~= old(self)@.remove(peer@));
                }
            },
            None => {
                proof {
                    assert(self@ =~= old(self)@.remove(peer@));
                }
            },
        }
    }

    /// The peer admission policy: a discovered peer and an established
    /// connection both admit the peer; a discovery expiry drops it; a closed
    /// connection deliberately leaves the peer admitted — the asymmetry is by
    /// design, not an oversight.
    pub fn apply_event(&mut self, e: MeshEvent)
        requires
            old(self).wf(),
        ensures
            final(self).wf(),
            e matches MeshEvent::Discovered { peer } ==> final(self)@ == old(self)@.insert(peer@),
            e matches MeshEvent::ConnectionEstablished { peer } ==> final(self)@ == old(
                self,
            )@.insert(peer@),
            e matches MeshEvent::Expired { peer } ==> final(self)@ == old(self)@.remove(peer@),
            e is ConnectionClosed ==> final(self)@ == old(self)@,
    {
        match e {
            MeshEvent::Discovered { peer } => self.add_peer(peer),
            MeshEvent::ConnectionEstablished { peer } => self.add_peer(peer),
            MeshEvent::Expired { peer } => self.expel(&peer),
            MeshEvent::ConnectionClosed { peer: _ } => {},
        }
    }
}

} // verus!
