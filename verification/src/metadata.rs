//! Peer metadata: the frontier each known peer has reported.
use vstd::prelude::*;
use crate::ordmap::{OrdMap, DeepCopy};
use crate::order::str_lt;
use crate::types::{Frontier, PeerId};
use crate::utils::{frontier_join, merge_frontiers};

verus! {

pub open spec fn min_u64(a: u64, b: u64) -> u64 {
    if a <= b {
        a
    } else {
        b
    }
}

/// The peers present in both frontiers, at the lower counter.
pub open spec fn frontier_meet(a: Map<Seq<char>, u64>, b: Map<Seq<char>, u64>) -> Map<Seq<char>, u64> {
    Map::new(|p: Seq<char>| a.contains_key(p) && b.contains_key(p), |p: Seq<char>| min_u64(a[p], b[p]))
}

/// `g` is the minimum over all the frontiers of `peers`: the peers that every
/// frontier holds, each at the least counter any frontier holds for it.
pub open spec fn is_global_min(
    peers: Map<Seq<char>, Map<Seq<char>, u64>>,
    g: Map<Seq<char>, u64>,
) -> bool {
    &&& forall|p: Seq<char>| #[trigger] g.contains_key(p) <==> (peers.dom().len() > 0 && forall|q: Seq<char>|
        #[trigger] peers.contains_key(q) ==> peers[q].contains_key(p))
    &&& forall|p: Seq<char>, q: Seq<char>|
        #[trigger] g.contains_key(p) && #[trigger] peers.contains_key(q) ==> g[p] <= peers[q][p]
    &&& forall|p: Seq<char>| #[trigger] g.contains_key(p) ==> exists|q: Seq<char>|
        #[trigger] peers.contains_key(q) && g[p] == peers[q][p]
}

/// The peers present in both frontiers, at the lower counter.
fn meet(a: &Frontier, b: &Frontier) -> (r: Frontier)
    ensures
        r@ == frontier_meet(a@, b@),
{
    let mut out: Frontier = OrdMap::new();
    let n = a.len();
    let mut i: usize = 0;
    while i < n
        invariant
            n == a.key_seq().len(),
            i <= n,
            a.shape(),
            forall|p: Seq<char>| #[trigger] out@.contains_key(p) == (a.key_seq().subrange(0, i as int).contains(p) && b@.contains_key(p)),
            forall|p: Seq<char>| #[trigger] out@.contains_key(p) ==> out@[p] == min_u64(a@[p], b@[p]),
        decreases n - i,
    {
        let p = a.key_at(i);
        let ca = *a.value_at(i);
        let ghost p0 = a.key_seq()[i as int];
        assert(a@[p0] == ca);
        match b.get(p) {
            Some(cb) => {
                let m = if ca <= *cb { ca } else { *cb };
                out.insert(p.clone(), m);
            },
            None => {},
        }
        proof {
            let ks = a.key_seq();
            assert(ks.subrange(0, i + 1) =~= ks.subrange(0, i as int).push(p0));
            assert(ks.subrange(0, i + 1)[i as int] == p0);
            assert forall|p: Seq<char>| #[trigger] out@.contains_key(p) == (ks.subrange(0, i + 1).contains(p) && b@.contains_key(p)) by {
                if ks.subrange(0, i + 1).contains(p) && p != p0 {
                    let x = ks.subrange(0, i + 1).index_of(p);
                    assert(ks.subrange(0, i as int)[x] == p);
                }
                if ks.subrange(0, i as int).contains(p) {
                    let x = ks.subrange(0, i as int).index_of(p);
                    assert(ks.subrange(0, i + 1)[x] == p);
                }
            }
        }
        i = i + 1;
    }
    proof {
        let ks = a.key_seq();
        assert(ks.subrange(0, n as int) =~= ks);
        assert forall|p: Seq<char>| a@.contains_key(p) <==> #[trigger] ks.contains(p) by {
            assert(a@.dom() == ks.to_set());
        }
        assert(out@ =~= frontier_meet(a@, b@));
    }
    out
}

/// Tracks known peers and their frontiers.
#[derive(Debug)]
pub struct PeerRegistry {
    /// peer_id -> frontier
    peers: OrdMap<PeerId, Frontier>,
}

impl View for PeerRegistry {
    type V = Map<Seq<char>, Map<Seq<char>, u64>>;

    closed spec fn view(&self) -> Self::V {
        self.peers@
    }
}

impl PeerRegistry {
    pub fn new() -> (r: Self)
        ensures
            r@ == Map::<Seq<char>, Map<Seq<char>, u64>>::empty(),
    {
        PeerRegistry { peers: OrdMap::new() }
    }

    /// Fold a reported frontier into what is known of `peer_id`: each peer at
    /// the higher counter.
    pub fn update_peer_frontier(&mut self, peer_id: &str, frontier: Frontier)
        ensures
            final(self)@ == old(self)@.insert(
                peer_id@,
                frontier_join(
                    if old(self)@.contains_key(peer_id@) {
                        old(self)@[peer_id@]
                    } else {
                        Map::empty()
                    },
                    frontier@,
                ),
            ),
    {
        let key = peer_id.to_owned();
        let merged = match self.peers.get(&key) {
            Some(existing) => merge_frontiers(existing, &frontier),
            None => {
                let empty: Frontier = OrdMap::new();
                merge_frontiers(&empty, &frontier)
            },
        };
        self.peers.insert(key, merged);
    }

    pub fn get_frontier(&self, peer_id: &str) -> (r: Option<&Frontier>)
        ensures
            match r {
                Some(f) => self@.contains_key(peer_id@) && self@[peer_id@] == f@,
                None => !self@.contains_key(peer_id@),
            },
    {
        let key = peer_id.to_owned();
        self.peers.get(&key)
    }

    /// All known peer ids, in sorted order.
    pub fn all_peer_ids(&self) -> (r: Vec<PeerId>)
        ensures
            forall|i: int, j: int| 0 <= i < j < r@.len() ==> str_lt((#[trigger] r@[i])@, (#[trigger] r@[j])@),
            forall|i: int| 0 <= i < r@.len() ==> self@.contains_key((#[trigger] r@[i])@),
            forall|k: Seq<char>| #[trigger] self@.contains_key(k) ==> exists|i: int| 0 <= i < r@.len() && (#[trigger] r@[i])@ == k,
    {
        let r = self.peers.keys();
        proof {
            let ks = self.peers.key_seq();
            assert forall|i: int, j: int| 0 <= i < j < r@.len() implies str_lt((#[trigger] r@[i])@, (#[trigger] r@[j])@) by {
                assert(<String as crate::order::OrdKey>::key_lt(ks[i], ks[j]));
            }
            assert forall|i: int| 0 <= i < r@.len() implies self@.contains_key((#[trigger] r@[i])@) by {
                assert(ks.to_set().contains(ks[i]));
            }
            assert forall|k: Seq<char>| #[trigger] self@.contains_key(k) implies exists|i: int| 0 <= i < r@.len() && (#[trigger] r@[i])@ == k by {
                assert(ks.to_set().contains(k));
                let i = ks.index_of(k);
                assert(r@[i]@ == k);
            }
        }
        r
    }

    /// The global minimum frontier over all known peers (for GC): empty when
    /// no peer is known.
    pub fn global_min_frontier(&self) -> (r: Frontier)
        ensures
            is_global_min(self@, r@),
    {
        let n = self.peers.len();
        if n == 0 {
            let r: Frontier = OrdMap::new();
            return r;
        }
        let mut result = self.peers.value_at(0).deep_copy();
        let ghost ks = self.peers.key_seq();
        let ghost vs = self.peers.val_seq();
        let mut i: usize = 1;
        while i < n
            invariant
                n == ks.len(),
                ks == self.peers.key_seq(),
                vs == self.peers.val_seq(),
                self.peers.shape(),
                1 <= i <= n,
                forall|p: Seq<char>| #[trigger] result@.contains_key(p) <==> (forall|j: int|
                    0 <= j < i ==> (#[trigger] vs[j]).contains_key(p)),
                forall|p: Seq<char>, j: int| #[trigger] result@.contains_key(p) && 0 <= j < i ==> result@[p] <= (#[trigger] vs[j])[p],
                forall|p: Seq<char>| #[trigger] result@.contains_key(p) ==> exists|j: int|
                    0 <= j < i && result@[p] == (#[trigger] vs[j])[p],
            decreases n - i,
        {
            let next = meet(&result, self.peers.value_at(i));
            proof {
                let v = vs[i as int];
                assert forall|p: Seq<char>| #[trigger] next@.contains_key(p) <==> (forall|j: int|
                    0 <= j < i + 1 ==> (#[trigger] vs[j]).contains_key(p)) by {
                    if forall|j: int| 0 <= j < i + 1 ==> (#[trigger] vs[j]).contains_key(p) {
                        assert(v.contains_key(p));
                    }
                }
                assert forall|p: Seq<char>, j: int| #[trigger] next@.contains_key(p) && 0 <= j < i + 1 implies next@[p] <= (#[trigger] vs[j])[p] by {
                    if j < i {
                        assert(result@[p] <= vs[j][p]);
                    }
                }
                assert forall|p: Seq<char>| #[trigger] next@.contains_key(p) implies exists|j: int|
                    0 <= j < i + 1 && next@[p] == (#[trigger] vs[j])[p] by {
                    if next@[p] == v[p] {
                        assert(vs[i as int][p] == next@[p]);
                    } else {
                        let j = choose|j: int| 0 <= j < i && result@[p] == (#[trigger] vs[j])[p];
                        assert(0 <= j < i + 1);
                    }
                }
            }
            result = next;
            i = i + 1;
        }
        proof {
            let pm = self@;
            assert(pm.dom() == ks.to_set());
            assert(pm.dom().contains(ks[0]));
            assert(pm.dom().len() > 0);
            assert forall|j: int| 0 <= j < n implies pm.contains_key(ks[j]) && pm[#[trigger] ks[j]] == vs[j] by {
                assert(ks.to_set().contains(ks[j]));
            }
            assert forall|p: Seq<char>| #[trigger] result@.contains_key(p) <==> (pm.dom().len() > 0 && forall|q: Seq<char>|
                #[trigger] pm.contains_key(q) ==> pm[q].contains_key(p)) by {
                if result@.contains_key(p) {
                    assert forall|q: Seq<char>| #[trigger] pm.contains_key(q) implies pm[q].contains_key(p) by {
                        let j = ks.index_of(q);
                        assert(pm[ks[j]] == vs[j]);
                    }
                }
                if forall|q: Seq<char>| #[trigger] pm.contains_key(q) ==> pm[q].contains_key(p) {
                    assert forall|j: int| 0 <= j < n implies (#[trigger] vs[j]).contains_key(p) by {
                        assert(pm.contains_key(ks[j]));
                    }
                }
            }
            assert forall|p: Seq<char>, q: Seq<char>| #[trigger] result@.contains_key(p) && #[trigger] pm.contains_key(q) implies result@[p] <= pm[q][p] by {
                let j = ks.index_of(q);
                assert(pm[ks[j]] == vs[j]);
            }
            assert forall|p: Seq<char>| #[trigger] result@.contains_key(p) implies exists|q: Seq<char>|
                #[trigger] pm.contains_key(q) && result@[p] == pm[q][p] by {
                let j = choose|j: int| 0 <= j < n && result@[p] == (#[trigger] vs[j])[p];
                assert(pm.contains_key(ks[j]));
            }
        }
        result
    }
}

} // verus!
