//! The per-peer Lamport clock.
use vstd::prelude::*;
use crate::ordmap::OrdMap;
use crate::types::{Frontier, PeerId, Version, VersionView};
use crate::utils::{frontier_update, lamport_advance, max_u64};

verus! {

/// Per-peer Lamport clock.
#[derive(Debug)]
pub struct LamportClock {
    pub peer_id: PeerId,
    pub counter: u64,
}

impl LamportClock {
    pub fn new(peer_id: PeerId) -> (r: Self)
        ensures
            r.peer_id@ == peer_id@,
            r.counter == 0,
    {
        LamportClock { peer_id, counter: 0 }
    }

    /// Tick for a local write; returns the new version.
    pub fn tick(&mut self) -> (r: Version)
        requires
            old(self).counter < u64::MAX,
        ensures
            final(self).counter == old(self).counter + 1,
            final(self).peer_id@ == old(self).peer_id@,
            r@ == (VersionView { counter: final(self).counter, peer: final(self).peer_id@ }),
    {
        self.counter = self.counter + 1;
        Version::new(self.counter, self.peer_id.clone())
    }

    /// Update the clock on receiving a remote version: the maximum, plus one.
    pub fn update(&mut self, remote: &Version)
        requires
            old(self).counter < u64::MAX,
            remote.counter < u64::MAX,
        ensures
            final(self).counter == max_u64(old(self).counter, remote.counter) + 1,
            final(self).peer_id@ == old(self).peer_id@,
    {
        self.counter = lamport_advance(self.counter, remote.counter);
    }

    /// Update the clock from a remote frontier: the maximum of the counter and
    /// every counter in the frontier.
    pub fn update_from_frontier(&mut self, frontier: &Frontier)
        ensures
            final(self).peer_id@ == old(self).peer_id@,
            final(self).counter >= old(self).counter,
            forall|p: Seq<char>| #[trigger]
                frontier@.contains_key(p) ==> final(self).counter >= frontier@[p],
            final(self).counter == old(self).counter || exists|p: Seq<char>|
                #[trigger] frontier@.contains_key(p) && final(self).counter == frontier@[p],
    {
        let n = frontier.len();
        let ghost start = self.counter;
        let mut i: usize = 0;
        while i < n
            invariant
                n == frontier.key_seq().len(),
                i <= n,
                frontier.shape(),
                self.peer_id@ == old(self).peer_id@,
                start == old(self).counter,
                self.counter >= start,
                forall|j: int| 0 <= j < i ==> self.counter >= #[trigger] frontier.val_seq()[j],
                self.counter == start || exists|j: int|
                    0 <= j < i && self.counter == #[trigger] frontier.val_seq()[j],
            decreases n - i,
        {
            let cnt = *frontier.value_at(i);
            if cnt > self.counter {
                self.counter = cnt;
            }
            i = i + 1;
        }
        proof {
            assert forall|p: Seq<char>| #[trigger] frontier@.contains_key(p) implies self.counter
                >= frontier@[p] by {
                assert(frontier.key_seq().to_set().contains(p));
                let j = frontier.key_seq().index_of(p);
                assert(frontier@[frontier.key_seq()[j]] == frontier.val_seq()[j]);
            }
            if self.counter != start {
                let j = choose|j: int| 0 <= j < n && self.counter == #[trigger] frontier.val_seq()[j];
                let p = frontier.key_seq()[j];
                assert(frontier@[frontier.key_seq()[j]] == frontier.val_seq()[j]);
                assert(frontier@.contains_key(p));
            }
        }
    }

    /// This peer's current counter, as a frontier of one entry.
    pub fn to_frontier(&self) -> (r: Frontier)
        ensures
            r@ == Map::<Seq<char>, u64>::empty().insert(self.peer_id@, self.counter),
    {
        let mut f: Frontier = OrdMap::new();
        frontier_update(&mut f, &self.peer_id, self.counter);
        f
    }
}

} // verus!
