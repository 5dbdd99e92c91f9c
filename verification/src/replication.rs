//! The replicated state of one peer.
use vstd::prelude::*;
use crate::clock::LamportClock;
use crate::ordmap::OrdMap;
use crate::storage::{SchemaStore, StorageEngine};
use crate::tombstone::TombstoneStore;
use crate::types::{Frontier, PeerId, RowView, TableSchema, TombstoneView, Version, VersionView};
use crate::uniqueness::{ClaimKey, UniquenessRegistry};
use crate::types::ClaimView;

verus! {

/// Storage, schemas and CRDT metadata of a single peer.
#[derive(Debug)]
pub struct ReplicaState {
    pub peer_id: PeerId,
    pub clock: LamportClock,
    pub storage: StorageEngine,
    pub schemas: SchemaStore,
    pub tombstones: TombstoneStore,
    pub uniqueness: UniquenessRegistry,
    pub frontier: Frontier,
}

impl ReplicaState {
    /// A fresh replica: empty state, clock at zero.
    pub fn new(peer_id: PeerId) -> (r: Self)
        ensures
            r.peer_id@ == peer_id@,
            r.clock.peer_id@ == peer_id@,
            r.clock.counter == 0,
            r.storage@ == Map::<Seq<char>, Map<Seq<char>, RowView>>::empty(),
            r.schemas@ == Map::<Seq<char>, TableSchema>::empty(),
            r.tombstones@ == Map::<(Seq<char>, Seq<char>), TombstoneView>::empty(),
            r.uniqueness@ == Map::<ClaimKey, ClaimView>::empty(),
            r.frontier@ == Map::<Seq<char>, u64>::empty(),
    {
        ReplicaState {
            clock: LamportClock::new(peer_id.clone()),
            storage: StorageEngine::new(),
            schemas: SchemaStore::new(),
            tombstones: TombstoneStore::new(),
            uniqueness: UniquenessRegistry::new(),
            frontier: OrdMap::new(),
            peer_id,
        }
    }

    /// A version for a local write: the clock ticks.
    pub fn current_version(&mut self) -> (r: Version)
        requires
            old(self).clock.counter < u64::MAX,
        ensures
            final(self).clock.counter == old(self).clock.counter + 1,
            final(self).clock.peer_id@ == old(self).clock.peer_id@,
            r@ == (VersionView { counter: final(self).clock.counter, peer: final(self).clock.peer_id@ }),
            final(self).peer_id == old(self).peer_id,
            final(self).storage@ == old(self).storage@,
            final(self).schemas@ == old(self).schemas@,
            final(self).tombstones@ == old(self).tombstones@,
            final(self).uniqueness@ == old(self).uniqueness@,
            final(self).frontier@ == old(self).frontier@,
    {
        self.clock.tick()
    }
}

} // verus!
