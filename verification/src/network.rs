//! Sync transport: the interface a network transport offers, the
//! in-process transport the store syncs with, and peer session metadata.
use vstd::prelude::*;
use crate::error::CrdtResult;
use crate::types::{PeerId, SyncDelta};

verus! {

/// Peer session metadata.
#[derive(Debug, Clone)]
pub struct PeerSession {
    pub peer_id: PeerId,
    pub address: Option<String>,
    pub connected: bool,
}

impl PeerSession {
    /// A session with `peer_id`, no address, not connected.
    pub fn new(peer_id: PeerId) -> (r: Self)
        ensures
            r.peer_id@ == peer_id@,
            r.address is None,
            !r.connected,
    {
        PeerSession { peer_id, address: None, connected: false }
    }

    /// The same session with `addr` as its address.
    pub fn with_address(self, addr: String) -> (r: Self)
        ensures
            r.peer_id == self.peer_id,
            r.address == Some(addr),
            r.connected == self.connected,
    {
        let mut s = self;
        s.address = Some(addr);
        s
    }

    pub fn connect(&mut self)
        ensures
            final(self).connected,
            final(self).peer_id == old(self).peer_id,
            final(self).address == old(self).address,
    {
        self.connected = true;
    }

    pub fn disconnect(&mut self)
        ensures
            !final(self).connected,
            final(self).peer_id == old(self).peer_id,
            final(self).address == old(self).address,
    {
        self.connected = false;
    }
}

/// A transport that carries sync deltas between peers.
pub trait Transport: Send + Sync {
    fn send(&self, peer_id: &str, delta: &SyncDelta) -> CrdtResult<()>;

    fn receive(&self, peer_id: &str) -> CrdtResult<Option<SyncDelta>>;
}

/// In-process transport: peers in one process sync by direct calls, so
/// sending succeeds without effect and nothing is ever waiting.
pub struct InProcessTransport;

impl Transport for InProcessTransport {
    fn send(&self, peer_id: &str, delta: &SyncDelta) -> (r: CrdtResult<()>)
        ensures
            r is Ok,
    {
        Ok(())
    }

    fn receive(&self, peer_id: &str) -> (r: CrdtResult<Option<SyncDelta>>)
        ensures
            r matches Ok(None),
    {
        Ok(None)
    }
}

/// The TCP transport's configuration; sending and receiving do nothing yet.
pub struct TcpTransport {
    pub listen_addr: String,
}

impl TcpTransport {
    pub fn new(listen_addr: String) -> (r: Self)
        ensures
            r.listen_addr == listen_addr,
    {
        TcpTransport { listen_addr }
    }
}

impl Transport for TcpTransport {
    fn send(&self, peer_id: &str, delta: &SyncDelta) -> (r: CrdtResult<()>)
        ensures
            r is Ok,
    {
        Ok(())
    }

    fn receive(&self, peer_id: &str) -> (r: CrdtResult<Option<SyncDelta>>)
        ensures
            r matches Ok(None),
    {
        Ok(None)
    }
}

} // verus!
