//! Pairwise sync sessions: one bidirectional round, or rounds until neither
//! side has anything new for the other.
use vstd::prelude::*;
use crate::error::CrdtResult;
use crate::replication::ReplicaState;
use crate::sync::delta::{apply_delta, applied_marking, extract_delta};
use crate::sync::extracted;
use crate::types::SyncDeltaView;

verus! {

/// One round of a session from (`a`, `b`) to (`a2`, `b2`): each side applied
/// the delta the other extracted against its frontier; `quiet` says that
/// neither delta carried rows or tombstones.
pub open spec fn session_round(
    a: ReplicaState,
    b: ReplicaState,
    a2: ReplicaState,
    b2: ReplicaState,
    quiet: bool,
) -> bool {
    exists|for_b: SyncDeltaView, for_a: SyncDeltaView|
        extracted(a, b.frontier@, for_b) && extracted(b, a.frontier@, for_a) && applied_marking(
            b,
            for_b,
            b2,
        ) && applied_marking(a, for_a, a2) && quiet == (for_b.rows.len() == 0
            && for_b.tombstones.len() == 0 && for_a.rows.len() == 0 && for_a.tombstones.len() == 0)
}

/// A run of rounds: `h[i]` to `h[i + 1]` is round `i`, quiet as `quiet[i]` says.
pub open spec fn session_history(h: Seq<(ReplicaState, ReplicaState)>, quiet: Seq<bool>) -> bool {
    &&& h.len() == quiet.len() + 1
    &&& forall|i: int|
        0 <= i < quiet.len() ==> session_round(h[i].0, h[i].1, h[i + 1].0, h[i + 1].1, #[trigger] quiet[i])
}

/// A full pairwise bidirectional sync: extract both deltas, then apply both.
pub fn sync_peers(a: &mut ReplicaState, b: &mut ReplicaState) -> (r: CrdtResult<()>)
    ensures
        r is Ok,
        exists|q: bool| session_round(*old(a), *old(b), *final(a), *final(b), q),
{
    let delta_for_b = extract_delta(a, &b.frontier);
    let delta_for_a = extract_delta(b, &a.frontier);
    let _ = apply_delta(b, &delta_for_b);
    let _ = apply_delta(a, &delta_for_a);
    assert(session_round(*old(a), *old(b), *a, *b, delta_for_b@.rows.len() == 0 && delta_for_b@.tombstones.len() == 0
        && delta_for_a@.rows.len() == 0 && delta_for_a@.tombstones.len() == 0));
    Ok(())
}

/// Sync until a round exchanges no rows and no tombstones, or 101 rounds
/// have run. Returns the number of rounds.
pub fn sync_to_quiescence(a: &mut ReplicaState, b: &mut ReplicaState) -> (r: CrdtResult<usize>)
    ensures
        r matches Ok(n) && 1 <= n <= 101 && exists|h: Seq<(ReplicaState, ReplicaState)>, q: Seq<bool>|
            session_history(h, q) && h[0] == (*old(a), *old(b)) && h.last() == (*final(a), *final(b))
                && q.len() == n && (forall|i: int| 0 <= i < n - 1 ==> !#[trigger] q[i]) && (q[n - 1] || n
                == 101),
{
    let mut rounds: usize = 0;
    let ghost mut h: Seq<(ReplicaState, ReplicaState)> = seq![(*a, *b)];
    let ghost mut q: Seq<bool> = Seq::empty();
    loop
        invariant
            rounds <= 100,
            session_history(h, q),
            h[0] == (*old(a), *old(b)),
            h.last() == (*a, *b),
            q.len() == rounds,
            forall|i: int| 0 <= i < rounds ==> !#[trigger] q[i],
        decreases 101 - rounds,
    {
        let delta_for_b = extract_delta(a, &b.frontier);
        let delta_for_a = extract_delta(b, &a.frontier);
        let any_new = !delta_for_b.rows.is_empty() || !delta_for_b.tombstones.is_empty()
            || !delta_for_a.rows.is_empty() || !delta_for_a.tombstones.is_empty();
        let ghost a0 = *a;
        let ghost b0 = *b;
        let _ = apply_delta(b, &delta_for_b);
        let _ = apply_delta(a, &delta_for_a);
        rounds = rounds + 1;
        proof {
            assert(session_round(a0, b0, *a, *b, !any_new));
            let h2 = h.push((*a, *b));
            let q2 = q.push(!any_new);
            assert forall|i: int| 0 <= i < q2.len() implies session_round(h2[i].0, h2[i].1, h2[i + 1].0, h2[i + 1].1, #[trigger] q2[i]) by {
                if i < q.len() {
                    assert(q2[i] == q[i]);
                    assert(h2[i] == h[i] && h2[i + 1] == h[i + 1]);
                } else {
                    assert(h2[i] == h.last());
                }
            }
            h = h2;
            q = q2;
        }
        if !any_new || rounds > 100 {
            proof {
                assert(session_history(h, q));
                assert(h[0] == (*old(a), *old(b)) && h.last() == (*a, *b) && q.len() == rounds);
                assert(forall|i: int| 0 <= i < rounds - 1 ==> !#[trigger] q[i]);
                assert(q[rounds - 1] || rounds == 101);
            }
            return Ok(rounds);
        }
    }
}

} // verus!
