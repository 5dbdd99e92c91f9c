//! Metrics of a sync simulation run: how many peers took part, how many
//! rounds reached quiescence, and how many rows the deltas carried.
use vstd::prelude::*;
use crate::utils::{decimal_text, append_decimal};

verus! {

/// Benchmark metrics of a sync simulation run.
pub struct BenchMetrics {
    /// Sync rounds needed to reach quiescence.
    pub sync_rounds: usize,
    /// Rows carried by all deltas exchanged.
    pub rows_exchanged: usize,
    /// Convergence time in microseconds; not measured, always 0.
    pub convergence_time_us: u64,
    /// Peers taking part.
    pub peers: usize,
}

impl BenchMetrics {
    pub fn new(peers: usize, sync_rounds: usize, rows_exchanged: usize) -> (r: Self)
        ensures
            r.peers == peers,
            r.sync_rounds == sync_rounds,
            r.rows_exchanged == rows_exchanged,
            r.convergence_time_us == 0,
    {
        BenchMetrics { peers, sync_rounds, rows_exchanged, convergence_time_us: 0 }
    }

    /// `peers=P sync_rounds=S rows_exchanged=R convergence_time_us=T`.
    pub fn summary(&self) -> (r: String)
        ensures
            r@ == "peers="@ + decimal_text(self.peers as nat) + " sync_rounds="@ + decimal_text(
                self.sync_rounds as nat,
            ) + " rows_exchanged="@ + decimal_text(self.rows_exchanged as nat)
                + " convergence_time_us="@ + decimal_text(self.convergence_time_us as nat),
    {
        let mut s = String::from_str("peers=");
        append_decimal(&mut s, self.peers as u64);
        s.append(" sync_rounds=");
        append_decimal(&mut s, self.sync_rounds as u64);
        s.append(" rows_exchanged=");
        append_decimal(&mut s, self.rows_exchanged as u64);
        s.append(" convergence_time_us=");
        append_decimal(&mut s, self.convergence_time_us);
        s
    }
}

} // verus!
