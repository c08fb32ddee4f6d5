//! Real-time instrumentation of the host side: the latency from queueing an
//! interrupt for a vCPU to its run loop processing it, in monotonic
//! nanoseconds. Counters wrap, as a relaxed atomic `fetch_add` does.
use vstd::prelude::*;
use crate::counters::{fold_minmax, max_u64, min_u64};

verus! {

/// Wake-up latency counters; `queued_at_nanos == 0` means no wake-up pending.
pub struct WakeStats {
    pub queued_at_nanos: u64,
    pub samples: u64,
    pub sum_nanos: u64,
    pub min_nanos: u64,
    pub max_nanos: u64,
}

impl WakeStats {
    /// Counters with nothing recorded and no wake-up pending.
    pub fn new() -> (s: Self)
        ensures
            s.queued_at_nanos == 0,
            s.samples == 0,
            s.sum_nanos == 0,
            s.min_nanos == u64::MAX,
            s.max_nanos == 0,
    {
        WakeStats { queued_at_nanos: 0, samples: 0, sum_nanos: 0, min_nanos: u64::MAX, max_nanos: 0 }
    }
}

/// Called by `queue_interrupt` right before waking the target vCPU, at `now_nanos`.
pub fn stamp_wake_queued(stats: &mut WakeStats, now_nanos: u64)
    ensures
        final(stats).queued_at_nanos == now_nanos,
        final(stats).samples == old(stats).samples,
        final(stats).sum_nanos == old(stats).sum_nanos,
        final(stats).min_nanos == old(stats).min_nanos,
        final(stats).max_nanos == old(stats).max_nanos,
{
    stats.queued_at_nanos = now_nanos;
}

/// The latency of the pending wake-up seen at `now`, 0 if the clock reads earlier.
pub open spec fn wake_latency(now: u64, queued: u64) -> u64 {
    if now >= queued {
        (now - queued) as u64
    } else {
        0
    }
}

/// The counters after the run loop looks for a pending wake-up at `now`:
/// its latency folded in and the stamp cleared, or nothing changed when
/// none is pending.
pub open spec fn spec_record_wake(s: WakeStats, now: u64) -> WakeStats {
    if s.queued_at_nanos == 0 {
        s
    } else {
        let d = wake_latency(now, s.queued_at_nanos);
        WakeStats {
            queued_at_nanos: 0,
            samples: s.samples.wrapping_add(1),
            sum_nanos: s.sum_nanos.wrapping_add(d),
            min_nanos: min_u64(s.min_nanos, d),
            max_nanos: max_u64(s.max_nanos, d),
        }
    }
}

/// Called from the vCPU run loop at `now_nanos`: folds the queued->processed
/// latency of the pending wake-up, once; without one, nothing changes.
pub fn record_wake_latency(stats: &mut WakeStats, now_nanos: u64)
    ensures
        *final(stats) == spec_record_wake(*old(stats), now_nanos),
{
    let queued = stats.queued_at_nanos;
    if queued == 0 {
        return;
    }
    stats.queued_at_nanos = 0;
    let delta = now_nanos.saturating_sub(queued);
    stats.samples = stats.samples.wrapping_add(1);
    stats.sum_nanos = stats.sum_nanos.wrapping_add(delta);
    fold_minmax(&mut stats.min_nanos, &mut stats.max_nanos, delta);
}

/// A queued wake-up is counted once: looking again before the next stamp
/// changes nothing.
pub proof fn lemma_wake_counted_once(s: WakeStats, t1: u64, t2: u64)
    ensures
        spec_record_wake(spec_record_wake(s, t1), t2) == spec_record_wake(s, t1),
{
}

/// The summary printed when the VM stops.
pub struct WakeReport {
    pub samples: u64,
    pub min_nanos: u64,
    pub avg_nanos: u64,
    pub max_nanos: u64,
}

/// What the summary of the counters shows: samples, extremes, and the mean
/// of the (wrapped) sum over the samples, 0 without samples.
pub fn dump(stats: &WakeStats) -> (r: WakeReport)
    ensures
        r.samples == stats.samples,
        r.min_nanos == stats.min_nanos,
        r.max_nanos == stats.max_nanos,
        r.avg_nanos == if stats.samples > 0 {
            stats.sum_nanos / stats.samples
        } else {
            0
        },
{
    let samples = stats.samples;
    let avg = if samples > 0 {
        stats.sum_nanos / samples
    } else {
        0
    };
    WakeReport { samples, min_nanos: stats.min_nanos, avg_nanos: avg, max_nanos: stats.max_nanos }
}

} // verus!
