//! Real-time instrumentation of the AArch64 vCPU core: per-exit-reason
//! counters, guest-entry preparation cost and exit-handling cost, in cycles
//! of the physical counter. Every counter wraps, as a relaxed atomic
//! `fetch_add` does.
use vstd::prelude::*;
use crate::counters::{fold_minmax, max_u64, min_u64};

verus! {

/// Why the guest exited to the hypervisor.
#[derive(Debug, Clone, Copy, PartialEq, Eq, Structural)]
pub enum ExitKind {
    Hypercall,
    MmioRead,
    MmioWrite,
    SysRegRead,
    SysRegWrite,
    ExternalInterrupt,
    CpuDown,
    CpuUp,
    SystemDown,
    SendIPI,
    Nothing,
}

pub const REASON_COUNT: usize = 12;

/// Index of an exit reason in the histogram; the last slot, "other", is
/// reserved for reasons without one of their own.
pub open spec fn spec_exit_index(exit: ExitKind) -> int {
    match exit {
        ExitKind::Hypercall => 0,
        ExitKind::MmioRead => 1,
        ExitKind::MmioWrite => 2,
        ExitKind::SysRegRead => 3,
        ExitKind::SysRegWrite => 4,
        ExitKind::ExternalInterrupt => 5,
        ExitKind::CpuDown => 6,
        ExitKind::CpuUp => 7,
        ExitKind::SystemDown => 8,
        ExitKind::SendIPI => 9,
        ExitKind::Nothing => 10,
    }
}

/// Index of an exit reason in the reason histogram.
pub fn exit_index(exit: &ExitKind) -> (i: usize)
    ensures
        i == spec_exit_index(*exit),
        i < REASON_COUNT,
{
    match exit {
        ExitKind::Hypercall => 0,
        ExitKind::MmioRead => 1,
        ExitKind::MmioWrite => 2,
        ExitKind::SysRegRead => 3,
        ExitKind::SysRegWrite => 4,
        ExitKind::ExternalInterrupt => 5,
        ExitKind::CpuDown => 6,
        ExitKind::CpuUp => 7,
        ExitKind::SystemDown => 8,
        ExitKind::SendIPI => 9,
        ExitKind::Nothing => 10,
    }
}

/// The counters of one vCPU.
pub struct VcpuRtStats {
    pub exit_count: u64,
    pub entry_cycles_sum: u64,
    pub entry_cycles_min: u64,
    pub entry_cycles_max: u64,
    pub exit_cycles_sum: u64,
    pub exit_cycles_min: u64,
    pub exit_cycles_max: u64,
    pub reason_counts: [u64; REASON_COUNT],
}

/// Sum of the first `n` histogram slots.
pub open spec fn histogram_sum(counts: Seq<u64>, n: int) -> int
    decreases n,
{
    if n <= 0 {
        0
    } else {
        histogram_sum(counts, n - 1) + counts[n - 1]
    }
}

/// Counters with nothing recorded: minimums at `u64::MAX`, the rest 0.
pub open spec fn spec_fresh(s: VcpuRtStats) -> bool {
    &&& s.exit_count == 0
    &&& s.entry_cycles_sum == 0
    &&& s.entry_cycles_min == u64::MAX
    &&& s.entry_cycles_max == 0
    &&& s.exit_cycles_sum == 0
    &&& s.exit_cycles_min == u64::MAX
    &&& s.exit_cycles_max == 0
    &&& forall|i: int| 0 <= i < REASON_COUNT ==> #[trigger] s.reason_counts@[i] == 0
}

impl VcpuRtStats {
    /// Counters with nothing recorded yet.
    pub fn new() -> (s: Self)
        ensures
            spec_fresh(s),
    {
        VcpuRtStats {
            exit_count: 0,
            entry_cycles_sum: 0,
            entry_cycles_min: u64::MAX,
            entry_cycles_max: 0,
            exit_cycles_sum: 0,
            exit_cycles_min: u64::MAX,
            exit_cycles_max: 0,
            reason_counts: [0u64; REASON_COUNT],
        }
    }
}

/// Records one guest exit and its reason.
pub fn record_exit(stats: &mut VcpuRtStats, exit: &ExitKind)
    ensures
        final(stats).exit_count == old(stats).exit_count.wrapping_add(1),
        final(stats).reason_counts@ == old(stats).reason_counts@.update(
            spec_exit_index(*exit),
            old(stats).reason_counts@[spec_exit_index(*exit)].wrapping_add(1),
        ),
        final(stats).entry_cycles_sum == old(stats).entry_cycles_sum,
        final(stats).entry_cycles_min == old(stats).entry_cycles_min,
        final(stats).entry_cycles_max == old(stats).entry_cycles_max,
        final(stats).exit_cycles_sum == old(stats).exit_cycles_sum,
        final(stats).exit_cycles_min == old(stats).exit_cycles_min,
        final(stats).exit_cycles_max == old(stats).exit_cycles_max,
{
    stats.exit_count = stats.exit_count.wrapping_add(1);
    let i = exit_index(exit);
    stats.reason_counts[i] = stats.reason_counts[i].wrapping_add(1);
}

/// Records the guest-entry preparation cost (sysreg restore + cache/TLB flush).
pub fn record_entry_cycles(stats: &mut VcpuRtStats, cycles: u64)
    ensures
        final(stats).entry_cycles_sum == old(stats).entry_cycles_sum.wrapping_add(cycles),
        final(stats).entry_cycles_min == min_u64(old(stats).entry_cycles_min, cycles),
        final(stats).entry_cycles_max == max_u64(old(stats).entry_cycles_max, cycles),
        final(stats).exit_count == old(stats).exit_count,
        final(stats).reason_counts == old(stats).reason_counts,
        final(stats).exit_cycles_sum == old(stats).exit_cycles_sum,
        final(stats).exit_cycles_min == old(stats).exit_cycles_min,
        final(stats).exit_cycles_max == old(stats).exit_cycles_max,
{
    stats.entry_cycles_sum = stats.entry_cycles_sum.wrapping_add(cycles);
    fold_minmax(&mut stats.entry_cycles_min, &mut stats.entry_cycles_max, cycles);
}

/// Records the exit-handling cost (sysreg store + decode).
pub fn record_exit_cycles(stats: &mut VcpuRtStats, cycles: u64)
    ensures
        final(stats).exit_cycles_sum == old(stats).exit_cycles_sum.wrapping_add(cycles),
        final(stats).exit_cycles_min == min_u64(old(stats).exit_cycles_min, cycles),
        final(stats).exit_cycles_max == max_u64(old(stats).exit_cycles_max, cycles),
        final(stats).exit_count == old(stats).exit_count,
        final(stats).reason_counts == old(stats).reason_counts,
        final(stats).entry_cycles_sum == old(stats).entry_cycles_sum,
        final(stats).entry_cycles_min == old(stats).entry_cycles_min,
        final(stats).entry_cycles_max == old(stats).entry_cycles_max,
{
    stats.exit_cycles_sum = stats.exit_cycles_sum.wrapping_add(cycles);
    fold_minmax(&mut stats.exit_cycles_min, &mut stats.exit_cycles_max, cycles);
}

/// Every exit is counted once in the total and once under its reason, so the
/// reason histogram always adds up to the exit count (both modulo 2^64, as
/// the counters wrap).
pub proof fn lemma_record_exit_keeps_histogram(
    before: VcpuRtStats,
    after: VcpuRtStats,
    exit: ExitKind,
)
    requires
        histogram_sum(before.reason_counts@, REASON_COUNT as int) % 0x1_0000_0000_0000_0000
            == before.exit_count as int,
        after.exit_count == before.exit_count.wrapping_add(1),
        after.reason_counts@ == before.reason_counts@.update(
            spec_exit_index(exit),
            before.reason_counts@[spec_exit_index(exit)].wrapping_add(1),
        ),
    ensures
        histogram_sum(after.reason_counts@, REASON_COUNT as int) % 0x1_0000_0000_0000_0000
            == after.exit_count as int,
{
    let k = spec_exit_index(exit);
    let b = before.reason_counts@;
    let a = after.reason_counts@;
    lemma_histogram_update(b, a, k, REASON_COUNT as int);
    let m = 0x1_0000_0000_0000_0000int;
    let old_k = b[k] as int;
    let new_k = a[k] as int;
    assert(new_k == (old_k + 1) % m);
    assert(after.exit_count as int == (before.exit_count as int + 1) % m);
    let sb = histogram_sum(b, REASON_COUNT as int);
    let sa = histogram_sum(a, REASON_COUNT as int);
    assert(sa == sb - old_k + new_k);
    lemma_mod_shift(sb, old_k, new_k, before.exit_count as int, m);
}

proof fn lemma_mod_shift(sb: int, old_k: int, new_k: int, cnt: int, m: int)
    requires
        m == 0x1_0000_0000_0000_0000int,
        0 <= old_k < m,
        new_k == (old_k + 1) % m,
        sb >= old_k,
        sb % m == cnt,
    ensures
        (sb - old_k + new_k) % m == (cnt + 1) % m,
{
    if old_k + 1 < m {
        assert(new_k == old_k + 1);
        assert(sb - old_k + new_k == sb + 1);
        vstd::arithmetic::div_mod::lemma_add_mod_noop(sb, 1, m);
        assert((1int) % m == 1);
    } else {
        assert(new_k == 0) by {
            vstd::arithmetic::div_mod::lemma_mod_self_0(m);
        }
        assert(sb - old_k + new_k == sb - (m - 1));
        vstd::arithmetic::div_mod::lemma_mod_sub_multiples_vanish(sb + 1, m);
        vstd::arithmetic::div_mod::lemma_add_mod_noop(sb, 1, m);
        assert((1int) % m == 1);
    }
}

proof fn lemma_histogram_update(b: Seq<u64>, a: Seq<u64>, k: int, n: int)
    requires
        0 <= k < b.len(),
        a == b.update(k, a[k]),
        0 <= n <= b.len(),
    ensures
        histogram_sum(a, n) == histogram_sum(b, n) - (if k < n { b[k] as int } else { 0 }) + (if k
            < n {
            a[k] as int
        } else {
            0
        }),
        histogram_sum(b, n) >= (if k < n { b[k] as int } else { 0 }),
    decreases n,
{
    if n > 0 {
        lemma_histogram_update(b, a, k, n - 1);
        lemma_histogram_nonneg(b, n - 1);
    }
}

proof fn lemma_histogram_nonneg(b: Seq<u64>, n: int)
    ensures
        histogram_sum(b, n) >= 0,
    decreases n,
{
    if n > 0 {
        lemma_histogram_nonneg(b, n - 1);
    }
}

/// Short name of histogram slot `i`.
pub open spec fn spec_reason_name(i: int) -> Seq<char> {
    if i == 0 {
        "hypercall"@
    } else if i == 1 {
        "mmio_read"@
    } else if i == 2 {
        "mmio_write"@
    } else if i == 3 {
        "sysreg_read"@
    } else if i == 4 {
        "sysreg_write"@
    } else if i == 5 {
        "ext_irq"@
    } else if i == 6 {
        "cpu_down"@
    } else if i == 7 {
        "cpu_up"@
    } else if i == 8 {
        "system_down"@
    } else if i == 9 {
        "send_ipi"@
    } else if i == 10 {
        "nothing"@
    } else {
        "other"@
    }
}

/// Short names of the histogram slots, in index order.
pub fn reason_name(i: usize) -> (name: &'static str)
    requires
        i < REASON_COUNT,
    ensures
        name@ == spec_reason_name(i as int),
{
    if i == 0 {
        "hypercall"
    } else if i == 1 {
        "mmio_read"
    } else if i == 2 {
        "mmio_write"
    } else if i == 3 {
        "sysreg_read"
    } else if i == 4 {
        "sysreg_write"
    } else if i == 5 {
        "ext_irq"
    } else if i == 6 {
        "cpu_down"
    } else if i == 7 {
        "cpu_up"
    } else if i == 8 {
        "system_down"
    } else if i == 9 {
        "send_ipi"
    } else if i == 10 {
        "nothing"
    } else {
        "other"
    }
}

/// The name of each exit reason, as the summary prints it.
pub open spec fn kind_name(k: ExitKind) -> Seq<char> {
    match k {
        ExitKind::Hypercall => "hypercall"@,
        ExitKind::MmioRead => "mmio_read"@,
        ExitKind::MmioWrite => "mmio_write"@,
        ExitKind::SysRegRead => "sysreg_read"@,
        ExitKind::SysRegWrite => "sysreg_write"@,
        ExitKind::ExternalInterrupt => "ext_irq"@,
        ExitKind::CpuDown => "cpu_down"@,
        ExitKind::CpuUp => "cpu_up"@,
        ExitKind::SystemDown => "system_down"@,
        ExitKind::SendIPI => "send_ipi"@,
        ExitKind::Nothing => "nothing"@,
    }
}

/// Each exit is counted in the slot named after its reason: the slot's name
/// is the reason's own, distinct reasons have distinct slots, and the last
/// slot ("other") is never used by a known reason.
pub proof fn lemma_exit_slot_named_after_reason(k: ExitKind, l: ExitKind)
    ensures
        0 <= spec_exit_index(k) < REASON_COUNT - 1,
        spec_reason_name(spec_exit_index(k)) == kind_name(k),
        k != l ==> spec_exit_index(k) != spec_exit_index(l),
{
}

/// The summary printed when the VM stops.
pub struct ExitStatsReport {
    pub exits: u64,
    pub entry_min: u64,
    pub entry_avg: u64,
    pub entry_max: u64,
    pub exit_min: u64,
    pub exit_avg: u64,
    pub exit_max: u64,
    /// `(slot, count)` of every histogram slot with a non-zero count, in slot order.
    pub reasons: Vec<(usize, u64)>,
}

/// Mean of a wrapped sum over `count` samples, 0 without samples.
pub open spec fn spec_avg(sum: u64, count: u64) -> u64 {
    if count > 0 {
        (sum / count) as u64
    } else {
        0
    }
}

/// The slots of `counts` before `n` with a non-zero count, in order.
pub open spec fn nonzero_slots(counts: Seq<u64>, n: int) -> Seq<(usize, u64)>
    decreases n,
{
    if n <= 0 {
        Seq::empty()
    } else if counts[n - 1] > 0 {
        nonzero_slots(counts, n - 1).push(((n - 1) as usize, counts[n - 1]))
    } else {
        nonzero_slots(counts, n - 1)
    }
}

/// What the summary of the counters shows: the extremes as recorded, means
/// over the exit count, and the non-empty reason slots.
pub fn dump(stats: &VcpuRtStats) -> (r: ExitStatsReport)
    ensures
        r.exits == stats.exit_count,
        r.entry_min == stats.entry_cycles_min,
        r.entry_max == stats.entry_cycles_max,
        r.exit_min == stats.exit_cycles_min,
        r.exit_max == stats.exit_cycles_max,
        r.entry_avg == spec_avg(stats.entry_cycles_sum, stats.exit_count),
        r.exit_avg == spec_avg(stats.exit_cycles_sum, stats.exit_count),
        r.reasons@ == nonzero_slots(stats.reason_counts@, REASON_COUNT as int),
{
    let count = stats.exit_count;
    let entry_avg = if count > 0 {
        stats.entry_cycles_sum / count
    } else {
        0
    };
    let exit_avg = if count > 0 {
        stats.exit_cycles_sum / count
    } else {
        0
    };
    let mut reasons: Vec<(usize, u64)> = Vec::new();
    let mut i: usize = 0;
    while i < REASON_COUNT
        invariant
            i <= REASON_COUNT,
            reasons@ == nonzero_slots(stats.reason_counts@, i as int),
        decreases REASON_COUNT - i,
    {
        let c = stats.reason_counts[i];
        if c > 0 {
            reasons.push((i, c));
        }
        i = i + 1;
    }
    ExitStatsReport {
        exits: count,
        entry_min: stats.entry_cycles_min,
        entry_avg,
        entry_max: stats.entry_cycles_max,
        exit_min: stats.exit_cycles_min,
        exit_avg,
        exit_max: stats.exit_cycles_max,
        reasons,
    }
}

} // verus!
