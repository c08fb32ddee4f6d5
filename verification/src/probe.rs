//! The RT-probe guest's statistics page and the decisions of its interrupt
//! handler and reporter task. The page is shared with the hypervisor, which
//! reads it at a fixed guest-physical address; its counters wrap.
use vstd::prelude::*;
use crate::counters::{max_u64, min_u64};

verus! {

/// Kernel load base / VBAR_EL1.
pub const KERNEL_BASE: usize = 0x4000_0000;
/// Entry point, must match the VM config `entry_point`.
pub const ENTRY: usize = 0x4000_1000;
/// End of guest RAM (0x4000_0000 + 128 MiB).
pub const RAM_END: usize = 0x4080_0000;
/// Fixed GPA of the shared RT-stats page (guest-owned RAM).
pub const STATS_GPA: usize = 0x4070_0000;

pub const PL011_BASE: usize = 0x0900_0000;
pub const GICD_BASE: usize = 0x0800_0000;
/// CPU0 redistributor (qemu virt GICv3).
pub const GICR_BASE: usize = 0x080A_0000;

/// EL1 physical timer (CNTP): PPI 14 -> GIC interrupt ID 30.
pub const CNTP_GIC_ID: u32 = 16 + 14;
/// Tick period.
pub const TICK_NS: u64 = 1_000_000;
/// After this many ticks (~10 s), the probe shuts the guest down so that the
/// hypervisor prints its own counters.
pub const SHUTDOWN_AFTER_TICKS: u64 = 10_000;
/// Every this many ticks the probe provokes a host exit and prints its counters.
pub const REPORT_EVERY_TICKS: u64 = 2000;

/// `magic` of the page: "RTPR", version 1.
pub const STATS_MAGIC: u64 = 0x52545052_0000_0001;
/// Number of histogram buckets.
pub const HIST_BUCKETS: usize = 128;
/// Each histogram bucket spans 2^6 = 64 cycles.
pub const HIST_SHIFT: u64 = 6;

/// The shared RT-stats page.
#[derive(Clone, Copy)]
pub struct RtStats {
    pub magic: u64,
    pub samples: u64,
    pub latency_min: u64,
    pub latency_max: u64,
    pub latency_sum: u64,
    pub irq_entry_cycles: u64,
    pub handler_exec_sum: u64,
    pub handler_exec_max: u64,
    pub exits: u64,
    pub ticks: u64,
    /// Coarse histogram of IRQ->task latency, 64 cycles per bucket.
    pub hist: [u64; HIST_BUCKETS],
}

/// The histogram bucket of a latency (taken as a `usize`, as indexing does).
pub open spec fn bucket_of(delta: u64) -> int {
    ((delta >> HIST_SHIFT) as usize) as int
}

impl RtStats {
    /// The page as the guest image lays it out: magic set, minimum at
    /// `u64::MAX`, everything else 0.
    pub fn new() -> (s: Self)
        ensures
            s.magic == STATS_MAGIC,
            s.samples == 0 && s.latency_min == u64::MAX && s.latency_max == 0,
            s.latency_sum == 0 && s.irq_entry_cycles == 0,
            s.handler_exec_sum == 0 && s.handler_exec_max == 0,
            s.exits == 0 && s.ticks == 0,
            forall|i: int| 0 <= i < HIST_BUCKETS ==> #[trigger] s.hist@[i] == 0,
    {
        RtStats {
            magic: STATS_MAGIC,
            samples: 0,
            latency_min: u64::MAX,
            latency_max: 0,
            latency_sum: 0,
            irq_entry_cycles: 0,
            handler_exec_sum: 0,
            handler_exec_max: 0,
            exits: 0,
            ticks: 0,
            hist: [0u64; HIST_BUCKETS],
        }
    }

    /// Fold one IRQ->task latency sample (in cycles) into the page.
    pub fn record_latency(&mut self, delta: u64)
        ensures
            final(self).samples == old(self).samples.wrapping_add(1),
            final(self).latency_min == min_u64(old(self).latency_min, delta),
            final(self).latency_max == max_u64(old(self).latency_max, delta),
            final(self).latency_sum == old(self).latency_sum.wrapping_add(delta),
            bucket_of(delta) < HIST_BUCKETS ==> final(self).hist@ == old(self).hist@.update(
                bucket_of(delta),
                old(self).hist@[bucket_of(delta)].wrapping_add(1),
            ),
            bucket_of(delta) >= HIST_BUCKETS ==> final(self).hist@ == old(self).hist@,
            final(self).magic == old(self).magic,
            final(self).irq_entry_cycles == old(self).irq_entry_cycles,
            final(self).handler_exec_sum == old(self).handler_exec_sum,
            final(self).handler_exec_max == old(self).handler_exec_max,
            final(self).exits == old(self).exits,
            final(self).ticks == old(self).ticks,
    {
        self.samples = self.samples.wrapping_add(1);
        if delta < self.latency_min {
            self.latency_min = delta;
        }
        if delta > self.latency_max {
            self.latency_max = delta;
        }
        self.latency_sum = self.latency_sum.wrapping_add(delta);
        let bucket = #[verifier::truncate] ((delta >> HIST_SHIFT) as usize);
        if bucket < HIST_BUCKETS {
            self.hist[bucket] = self.hist[bucket].wrapping_add(1);
        }
    }

    /// Mean IRQ->task latency of the (wrapped) sum, 0 without samples.
    pub fn avg_latency(&self) -> (avg: u64)
        ensures
            avg == if self.samples > 0 {
                self.latency_sum / self.samples
            } else {
                0
            },
    {
        if self.samples > 0 {
            self.latency_sum / self.samples
        } else {
            0
        }
    }

    /// The interrupt handler, once it has acknowledged interrupt `id` at
    /// counter value `now`: a CNTP tick stamps its entry time and counts the
    /// tick. Returns whether it was the tick, which the caller then re-arms.
    pub fn on_irq(&mut self, id: u64, now: u64) -> (tick: bool)
        ensures
            tick == (id == CNTP_GIC_ID),
            tick ==> final(self).irq_entry_cycles == now && final(self).ticks
                == old(self).ticks.wrapping_add(1),
            !tick ==> final(self).irq_entry_cycles == old(self).irq_entry_cycles && final(self).ticks
                == old(self).ticks,
            final(self).magic == old(self).magic,
            final(self).samples == old(self).samples,
            final(self).latency_min == old(self).latency_min,
            final(self).latency_max == old(self).latency_max,
            final(self).latency_sum == old(self).latency_sum,
            final(self).handler_exec_sum == old(self).handler_exec_sum,
            final(self).handler_exec_max == old(self).handler_exec_max,
            final(self).exits == old(self).exits,
            final(self).hist == old(self).hist,
    {
        if id == CNTP_GIC_ID as u64 {
            self.irq_entry_cycles = now;
            self.ticks = self.ticks.wrapping_add(1);
            true
        } else {
            false
        }
    }

    /// The interrupt handler ran from counter value `start` to `end`.
    pub fn record_handler_exec(&mut self, start: u64, end: u64)
        ensures
            final(self).handler_exec_sum == old(self).handler_exec_sum.wrapping_add(
                end.wrapping_sub(start),
            ),
            final(self).handler_exec_max == max_u64(
                old(self).handler_exec_max,
                end.wrapping_sub(start),
            ),
            final(self).magic == old(self).magic,
            final(self).samples == old(self).samples,
            final(self).latency_min == old(self).latency_min,
            final(self).latency_max == old(self).latency_max,
            final(self).latency_sum == old(self).latency_sum,
            final(self).irq_entry_cycles == old(self).irq_entry_cycles,
            final(self).exits == old(self).exits,
            final(self).ticks == old(self).ticks,
            final(self).hist == old(self).hist,
    {
        let exec = end.wrapping_sub(start);
        self.handler_exec_sum = self.handler_exec_sum.wrapping_add(exec);
        if exec > self.handler_exec_max {
            self.handler_exec_max = exec;
        }
    }

    /// The reporter task saw tick `tick` (its own count) at counter value
    /// `now`, the interrupt having entered at `irq_entry`: it counts the tick,
    /// records the latency, and counts the host exit that it provokes on
    /// every `REPORT_EVERY_TICKS`th tick. Returns the new count and the plan.
    pub fn on_tick(&mut self, tick: u64, now: u64, irq_entry: u64) -> (r: (u64, TickPlan))
        ensures
            r.0 == tick.wrapping_add(1),
            r.1 == spec_tick_plan(r.0),
            final(self).samples == old(self).samples.wrapping_add(1),
            final(self).latency_min == min_u64(old(self).latency_min, now.wrapping_sub(irq_entry)),
            final(self).latency_max == max_u64(old(self).latency_max, now.wrapping_sub(irq_entry)),
            final(self).latency_sum == old(self).latency_sum.wrapping_add(
                now.wrapping_sub(irq_entry),
            ),
            final(self).exits == if r.1.provoke_exit {
                old(self).exits.wrapping_add(1)
            } else {
                old(self).exits
            },
            bucket_of(now.wrapping_sub(irq_entry)) < HIST_BUCKETS ==> final(self).hist@ == old(
                self,
            ).hist@.update(
                bucket_of(now.wrapping_sub(irq_entry)),
                old(self).hist@[bucket_of(now.wrapping_sub(irq_entry))].wrapping_add(1),
            ),
            bucket_of(now.wrapping_sub(irq_entry)) >= HIST_BUCKETS ==> final(self).hist@ == old(
                self,
            ).hist@,
            final(self).handler_exec_sum == old(self).handler_exec_sum,
            final(self).handler_exec_max == old(self).handler_exec_max,
            final(self).ticks == old(self).ticks,
            final(self).irq_entry_cycles == old(self).irq_entry_cycles,
            final(self).magic == old(self).magic,
    {
        let t = tick.wrapping_add(1);
        let delta = now.wrapping_sub(irq_entry);
        self.record_latency(delta);
        let plan = tick_plan(t);
        if plan.provoke_exit {
            self.exits = self.exits.wrapping_add(1);
        }
        (t, plan)
    }
}

/// What the reporter task does on a tick, beyond recording its latency.
#[derive(Debug, Clone, Copy, PartialEq, Eq, Structural)]
pub struct TickPlan {
    /// Issue an `hvc` that traps to EL2 (a harmless invalid hypercall).
    pub provoke_exit: bool,
    /// Print the counters.
    pub report: bool,
    /// Issue PSCI SYSTEM_OFF.
    pub shutdown: bool,
}

pub open spec fn spec_tick_plan(tick: u64) -> TickPlan {
    TickPlan {
        provoke_exit: tick % REPORT_EVERY_TICKS == 0,
        report: tick % REPORT_EVERY_TICKS == 0,
        shutdown: tick >= SHUTDOWN_AFTER_TICKS,
    }
}

/// Every `REPORT_EVERY_TICKS`th tick, and no other, provokes a host exit
/// and prints the counters; the probe shuts down from tick
/// `SHUTDOWN_AFTER_TICKS` on.
pub proof fn lemma_tick_plan_periods(k: nat, tick: u64)
    requires
        k * 2000 <= u64::MAX,
    ensures
        spec_tick_plan((k * 2000) as u64).provoke_exit,
        spec_tick_plan((k * 2000) as u64).report,
        (forall|j: nat| #![trigger (j * 2000)] j * 2000 != tick) ==> !spec_tick_plan(tick).provoke_exit
            && !spec_tick_plan(tick).report,
        spec_tick_plan(tick).shutdown == (tick >= 10_000),
{
    let t = (k * 2000) as u64;
    vstd::arithmetic::div_mod::lemma_mod_multiples_basic(k as int, 2000);
    assert(t % 2000 == 0);
    if tick % 2000 == 0 {
        let j = (tick / 2000) as nat;
        assert(j * 2000 == tick);
    }
}

/// The plan for tick number `tick`.
pub fn tick_plan(tick: u64) -> (p: TickPlan)
    ensures
        p == spec_tick_plan(tick),
{
    TickPlan {
        provoke_exit: tick % REPORT_EVERY_TICKS == 0,
        report: tick % REPORT_EVERY_TICKS == 0,
        shutdown: tick >= SHUTDOWN_AFTER_TICKS,
    }
}

/// The CNTP_TVAL_EL0 value for a deadline `period_ns` nanoseconds away on a
/// counter running at `freq` Hz: the tick count, rounded down, taken as a
/// `u64`.
pub fn cntp_ticks(freq: u64, period_ns: u64) -> (ticks: u64)
    ensures
        ticks == ((freq as int * period_ns as int) / 1_000_000_000) as u64,
{
    let f = freq as u128;
    let p = period_ns as u128;
    assert(f * p <= u64::MAX as int * u64::MAX as int) by (nonlinear_arith)
        requires
            f <= u64::MAX,
            p <= u64::MAX,
    ;
    let prod = f * p;
    #[verifier::truncate]
    ((prod / 1_000_000_000) as u64)
}

/// The interrupt ID in an ICC_IAR1_EL1 value (its low 10 bits).
pub fn irq_id(iar: u64) -> (id: u64)
    ensures
        id == iar & 0x3ff,
        id < 1024,
{
    let id = iar & 0x3ff;
    assert(iar & 0x3ff < 1024) by (bit_vector);
    id
}

} // verus!
