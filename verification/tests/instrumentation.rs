use axnet_rt::counters::fold_minmax;
use axnet_rt::exit_stats::{
    dump, exit_index, reason_name, record_entry_cycles, record_exit, record_exit_cycles, ExitKind,
    VcpuRtStats, REASON_COUNT,
};
use axnet_rt::probe::{cntp_ticks, irq_id, tick_plan, RtStats, TickPlan, CNTP_GIC_ID, STATS_MAGIC};
use axnet_rt::wake_stats::{self, record_wake_latency, stamp_wake_queued, WakeStats};

#[test]
fn minmax_folds() {
    let (mut mn, mut mx) = (u64::MAX, 0u64);
    for v in [5u64, 3, 9, 4] {
        fold_minmax(&mut mn, &mut mx, v);
    }
    assert_eq!((mn, mx), (3, 9));
}

#[test]
fn exit_reasons_have_their_own_slots() {
    assert_eq!(exit_index(&ExitKind::Hypercall), 0);
    assert_eq!(exit_index(&ExitKind::SendIPI), 9);
    assert_eq!(exit_index(&ExitKind::Nothing), 10);
    assert_eq!(reason_name(5), "ext_irq");
    assert_eq!(reason_name(REASON_COUNT - 1), "other");
}

#[test]
fn exit_counters_and_summary() {
    let mut s = VcpuRtStats::new();
    let r = dump(&s);
    assert_eq!((r.exits, r.entry_avg, r.exit_avg), (0, 0, 0));
    assert_eq!(r.entry_min, u64::MAX);
    assert!(r.reasons.is_empty());
    record_exit(&mut s, &ExitKind::MmioRead);
    record_exit(&mut s, &ExitKind::MmioRead);
    record_exit(&mut s, &ExitKind::Hypercall);
    record_entry_cycles(&mut s, 100);
    record_entry_cycles(&mut s, 50);
    record_exit_cycles(&mut s, 7);
    let r = dump(&s);
    assert_eq!(r.exits, 3);
    assert_eq!((r.entry_min, r.entry_avg, r.entry_max), (50, 50, 100));
    assert_eq!((r.exit_min, r.exit_avg, r.exit_max), (7, 2, 7));
    assert_eq!(r.reasons, vec![(0, 1), (1, 2)]);
}

#[test]
fn counters_wrap() {
    let mut s = VcpuRtStats::new();
    s.exit_count = u64::MAX;
    s.reason_counts[10] = u64::MAX;
    record_exit(&mut s, &ExitKind::Nothing);
    assert_eq!(s.exit_count, 0);
    assert_eq!(s.reason_counts[10], 0);
}

#[test]
fn wake_latency_is_counted_once() {
    let mut w = WakeStats::new();
    record_wake_latency(&mut w, 500);
    assert_eq!(w.samples, 0);
    stamp_wake_queued(&mut w, 1000);
    record_wake_latency(&mut w, 1250);
    record_wake_latency(&mut w, 9999);
    assert_eq!((w.samples, w.sum_nanos, w.min_nanos, w.max_nanos), (1, 250, 250, 250));
    stamp_wake_queued(&mut w, 2000);
    record_wake_latency(&mut w, 1500); // clock went backwards: latency 0
    let r = wake_stats::dump(&w);
    assert_eq!((r.samples, r.min_nanos, r.avg_nanos, r.max_nanos), (2, 0, 125, 250));
}

#[test]
fn probe_page_records_latency_and_histogram() {
    let mut s = RtStats::new();
    assert_eq!(s.magic, STATS_MAGIC);
    assert_eq!(s.avg_latency(), 0);
    s.record_latency(130);
    s.record_latency(10);
    s.record_latency(64 * 200);
    assert_eq!(s.samples, 3);
    assert_eq!((s.latency_min, s.latency_max), (10, 64 * 200));
    assert_eq!(s.hist[2], 1);
    assert_eq!(s.hist[0], 1);
    assert_eq!(s.hist.iter().sum::<u64>(), 2);
    assert_eq!(s.avg_latency(), (130 + 10 + 64 * 200) / 3);
}

#[test]
fn probe_irq_and_tick_decisions() {
    assert_eq!(irq_id(0xFFFF_FC1E), 30);
    let mut s = RtStats::new();
    assert!(s.on_irq(CNTP_GIC_ID as u64, 77));
    assert_eq!((s.irq_entry_cycles, s.ticks), (77, 1));
    assert!(!s.on_irq(27, 99));
    assert_eq!((s.irq_entry_cycles, s.ticks), (77, 1));
    s.record_handler_exec(100, 40);
    assert_eq!(s.handler_exec_max, u64::MAX - 59);
    let (t, plan) = s.on_tick(1999, 500, 400);
    assert_eq!(t, 2000);
    assert_eq!(plan, TickPlan { provoke_exit: true, report: true, shutdown: false });
    assert_eq!((s.exits, s.samples, s.latency_sum), (1, 1, 100));
    assert_eq!(tick_plan(10_000).shutdown, true);
    assert_eq!(tick_plan(2001), TickPlan { provoke_exit: false, report: false, shutdown: false });
}

#[test]
fn timer_deadline_in_ticks() {
    assert_eq!(cntp_ticks(62_500_000, 1_000_000), 62_500);
    assert_eq!(cntp_ticks(1, 999_999_999), 0);
    assert_eq!(cntp_ticks(u64::MAX, u64::MAX), ((u64::MAX as u128 * u64::MAX as u128) / 1_000_000_000) as u64);
}

#[test]
fn reason_histogram_adds_up_to_exit_count() {
    let mut s = VcpuRtStats::new();
    let kinds = [
        ExitKind::Hypercall,
        ExitKind::SysRegWrite,
        ExitKind::CpuUp,
        ExitKind::SysRegWrite,
        ExitKind::ExternalInterrupt,
    ];
    for k in kinds.iter() {
        record_exit(&mut s, k);
    }
    assert_eq!(s.reason_counts.iter().sum::<u64>(), s.exit_count);
    assert_eq!(s.exit_count, 5);
}
