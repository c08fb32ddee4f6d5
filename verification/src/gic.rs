//! Bring-up of the physical GICv3 for the probe guest: enable the
//! distributor, wake the redistributor, and deliver the EL1 physical timer
//! PPI (GIC ID 30) as an enabled Group 1 interrupt at priority 0xa0.
//!
//! The register arithmetic is proved here; the order of the accesses is a
//! state machine whose caller performs each MMIO access it asks for and
//! hands back what a read returned.
use vstd::prelude::*;
use crate::probe::{CNTP_GIC_ID, GICD_BASE, GICR_BASE};

verus! {

pub const GICD_CTLR: usize = 0x0000;
pub const GICR_WAKER: usize = 0x0014;
pub const GICR_IGROUPR0: usize = 0x0080;
pub const GICR_ISENABLER0: usize = 0x0100;
pub const GICR_IPRIORITYR: usize = 0x0400;

/// GICR_WAKER.ProcessorSleep.
pub const WAKER_PROCESSOR_SLEEP: u32 = 0x2;
/// GICR_WAKER.ChildrenAsleep.
pub const WAKER_CHILDREN_ASLEEP: u32 = 0x4;
/// Priority of the timer interrupt.
pub const TIMER_PRIORITY: u32 = 0xa0;

/// GICD_CTLR with Group 0 and Group 1 enabled; no other bit changes.
pub fn enable_distributor(ctlr: u32) -> (r: u32)
    ensures
        r == ctlr | 0x3,
        r & 0x3 == 0x3,
        r & !0x3u32 == ctlr & !0x3u32,
{
    let r = ctlr | 0x3;
    assert(r & 0x3 == 0x3 && r & !0x3u32 == ctlr & !0x3u32) by (bit_vector)
        requires
            r == ctlr | 0x3,
    ;
    r
}

/// GICR_WAKER with ProcessorSleep cleared; no other bit changes.
pub fn wake_redistributor(waker: u32) -> (r: u32)
    ensures
        r == waker & !WAKER_PROCESSOR_SLEEP,
        r & WAKER_PROCESSOR_SLEEP == 0,
        r & !WAKER_PROCESSOR_SLEEP == waker & !WAKER_PROCESSOR_SLEEP,
{
    let r = waker & !WAKER_PROCESSOR_SLEEP;
    assert(r & 2 == 0 && r & !2u32 == waker & !2u32) by (bit_vector)
        requires
            r == waker & !2u32,
    ;
    r
}

/// The redistributor still reports its children asleep.
pub fn children_asleep(waker: u32) -> (asleep: bool)
    ensures
        asleep == (waker & WAKER_CHILDREN_ASLEEP != 0),
{
    waker & WAKER_CHILDREN_ASLEEP != 0
}

/// GICR_IGROUPR0 with interrupt `id` in Group 1; no other bit changes.
pub fn with_group1(igroup: u32, id: u32) -> (r: u32)
    requires
        id < 32,
    ensures
        r == igroup | (1u32 << id),
        r & (1u32 << id) == 1u32 << id,
        r & !(1u32 << id) == igroup & !(1u32 << id),
{
    let r = igroup | (1u32 << id);
    assert(r & (1u32 << id) == 1u32 << id && r & !(1u32 << id) == igroup & !(1u32 << id))
        by (bit_vector)
        requires
            r == igroup | (1u32 << id),
    ;
    r
}

/// A GICR_IPRIORITYR word with byte `byte` set to `prio`; the other three
/// bytes unchanged.
pub fn with_priority(word: u32, byte: u32, prio: u32) -> (r: u32)
    requires
        byte < 4,
        prio <= 0xff,
    ensures
        r == (word & !(0xffu32 << (8 * byte))) | (prio << (8 * byte)),
        (r >> (8 * byte)) & 0xff == prio,
        r & !(0xffu32 << (8 * byte)) == word & !(0xffu32 << (8 * byte)),
{
    let s = 8 * byte;
    let r = (word & !(0xffu32 << s)) | (prio << s);
    assert((r >> s) & 0xff == prio && r & !(0xffu32 << s) == word & !(0xffu32 << s)) by (bit_vector)
        requires
            r == (word & !(0xffu32 << s)) | (prio << s),
            s == 0 || s == 8 || s == 16 || s == 24,
            prio <= 0xff,
    ;
    r
}

/// The steps of the bring-up, in order.
#[derive(Debug, Clone, Copy, PartialEq, Eq, Structural)]
pub enum GicStage {
    EnableDistributor,
    WakeRedistributor,
    AwaitAwake,
    GroupTimer,
    PrioritizeTimer,
    EnableTimer,
    Done,
}

/// Where the bring-up stands: the step, and whether the read of the step's
/// register has been asked for and its value is the next input.
#[derive(Debug, Clone, Copy, PartialEq, Eq, Structural)]
pub struct GicInit {
    pub stage: GicStage,
    pub read_pending: bool,
}

/// An MMIO access for the caller to perform.
#[derive(Debug, Clone, Copy, PartialEq, Eq, Structural)]
pub enum MmioOp {
    /// Read the 32-bit register at this address and hand its value to the next step.
    Read(usize),
    /// Write this value to the 32-bit register at this address.
    Write(usize, u32),
    /// The GIC is set up.
    Finished,
}

/// The register that a step reads and writes.
pub open spec fn stage_register(stage: GicStage) -> usize {
    match stage {
        GicStage::EnableDistributor => (GICD_BASE + GICD_CTLR) as usize,
        GicStage::WakeRedistributor => (GICR_BASE + GICR_WAKER) as usize,
        GicStage::AwaitAwake => (GICR_BASE + GICR_WAKER) as usize,
        GicStage::GroupTimer => (GICR_BASE + GICR_IGROUPR0) as usize,
        GicStage::PrioritizeTimer => (GICR_BASE + GICR_IPRIORITYR + 4 * (CNTP_GIC_ID / 4)) as usize,
        GicStage::EnableTimer => (GICR_BASE + GICR_ISENABLER0) as usize,
        GicStage::Done => 0,
    }
}

/// The value a read-modify-write step writes back, given what it read.
pub open spec fn stage_update(stage: GicStage, v: u32) -> u32 {
    match stage {
        GicStage::EnableDistributor => v | 0x3,
        GicStage::WakeRedistributor => v & !WAKER_PROCESSOR_SLEEP,
        GicStage::GroupTimer => v | (1u32 << CNTP_GIC_ID),
        GicStage::PrioritizeTimer => (v & !(0xffu32 << (8 * (CNTP_GIC_ID % 4)))) | (TIMER_PRIORITY
            << (8 * (CNTP_GIC_ID % 4))),
        _ => v,
    }
}

/// The step after a read-modify-write step.
pub open spec fn stage_after(stage: GicStage) -> GicStage {
    match stage {
        GicStage::EnableDistributor => GicStage::WakeRedistributor,
        GicStage::WakeRedistributor => GicStage::AwaitAwake,
        GicStage::GroupTimer => GicStage::PrioritizeTimer,
        GicStage::PrioritizeTimer => GicStage::EnableTimer,
        _ => stage,
    }
}

/// The bring-up as a transition table: from the current state and the value
/// of the last read, the next state and the access to perform.
pub open spec fn spec_init_step(st: GicInit, value: u32) -> (GicInit, MmioOp) {
    match st.stage {
        GicStage::Done => (st, MmioOp::Finished),
        GicStage::EnableTimer => (
            GicInit { stage: GicStage::Done, read_pending: false },
            MmioOp::Write(stage_register(st.stage), 1u32 << CNTP_GIC_ID),
        ),
        GicStage::AwaitAwake => if !st.read_pending || value & WAKER_CHILDREN_ASLEEP != 0 {
            (
                GicInit { stage: GicStage::AwaitAwake, read_pending: true },
                MmioOp::Read(stage_register(st.stage)),
            )
        } else {
            (
                GicInit { stage: GicStage::GroupTimer, read_pending: true },
                MmioOp::Read(stage_register(GicStage::GroupTimer)),
            )
        },
        _ => if !st.read_pending {
            (GicInit { stage: st.stage, read_pending: true }, MmioOp::Read(stage_register(st.stage)))
        } else {
            (
                GicInit { stage: stage_after(st.stage), read_pending: false },
                MmioOp::Write(stage_register(st.stage), stage_update(st.stage, value)),
            )
        },
    }
}

impl GicInit {
    /// The bring-up before its first access.
    pub fn start() -> (st: Self)
        ensures
            st == (GicInit { stage: GicStage::EnableDistributor, read_pending: false }),
    {
        GicInit { stage: GicStage::EnableDistributor, read_pending: false }
    }
}

/// Configure the physical GIC so the CNTP PPI is enabled and delivered at
/// EL1: one step of the bring-up. `value` is what the last `Read` returned
/// (ignored when no read is pending).
pub fn init(st: &mut GicInit, value: u32) -> (op: MmioOp)
    ensures
        (*final(st), op) == spec_init_step(*old(st), value),
{
    let waker = GICR_BASE + GICR_WAKER;
    match st.stage {
        GicStage::Done => MmioOp::Finished,
        GicStage::EnableTimer => {
            st.stage = GicStage::Done;
            st.read_pending = false;
            MmioOp::Write(GICR_BASE + GICR_ISENABLER0, 1u32 << CNTP_GIC_ID)
        },
        GicStage::AwaitAwake => {
            if !st.read_pending || children_asleep(value) {
                st.read_pending = true;
                MmioOp::Read(waker)
            } else {
                st.stage = GicStage::GroupTimer;
                st.read_pending = true;
                MmioOp::Read(GICR_BASE + GICR_IGROUPR0)
            }
        },
        GicStage::EnableDistributor => {
            let reg = GICD_BASE + GICD_CTLR;
            if !st.read_pending {
                st.read_pending = true;
                MmioOp::Read(reg)
            } else {
                st.stage = GicStage::WakeRedistributor;
                st.read_pending = false;
                MmioOp::Write(reg, enable_distributor(value))
            }
        },
        GicStage::WakeRedistributor => {
            if !st.read_pending {
                st.read_pending = true;
                MmioOp::Read(waker)
            } else {
                st.stage = GicStage::AwaitAwake;
                st.read_pending = false;
                MmioOp::Write(waker, wake_redistributor(value))
            }
        },
        GicStage::GroupTimer => {
            let reg = GICR_BASE + GICR_IGROUPR0;
            if !st.read_pending {
                st.read_pending = true;
                MmioOp::Read(reg)
            } else {
                st.stage = GicStage::PrioritizeTimer;
                st.read_pending = false;
                MmioOp::Write(reg, with_group1(value, CNTP_GIC_ID))
            }
        },
        GicStage::PrioritizeTimer => {
            // IPRIORITYR<n> covers IDs 4n..4n+3, one byte each.
            let reg = GICR_BASE + GICR_IPRIORITYR + 4 * (CNTP_GIC_ID as usize / 4);
            if !st.read_pending {
                st.read_pending = true;
                MmioOp::Read(reg)
            } else {
                st.stage = GicStage::EnableTimer;
                st.read_pending = false;
                MmioOp::Write(reg, with_priority(value, CNTP_GIC_ID % 4, TIMER_PRIORITY))
            }
        },
    }
}

} // verus!
