//! AXNET/1 framing, client session logic and real-time instrumentation
//! counters, with their contracts proved by Verus.

pub mod counters;
pub mod crc;
pub mod exit_stats;
pub mod frame;
pub mod gic;
pub mod probe;
pub mod reader;
pub mod session;
pub mod uart;
pub mod wake_stats;
