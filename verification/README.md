# axnet_rt

AXNET/1 framing and client logic, and the real-time instrumentation of an
AxVisor RT setup, with contracts proved by Verus.

- `src/crc.rs`: IEEE CRC-32, and that it catches every single-byte error.
- `src/frame.rs`: the AXNET/1 frame: `encode_into`, `encode`, `decode`, and
  the laws relating them (decode gives back what was encoded and vice versa;
  a frame damaged in one byte is refused).
- `src/reader.rs`: `FrameReader`, reassembling frames from a byte stream, and
  the law that a stream of frames pushed in chunks of at most 4096 bytes
  comes back whole.
- `src/session.rs`: the client's accounting, reconnect backoff and per-session
  decisions (heartbeat, next request, effect of incoming frames, liveness).
- `src/counters.rs`, `src/exit_stats.rs`, `src/wake_stats.rs`: vCPU exit and
  host wake-up latency counters.
- `src/probe.rs`, `src/gic.rs`, `src/uart.rs`: the RT-probe guest's stats page,
  interrupt and tick decisions, GICv3 bring-up sequence and UART output bytes.

`app/` is the unverified rim: sockets, clocks, MMIO and system registers,
argument handling, printing, and the floating-point summaries.
