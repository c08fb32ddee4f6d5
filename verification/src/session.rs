//! AXNET/1 client logic, independent of where it runs: the accounting of a
//! run, the reconnect backoff, and the per-session decisions (heartbeat,
//! next request, what an incoming frame does, liveness, completion).
//!
//! The caller owns the socket and the clock: it performs what these
//! functions decide and reports what happened. Times are monotonic
//! microseconds.
use vstd::prelude::*;
use crate::frame::{
    decode, encode, message_view, spec_decode, spec_encode, CRC_LEN, HEADER_LEN, MAX_PAYLOAD,
    MSG_CONTROL, MSG_CONTROL_ACK, MSG_ERROR, MSG_HEARTBEAT,
};
use crate::reader::{spec_drain, spec_next_frame, spec_push, FrameReader};

verus! {

/// What a client run is asked to do.
pub struct Config {
    /// IPv4 address of the server, most significant octet first.
    pub server: [u8; 4],
    pub port: u16,
    /// Number of CONTROL round-trips to complete.
    pub requests: usize,
    /// Payload bytes of each CONTROL message (capped at `MAX_PAYLOAD`).
    pub payload_len: usize,
    /// Heartbeat interval.
    pub heartbeat_ms: u64,
    /// Session considered dead after this long without an application frame.
    pub timeout_ms: u64,
    /// Total wall-clock bound; `None` = run until the requests are done.
    pub duration_ms: Option<u64>,
    /// Reconnect backoff starts at 1 s and doubles up to this cap.
    pub max_reconnect_ms: u64,
}

/// Aggregate results of a client run.
#[derive(Debug, Clone)]
pub struct Stats {
    pub sent: usize,
    pub acked: usize,
    /// Requests that were in flight when a session broke; their ACK can never
    /// arrive, so they are resolved (not counted as missing) at completion.
    pub lost: usize,
    pub errors: usize,
    pub timeouts: usize,
    pub reconnects: usize,
    pub rtts_us: Vec<u64>,
    /// Payload bytes transmitted for the throughput phase.
    pub payload_bytes: u64,
    /// Wall time spent on the throughput phase (from first request to last ack).
    pub throughput_us: u64,
    /// When the first request of the run went out: the start of the
    /// throughput phase, kept across reconnects.
    pub throughput_start_us: Option<u64>,
}

/// How a session ended.
#[derive(Debug, Clone, Copy, PartialEq, Eq, Structural)]
pub enum Outcome {
    /// Requests completed (or duration expired).
    Done,
    /// The TCP session broke; reconnect.
    Broken,
}

/// Sum of a sequence of samples.
pub open spec fn seq_sum(s: Seq<u64>) -> int
    decreases s.len(),
{
    if s.len() == 0 {
        0
    } else {
        seq_sum(s.drop_last()) + s.last()
    }
}

/// Largest of a sequence of samples, 0 for none.
pub open spec fn seq_max(s: Seq<u64>) -> u64
    decreases s.len(),
{
    if s.len() == 0 {
        0
    } else if seq_max(s.drop_last()) >= s.last() {
        seq_max(s.drop_last())
    } else {
        s.last()
    }
}

proof fn lemma_prefix_sum_le(s: Seq<u64>, i: int)
    requires
        0 <= i <= s.len(),
    ensures
        seq_sum(s.take(i)) <= seq_sum(s),
        0 <= seq_sum(s.take(i)),
    decreases s.len(),
{
    if s.len() == 0 {
        assert(s.take(i) =~= s);
    } else if i == s.len() {
        assert(s.take(i) =~= s);
        lemma_prefix_sum_le(s.drop_last(), i - 1);
    } else {
        lemma_prefix_sum_le(s.drop_last(), i);
        assert(s.drop_last().take(i) =~= s.take(i));
    }
}

/// Every request sent is either acknowledged, lost with a broken session, or
/// still in flight, and every acknowledgement left one RTT sample.
pub open spec fn accounted(stats: &Stats, in_flight: bool) -> bool {
    &&& stats.sent == stats.acked + stats.lost + (if in_flight { 1int } else { 0int })
    &&& stats.rtts_us@.len() == stats.acked
}

/// The largest sample bounds every sample and is one of them; with no
/// samples it is 0.
pub proof fn lemma_seq_max_is_maximum(s: Seq<u64>)
    ensures
        forall|i: int| 0 <= i < s.len() ==> #[trigger] s[i] <= seq_max(s),
        s.len() > 0 ==> s.contains(seq_max(s)),
        s.len() == 0 ==> seq_max(s) == 0,
    decreases s.len(),
{
    if s.len() > 0 {
        let init = s.drop_last();
        lemma_seq_max_is_maximum(init);
        assert forall|i: int| 0 <= i < s.len() implies #[trigger] s[i] <= seq_max(s) by {
            if i < s.len() - 1 {
                assert(s[i] == init[i]);
            }
        }
        if seq_max(init) >= s.last() && init.len() > 0 {
            let j = choose|j: int| 0 <= j < init.len() && init[j] == seq_max(init);
            assert(s[j] == seq_max(s));
        } else {
            assert(s[s.len() - 1] == seq_max(s));
        }
    }
}

/// Every request sent has been resolved: acknowledged or lost.
pub open spec fn spec_all_resolved(stats: &Stats, requests: usize) -> bool {
    stats.sent >= requests && stats.acked + stats.lost >= stats.sent
}

impl Default for Stats {
    fn default() -> (s: Self)
        ensures
            s.sent == 0 && s.acked == 0 && s.lost == 0 && s.errors == 0,
            s.timeouts == 0 && s.reconnects == 0,
            s.rtts_us@ == Seq::<u64>::empty(),
            s.payload_bytes == 0 && s.throughput_us == 0,
            s.throughput_start_us is None,
    {
        Stats {
            sent: 0,
            acked: 0,
            lost: 0,
            errors: 0,
            timeouts: 0,
            reconnects: 0,
            rtts_us: Vec::new(),
            payload_bytes: 0,
            throughput_us: 0,
            throughput_start_us: None,
        }
    }
}

impl Stats {
    /// Mean RTT in microseconds (rounded down), 0 without samples.
    pub fn avg_rtt_us(&self) -> (avg: u64)
        requires
            seq_sum(self.rtts_us@) <= u64::MAX,
        ensures
            self.rtts_us@.len() == 0 ==> avg == 0,
            self.rtts_us@.len() > 0 ==> avg == seq_sum(self.rtts_us@) / (self.rtts_us@.len() as int),
    {
        let n = self.rtts_us.len();
        if n == 0 {
            return 0;
        }
        let mut total: u64 = 0;
        let mut i: usize = 0;
        while i < n
            invariant
                n == self.rtts_us@.len(),
                i <= n,
                seq_sum(self.rtts_us@) <= u64::MAX,
                total == seq_sum(self.rtts_us@.take(i as int)),
            decreases n - i,
        {
            proof {
                lemma_prefix_sum_le(self.rtts_us@, i + 1);
                assert(self.rtts_us@.take(i + 1).drop_last() =~= self.rtts_us@.take(i as int));
            }
            total = total + self.rtts_us[i];
            i = i + 1;
        }
        assert(self.rtts_us@.take(n as int) =~= self.rtts_us@);
        total / (n as u64)
    }

    /// The sum of the RTT samples, or `None` where it does not fit a `u64`.
    pub fn rtt_sum(&self) -> (sum: Option<u64>)
        ensures
            seq_sum(self.rtts_us@) <= u64::MAX ==> sum == Some(seq_sum(self.rtts_us@) as u64),
            seq_sum(self.rtts_us@) > u64::MAX ==> sum is None,
    {
        let n = self.rtts_us.len();
        let mut total: u64 = 0;
        let mut i: usize = 0;
        while i < n
            invariant
                n == self.rtts_us@.len(),
                i <= n,
                total == seq_sum(self.rtts_us@.take(i as int)),
            decreases n - i,
        {
            proof {
                assert(self.rtts_us@.take(i + 1).drop_last() =~= self.rtts_us@.take(i as int));
            }
            match total.checked_add(self.rtts_us[i]) {
                Some(t) => {
                    total = t;
                },
                None => {
                    proof {
                        lemma_prefix_sum_le(self.rtts_us@, i + 1);
                    }
                    return None;
                },
            }
            i = i + 1;
        }
        assert(self.rtts_us@.take(n as int) =~= self.rtts_us@);
        Some(total)
    }

    /// Mean RTT in microseconds (rounded down), 0 without samples; `None`
    /// where the sum of the samples does not fit a `u64`.
    pub fn checked_avg_rtt_us(&self) -> (avg: Option<u64>)
        ensures
            seq_sum(self.rtts_us@) > u64::MAX ==> avg is None,
            seq_sum(self.rtts_us@) <= u64::MAX ==> avg == Some(
                if self.rtts_us@.len() == 0 {
                    0
                } else {
                    (seq_sum(self.rtts_us@) / (self.rtts_us@.len() as int)) as u64
                },
            ),
    {
        match self.rtt_sum() {
            None => None,
            Some(_) => Some(self.avg_rtt_us()),
        }
    }

    /// The RTT samples in ascending order.
    pub fn sorted_rtts(&self) -> (v: Vec<u64>)
        ensures
            forall|i: int, j: int| 0 <= i <= j < v@.len() ==> v@[i] <= v@[j],
            v@.to_multiset() == self.rtts_us@.to_multiset(),
    {
        let n = self.rtts_us.len();
        let mut v: Vec<u64> = Vec::new();
        let mut i: usize = 0;
        assert(self.rtts_us@.take(0) =~= Seq::<u64>::empty());
        while i < n
            invariant
                n == self.rtts_us@.len(),
                i <= n,
                v@.len() == i,
                forall|a: int, b: int| 0 <= a <= b < v@.len() ==> v@[a] <= v@[b],
                v@.to_multiset() == self.rtts_us@.take(i as int).to_multiset(),
            decreases n - i,
        {
            let x = self.rtts_us[i];
            let mut pos: usize = 0;
            while pos < v.len() && v[pos] <= x
                invariant
                    pos <= v@.len(),
                    forall|k: int| 0 <= k < pos ==> v@[k] <= x,
                decreases v@.len() - pos,
            {
                pos = pos + 1;
            }
            let ghost before = v@;
            v.insert(pos, x);
            assert(v@ == before.insert(pos as int, x));
            assert forall|a: int, b: int| 0 <= a <= b < v@.len() implies v@[a] <= v@[b] by {
                if a < pos && b < pos {
                    assert(v@[a] == before[a] && v@[b] == before[b]);
                } else if a < pos && b == pos {
                    assert(v@[a] == before[a]);
                } else if a < pos {
                    assert(v@[a] == before[a] && v@[b] == before[b - 1]);
                } else if a == pos && b > pos {
                    assert(v@[b] == before[b - 1]);
                    assert(before[pos as int] > x);
                } else if a > pos {
                    assert(v@[a] == before[a - 1] && v@[b] == before[b - 1]);
                }
            }
            proof {
                vstd::seq_lib::to_multiset_insert(before, pos as int, x);
                vstd::seq_lib::to_multiset_build(self.rtts_us@.take(i as int), x);
                assert(self.rtts_us@.take(i + 1) =~= self.rtts_us@.take(i as int).push(x));
            }
            i = i + 1;
        }
        assert(self.rtts_us@.take(n as int) =~= self.rtts_us@);
        v
    }

    /// Largest RTT in microseconds, 0 without samples.
    pub fn max_rtt_us(&self) -> (max: u64)
        ensures
            max == seq_max(self.rtts_us@),
    {
        let n = self.rtts_us.len();
        let mut best: u64 = 0;
        let mut i: usize = 0;
        while i < n
            invariant
                n == self.rtts_us@.len(),
                i <= n,
                best == seq_max(self.rtts_us@.take(i as int)),
            decreases n - i,
        {
            assert(self.rtts_us@.take(i + 1).drop_last() =~= self.rtts_us@.take(i as int));
            let x = self.rtts_us[i];
            if x > best {
                best = x;
            }
            i = i + 1;
        }
        assert(self.rtts_us@.take(n as int) =~= self.rtts_us@);
        best
    }

    /// The verdict of a run: something was sent, every request was resolved,
    /// and no protocol error was seen.
    pub fn passed(&self) -> (ok: bool)
        ensures
            ok == (self.sent > 0 && self.acked + self.lost == self.sent && self.errors == 0),
    {
        self.sent > 0 && self.acked as u128 + self.lost as u128 == self.sent as u128 && self.errors
            == 0
    }
}

/// Sending a request keeps the accounting: with none in flight before, the
/// new request is the one in flight.
pub proof fn lemma_request_keeps_accounting(before: Stats, after: Stats)
    requires
        accounted(&before, false),
        after.sent == before.sent + 1,
        after.acked == before.acked,
        after.lost == before.lost,
        after.rtts_us@ == before.rtts_us@,
    ensures
        accounted(&after, true),
{
}

/// A broken session resolves its request in flight as lost: afterwards
/// every request sent is acknowledged or lost.
pub proof fn lemma_break_resolves_all(before: Stats, after: Stats, in_flight: bool)
    requires
        accounted(&before, in_flight),
        after.sent == before.sent,
        after.acked == before.acked,
        after.lost == before.lost + (if in_flight { 1int } else { 0int }),
        after.rtts_us@ == before.rtts_us@,
    ensures
        accounted(&after, false),
        after.acked + after.lost == after.sent,
{
}

/// Record that the current session ended; an in-flight request can never be
/// acknowledged, so it is counted as `lost`.
pub fn mark_broken(stats: &mut Stats, in_flight: bool, is_timeout: bool) -> (o: Outcome)
    requires
        in_flight ==> old(stats).lost < usize::MAX,
        is_timeout ==> old(stats).timeouts < usize::MAX,
    ensures
        o == Outcome::Broken,
        final(stats).lost == old(stats).lost + (if in_flight { 1int } else { 0int }),
        final(stats).timeouts == old(stats).timeouts + (if is_timeout { 1int } else { 0int }),
        final(stats).sent == old(stats).sent,
        final(stats).acked == old(stats).acked,
        final(stats).errors == old(stats).errors,
        final(stats).reconnects == old(stats).reconnects,
        final(stats).rtts_us@ == old(stats).rtts_us@,
        final(stats).payload_bytes == old(stats).payload_bytes,
        final(stats).throughput_us == old(stats).throughput_us,
        final(stats).throughput_start_us == old(stats).throughput_start_us,
{
    if in_flight {
        stats.lost = stats.lost + 1;
    }
    if is_timeout {
        stats.timeouts = stats.timeouts + 1;
    }
    Outcome::Broken
}

/// Every request of the run has been sent and resolved.
pub fn all_resolved(cfg: &Config, stats: &Stats) -> (done: bool)
    ensures
        done == spec_all_resolved(stats, cfg.requests),
{
    stats.sent >= cfg.requests && stats.acked as u128 + stats.lost as u128 >= stats.sent as u128
}

/// The run's time bound, if any, has passed after `elapsed_us`.
pub fn out_of_time(cfg: &Config, elapsed_us: u64) -> (up: bool)
    ensures
        up == (match cfg.duration_ms {
            Some(d) => elapsed_us >= d * 1000,
            None => false,
        }),
{
    match cfg.duration_ms {
        Some(d) => elapsed_us as u128 >= d as u128 * 1000,
        None => false,
    }
}

/// The first reconnect backoff.
pub const INITIAL_BACKOFF_MS: u64 = 1000;

/// The backoff after another failed attempt: doubled, capped at `max_ms`.
pub fn next_backoff(backoff_ms: u64, max_ms: u64) -> (next: u64)
    requires
        backoff_ms * 2 <= u64::MAX,
    ensures
        next == if backoff_ms * 2 <= max_ms { backoff_ms * 2 } else { max_ms as int },
{
    let doubled = backoff_ms * 2;
    if doubled <= max_ms {
        doubled
    } else {
        max_ms
    }
}

/// The backoff after `k` failed attempts in a row, starting from
/// `INITIAL_BACKOFF_MS`.
pub open spec fn backoff_after(k: nat, max_ms: int) -> int
    decreases k,
{
    if k == 0 {
        INITIAL_BACKOFF_MS as int
    } else {
        let b = backoff_after((k - 1) as nat, max_ms);
        if b * 2 <= max_ms {
            b * 2
        } else {
            max_ms
        }
    }
}

/// 2 to the power `k`.
pub open spec fn pow2(k: nat) -> int
    decreases k,
{
    if k == 0 {
        1
    } else {
        2 * pow2((k - 1) as nat)
    }
}

/// The reconnect backoff grows 1 s, 2 s, 4 s, 8 s, ... and is capped: after
/// `k >= 1` failed attempts it is `min(1000 * 2^k, max_ms)` milliseconds.
pub proof fn lemma_backoff_doubles_to_cap(k: nat, max_ms: int)
    requires
        k >= 1,
        max_ms >= 0,
    ensures
        backoff_after(k, max_ms) == if INITIAL_BACKOFF_MS * pow2(k) <= max_ms {
            INITIAL_BACKOFF_MS * pow2(k)
        } else {
            max_ms
        },
    decreases k,
{
    let km1 = (k - 1) as nat;
    let b = backoff_after(km1, max_ms);
    assert(backoff_after(k, max_ms) == if b * 2 <= max_ms { b * 2 } else { max_ms });
    assert(pow2(k) == 2 * pow2(km1));
    lemma_pow2_positive(km1);
    if k == 1 {
        assert(b == 1000);
        assert(pow2(km1) == 1);
    } else {
        lemma_backoff_doubles_to_cap(km1, max_ms);
        let p = 1000 * pow2(km1);
        assert(b == if p <= max_ms { p } else { max_ms });
        if p <= max_ms {
            assert(b * 2 == 1000 * pow2(k));
        } else {
            assert(1000 * pow2(k) > max_ms);
        }
    }
}

proof fn lemma_pow2_positive(k: nat)
    ensures
        pow2(k) >= 1,
    decreases k,
{
    if k > 0 {
        lemma_pow2_positive((k - 1) as nat);
    }
}

/// What one connection attempt of a run came to.
#[derive(Debug, Clone, Copy, PartialEq, Eq, Structural)]
pub enum Attempt {
    /// Connected and ran a session, which ended so.
    Session(Outcome),
    /// Could not connect or complete the handshake.
    ConnectFailed,
}

/// Account for one connection attempt and decide whether the run stops.
pub fn after_attempt(cfg: &Config, stats: &mut Stats, attempt: Attempt, elapsed_us: u64) -> (stop:
    bool)
    requires
        attempt == Attempt::Session(Outcome::Broken) ==> old(stats).reconnects < usize::MAX,
        attempt == Attempt::ConnectFailed ==> old(stats).errors < usize::MAX,
    ensures
        final(stats).reconnects == old(stats).reconnects + (if attempt == Attempt::Session(
            Outcome::Broken,
        ) {
            1int
        } else {
            0int
        }),
        final(stats).errors == old(stats).errors + (if attempt == Attempt::ConnectFailed {
            1int
        } else {
            0int
        }),
        final(stats).sent == old(stats).sent,
        final(stats).acked == old(stats).acked,
        final(stats).lost == old(stats).lost,
        final(stats).timeouts == old(stats).timeouts,
        final(stats).rtts_us@ == old(stats).rtts_us@,
        final(stats).payload_bytes == old(stats).payload_bytes,
        final(stats).throughput_us == old(stats).throughput_us,
        final(stats).throughput_start_us == old(stats).throughput_start_us,
        stop == (attempt == Attempt::Session(Outcome::Done) || spec_all_resolved(
            &*final(stats),
            cfg.requests,
        ) || match cfg.duration_ms {
            Some(d) => elapsed_us >= d * 1000,
            None => false,
        }),
{
    match attempt {
        Attempt::Session(Outcome::Done) => {
            return true;
        },
        Attempt::Session(Outcome::Broken) => {
            stats.reconnects = stats.reconnects + 1;
        },
        Attempt::ConnectFailed => {
            stats.errors = stats.errors + 1;
        },
    }
    all_resolved(cfg, stats) || out_of_time(cfg, elapsed_us)
}

/// The request awaiting its acknowledgement.
#[derive(Debug, Clone, Copy, PartialEq, Eq, Structural)]
pub struct InFlight {
    pub sequence: u32,
    pub sent_at_us: u64,
}

/// The state of one connected session.
pub struct Session {
    /// Bytes received and not yet framed.
    pub reader: FrameReader,
    /// One request in flight at a time keeps RTT measurement simple.
    pub in_flight: Option<InFlight>,
    /// When the last valid frame arrived.
    pub last_rx_us: u64,
    /// When the last heartbeat went out.
    pub last_hb_us: u64,
}

/// The payload byte that CONTROL requests are filled with.
pub const REQUEST_FILL: u8 = 0xA5;

/// Microseconds from `then` to `now`, 0 if the clock reads earlier.
pub open spec fn elapsed(now: u64, then: u64) -> u64 {
    if now >= then {
        (now - then) as u64
    } else {
        0
    }
}

fn elapsed_us(now: u64, then: u64) -> (e: u64)
    ensures
        e == elapsed(now, then),
{
    if now >= then {
        now - then
    } else {
        0
    }
}

/// The part of a session and its statistics that incoming frames change.
pub struct Progress {
    pub in_flight: Option<InFlight>,
    pub acked: int,
    pub errors: int,
    pub rtts: Seq<u64>,
    pub last_rx_us: u64,
    pub throughput_us: u64,
}

/// What one complete frame, received at `now`, does.
pub open spec fn absorb_frame(p: Progress, f: Seq<u8>, now: u64, t0: Option<u64>) -> Progress {
    match spec_decode(f, f.len() as int) {
        Ok(msg) => {
            let p = Progress { last_rx_us: now, ..p };
            if msg.msg_type == MSG_CONTROL_ACK {
                match p.in_flight {
                    Some(inf) => if inf.sequence == msg.sequence {
                        Progress {
                            in_flight: None,
                            acked: p.acked + 1,
                            rtts: p.rtts.push(elapsed(now, inf.sent_at_us)),
                            throughput_us: match t0 {
                                Some(t) => elapsed(now, t),
                                None => p.throughput_us,
                            },
                            ..p
                        }
                    } else {
                        p
                    },
                    None => p,
                }
            } else if msg.msg_type == MSG_ERROR {
                Progress { errors: p.errors + 1, ..p }
            } else {
                p
            }
        },
        Err(_) => Progress { errors: p.errors + 1, ..p },
    }
}

/// Every complete frame at the front of `buf`, taken in order; the progress
/// they make and the bytes that remain.
pub open spec fn absorb_stream(p: Progress, buf: Seq<u8>, now: u64, t0: Option<u64>) -> (
    Progress,
    Seq<u8>,
)
    decreases buf.len(),
{
    match spec_next_frame(buf).0 {
        Some(f) => if spec_next_frame(buf).1.len() < buf.len() {
            absorb_stream(absorb_frame(p, f, now, t0), spec_next_frame(buf).1, now, t0)
        } else {
            (p, buf)
        },
        None => (p, spec_next_frame(buf).1),
    }
}

/// The progress fields of a session and its statistics.
pub open spec fn progress_of(sess: &Session, stats: &Stats) -> Progress {
    Progress {
        in_flight: sess.in_flight,
        acked: stats.acked as int,
        errors: stats.errors as int,
        rtts: stats.rtts_us@,
        last_rx_us: sess.last_rx_us,
        throughput_us: stats.throughput_us,
    }
}

proof fn lemma_next_frame_shrinks(buf: Seq<u8>)
    ensures
        spec_next_frame(buf).0 is Some ==> spec_next_frame(buf).1.len() < buf.len(),
{
}

proof fn lemma_absorb_monotone(p: Progress, buf: Seq<u8>, now: u64, t0: Option<u64>)
    ensures
        absorb_stream(p, buf, now, t0).0.errors >= p.errors,
        absorb_stream(p, buf, now, t0).0.acked >= p.acked,
    decreases buf.len(),
{
    if let Some(f) = spec_next_frame(buf).0 {
        if spec_next_frame(buf).1.len() < buf.len() {
            lemma_absorb_monotone(absorb_frame(p, f, now, t0), spec_next_frame(buf).1, now, t0);
        }
    }
}

/// Each frame taken from the buffer counts at most one error, and every
/// frame is at least 30 bytes long, so a buffer can add at most one error
/// per byte it holds.
pub proof fn lemma_absorb_errors_bounded(p: Progress, buf: Seq<u8>, now: u64, t0: Option<u64>)
    ensures
        absorb_stream(p, buf, now, t0).0.errors <= p.errors + buf.len(),
    decreases buf.len(),
{
    if let Some(f) = spec_next_frame(buf).0 {
        let rest = spec_next_frame(buf).1;
        if rest.len() < buf.len() {
            lemma_absorb_errors_bounded(absorb_frame(p, f, now, t0), rest, now, t0);
        }
    }
}

/// Incoming frames keep the run's accounting: a request in flight is either
/// still in flight or acknowledged with one RTT sample, and nothing else
/// changes the counts of sent, acknowledged and lost requests.
pub proof fn lemma_absorb_keeps_accounting(
    p: Progress,
    buf: Seq<u8>,
    now: u64,
    t0: Option<u64>,
    sent: int,
    lost: int,
)
    requires
        sent == p.acked + lost + (if p.in_flight is Some { 1int } else { 0int }),
        p.rtts.len() == p.acked,
    ensures
        ({
            let q = absorb_stream(p, buf, now, t0).0;
            &&& sent == q.acked + lost + (if q.in_flight is Some { 1int } else { 0int })
            &&& q.rtts.len() == q.acked
            &&& q.rtts.take(p.rtts.len() as int) == p.rtts
        }),
    decreases buf.len(),
{
    if let Some(f) = spec_next_frame(buf).0 {
        if spec_next_frame(buf).1.len() < buf.len() {
            let p2 = absorb_frame(p, f, now, t0);
            assert(p2.rtts.take(p.rtts.len() as int) =~= p.rtts);
            lemma_absorb_keeps_accounting(p2, spec_next_frame(buf).1, now, t0, sent, lost);
            lemma_absorb_monotone(p2, spec_next_frame(buf).1, now, t0);
            let q = absorb_stream(p, buf, now, t0).0;
            assert(p2.rtts.len() >= p.rtts.len());
            assert(q.rtts.take(p.rtts.len() as int) =~= q.rtts.take(p2.rtts.len() as int).take(
                p.rtts.len() as int,
            ));
        }
    } else {
        assert(p.rtts.take(p.rtts.len() as int) =~= p.rtts);
    }
}

impl Session {
    /// A session whose handshake completed at `now`.
    pub fn new(now: u64) -> (s: Self)
        ensures
            s.reader@ == Seq::<u8>::empty(),
            s.in_flight is None,
            s.last_rx_us == now,
            s.last_hb_us == now,
    {
        Session {
            reader: FrameReader::new(),
            in_flight: None,
            last_rx_us: now,
            last_hb_us: now,
        }
    }

    /// A heartbeat is due once `heartbeat_ms` have passed since the last one:
    /// its sequence number is taken and returned, to be sent now.
    pub fn heartbeat_due(&mut self, cfg: &Config, now: u64, seq: &mut u32) -> (hb: Option<u32>)
        ensures
            elapsed(now, old(self).last_hb_us) >= cfg.heartbeat_ms * 1000 ==> {
                &&& hb == Some(*old(seq))
                &&& *final(seq) == old(seq).wrapping_add(1)
                &&& final(self).last_hb_us == now
            },
            elapsed(now, old(self).last_hb_us) < cfg.heartbeat_ms * 1000 ==> {
                &&& hb is None
                &&& *final(seq) == *old(seq)
                &&& final(self).last_hb_us == old(self).last_hb_us
            },
            final(self).reader@ == old(self).reader@,
            final(self).in_flight == old(self).in_flight,
            final(self).last_rx_us == old(self).last_rx_us,
    {
        let since = elapsed_us(now, self.last_hb_us);
        if since as u128 >= cfg.heartbeat_ms as u128 * 1000 {
            let h = *seq;
            *seq = seq.wrapping_add(1);
            self.last_hb_us = now;
            Some(h)
        } else {
            None
        }
    }

    /// The next request is due when fewer than `requests` were sent and none
    /// is in flight: its sequence number is taken, and it is returned with
    /// its payload length.
    pub fn request_due(&self, cfg: &Config, stats: &Stats, seq: &mut u32) -> (req: Option<
        (u32, usize),
    >)
        ensures
            (stats.sent < cfg.requests && self.in_flight is None) ==> {
                &&& req == Some(
                    (
                        *old(seq),
                        if cfg.payload_len <= MAX_PAYLOAD {
                            cfg.payload_len
                        } else {
                            MAX_PAYLOAD
                        },
                    ),
                )
                &&& *final(seq) == old(seq).wrapping_add(1)
            },
            !(stats.sent < cfg.requests && self.in_flight is None) ==> {
                &&& req is None
                &&& *final(seq) == *old(seq)
            },
    {
        if stats.sent < cfg.requests && self.in_flight.is_none() {
            let plen = if cfg.payload_len <= MAX_PAYLOAD {
                cfg.payload_len
            } else {
                MAX_PAYLOAD
            };
            let r = *seq;
            *seq = seq.wrapping_add(1);
            Some((r, plen))
        } else {
            None
        }
    }

    /// Record that the request `sequence` with `plen` payload bytes went out at `now`.
    pub fn request_sent(&mut self, stats: &mut Stats, now: u64, sequence: u32, plen: usize)
        requires
            old(stats).sent < usize::MAX,
            old(stats).payload_bytes + plen <= u64::MAX,
        ensures
            final(stats).sent == old(stats).sent + 1,
            final(stats).payload_bytes == old(stats).payload_bytes + plen,
            final(self).in_flight == Some(InFlight { sequence, sent_at_us: now }),
            final(stats).throughput_start_us == match old(stats).throughput_start_us {
                Some(t) => Some(t),
                None => Some(now),
            },
            final(self).reader@ == old(self).reader@,
            final(self).last_rx_us == old(self).last_rx_us,
            final(self).last_hb_us == old(self).last_hb_us,
            final(stats).acked == old(stats).acked,
            final(stats).lost == old(stats).lost,
            final(stats).errors == old(stats).errors,
            final(stats).timeouts == old(stats).timeouts,
            final(stats).reconnects == old(stats).reconnects,
            final(stats).rtts_us@ == old(stats).rtts_us@,
            final(stats).throughput_us == old(stats).throughput_us,
    {
        stats.sent = stats.sent + 1;
        stats.payload_bytes = stats.payload_bytes + plen as u64;
        if stats.throughput_start_us.is_none() {
            stats.throughput_start_us = Some(now);
        }
        self.in_flight = Some(InFlight { sequence, sent_at_us: now });
    }

    /// Take in bytes read from the socket at `now` and act on every complete
    /// frame they finish: a valid frame refreshes liveness, the ACK of the
    /// request in flight resolves it and records its RTT, an ERROR message or
    /// an invalid frame counts as an error.
    pub fn on_bytes(&mut self, stats: &mut Stats, data: &[u8], now: u64)
        requires
            old(self).in_flight is Some ==> old(stats).acked < usize::MAX,
            absorb_stream(
                progress_of(&*old(self), &*old(stats)),
                spec_push(old(self).reader@, data@),
                now,
                old(stats).throughput_start_us,
            ).0.errors <= usize::MAX,
        ensures
            ({
                let (q, rest) = absorb_stream(
                    progress_of(&*old(self), &*old(stats)),
                    spec_push(old(self).reader@, data@),
                    now,
                    old(stats).throughput_start_us,
                );
                &&& progress_of(&*final(self), &*final(stats)) == q
                &&& final(self).reader@ == rest
            }),
            final(self).last_hb_us == old(self).last_hb_us,
            final(stats).throughput_start_us == old(stats).throughput_start_us,
            final(stats).sent == old(stats).sent,
            final(stats).lost == old(stats).lost,
            final(stats).timeouts == old(stats).timeouts,
            final(stats).reconnects == old(stats).reconnects,
            final(stats).payload_bytes == old(stats).payload_bytes,
    {
        self.reader.push(data);
        let ghost t0 = stats.throughput_start_us;
        let ghost target = absorb_stream(
            progress_of(&*old(self), &*old(stats)),
            spec_push(old(self).reader@, data@),
            now,
            t0,
        );
        proof {
            lemma_absorb_monotone(progress_of(&*self, &*stats), self.reader@, now, t0);
        }
        loop
            invariant_except_break
                absorb_stream(progress_of(&*self, &*stats), self.reader@, now, t0) == target,
                target.0.errors <= usize::MAX,
                self.in_flight is Some ==> stats.acked == old(stats).acked,
                self.in_flight is Some ==> old(self).in_flight is Some,
                old(self).in_flight is Some ==> old(stats).acked < usize::MAX,
                stats.throughput_start_us == t0,
                self.last_hb_us == old(self).last_hb_us,
                stats.sent == old(stats).sent,
                stats.lost == old(stats).lost,
                stats.timeouts == old(stats).timeouts,
                stats.reconnects == old(stats).reconnects,
                stats.payload_bytes == old(stats).payload_bytes,
            ensures
                progress_of(&*self, &*stats) == target.0,
                self.reader@ == target.1,
                stats.throughput_start_us == t0,
                self.last_hb_us == old(self).last_hb_us,
                stats.sent == old(stats).sent,
                stats.lost == old(stats).lost,
                stats.timeouts == old(stats).timeouts,
                stats.reconnects == old(stats).reconnects,
                stats.payload_bytes == old(stats).payload_bytes,
            decreases self.reader@.len(),
        {
            let ghost before = self.reader@;
            let ghost p = progress_of(&*self, &*stats);
            proof {
                lemma_next_frame_shrinks(before);
                lemma_absorb_monotone(p, before, now, t0);
            }
            match self.reader.next_frame() {
                None => {
                    break;
                },
                Some(frame) => {
                    let ghost p2 = absorb_frame(p, frame@, now, t0);
                    proof {
                        lemma_absorb_monotone(p2, self.reader@, now, t0);
                    }
                    match decode(frame.as_slice(), frame.len()) {
                        Ok(msg) => {
                            self.last_rx_us = now;
                            if msg.msg_type == MSG_CONTROL_ACK {
                                match self.in_flight {
                                    Some(inf) => {
                                        if inf.sequence == msg.sequence {
                                            stats.acked = stats.acked + 1;
                                            stats.rtts_us.push(elapsed_us(now, inf.sent_at_us));
                                            match stats.throughput_start_us {
                                                Some(t) => {
                                                    stats.throughput_us = elapsed_us(now, t);
                                                },
                                                None => {},
                                            }
                                            self.in_flight = None;
                                        }
                                    },
                                    None => {},
                                }
                            } else if msg.msg_type == MSG_ERROR {
                                stats.errors = stats.errors + 1;
                            }
                        },
                        Err(_) => {
                            stats.errors = stats.errors + 1;
                        },
                    }
                    assert(progress_of(&*self, &*stats) == p2);
                },
            }
        }
    }

    /// The session is dead: no valid frame for `timeout_ms`.
    pub fn timed_out(&self, cfg: &Config, now: u64) -> (dead: bool)
        ensures
            dead == (elapsed(now, self.last_rx_us) >= cfg.timeout_ms * 1000),
    {
        elapsed_us(now, self.last_rx_us) as u128 >= cfg.timeout_ms as u128 * 1000
    }

    /// After a read: end the session when it timed out (the request in flight
    /// is lost), or when every request is resolved or the run is out of time.
    pub fn settle(&self, cfg: &Config, stats: &mut Stats, now: u64, run_elapsed_us: u64) -> (o:
        Option<Outcome>)
        requires
            elapsed(now, self.last_rx_us) >= cfg.timeout_ms * 1000 ==> old(stats).timeouts
                < usize::MAX,
            elapsed(now, self.last_rx_us) >= cfg.timeout_ms * 1000 && self.in_flight is Some
                ==> old(stats).lost < usize::MAX,
        ensures
            elapsed(now, self.last_rx_us) >= cfg.timeout_ms * 1000 ==> {
                &&& o == Some(Outcome::Broken)
                &&& final(stats).timeouts == old(stats).timeouts + 1
                &&& final(stats).lost == old(stats).lost + (if self.in_flight is Some {
                    1int
                } else {
                    0int
                })
            },
            elapsed(now, self.last_rx_us) < cfg.timeout_ms * 1000 ==> {
                &&& *final(stats) == *old(stats)
                &&& o == if spec_all_resolved(&*old(stats), cfg.requests) || match cfg.duration_ms {
                    Some(d) => run_elapsed_us >= d * 1000,
                    None => false,
                } {
                    Some(Outcome::Done)
                } else {
                    None
                }
            },
            final(stats).sent == old(stats).sent,
            final(stats).acked == old(stats).acked,
            final(stats).errors == old(stats).errors,
            final(stats).reconnects == old(stats).reconnects,
            final(stats).rtts_us@ == old(stats).rtts_us@,
            final(stats).payload_bytes == old(stats).payload_bytes,
            final(stats).throughput_us == old(stats).throughput_us,
            final(stats).throughput_start_us == old(stats).throughput_start_us,
    {
        if self.timed_out(cfg, now) {
            return Some(mark_broken(stats, self.in_flight.is_some(), true));
        }
        if all_resolved(cfg, stats) || out_of_time(cfg, run_elapsed_us) {
            Some(Outcome::Done)
        } else {
            None
        }
    }
}

/// The payload of a CONTROL request: `plen` fill bytes.
pub fn request_payload(plen: usize) -> (p: Vec<u8>)
    ensures
        p@ == Seq::new(plen as nat, |i: int| REQUEST_FILL),
{
    let mut p: Vec<u8> = Vec::new();
    let mut i: usize = 0;
    while i < plen
        invariant
            i <= plen,
            p@ == Seq::new(i as nat, |k: int| REQUEST_FILL),
        decreases plen - i,
    {
        p.push(REQUEST_FILL);
        i = i + 1;
        assert(p@ =~= Seq::new(i as nat, |k: int| REQUEST_FILL));
    }
    p
}

/// Whether the complete frame `f` is the CONTROL_ACK of request `my_seq`.
pub open spec fn acks(f: Seq<u8>, my_seq: u32) -> bool {
    match spec_decode(f, f.len() as int) {
        Ok(m) => m.msg_type == MSG_CONTROL_ACK && m.sequence == my_seq,
        Err(_) => false,
    }
}

/// Frames taken in order from the front of `buf` until one acknowledges
/// `my_seq`: whether one did, and the bytes that remain.
pub open spec fn spec_find_ack(buf: Seq<u8>, my_seq: u32) -> (bool, Seq<u8>)
    decreases buf.len(),
{
    match spec_next_frame(buf).0 {
        Some(f) => if acks(f, my_seq) {
            (true, spec_next_frame(buf).1)
        } else if spec_next_frame(buf).1.len() < buf.len() {
            spec_find_ack(spec_next_frame(buf).1, my_seq)
        } else {
            (false, buf)
        },
        None => (false, spec_next_frame(buf).1),
    }
}

/// The payload of the request that opens a session: "command=START".
pub open spec fn spec_start_command() -> Seq<u8> {
    seq![99u8, 111u8, 109u8, 109u8, 97u8, 110u8, 100u8, 61u8, 83u8, 84u8, 65u8, 82u8, 84u8]
}

/// The CONTROL(START) request that opens a session, stamped `timestamp_us`:
/// its sequence number is taken and returned with the frame.
pub fn start_request(seq: &mut u32, timestamp_us: u64) -> (r: (u32, Vec<u8>))
    ensures
        r.0 == *old(seq),
        *final(seq) == old(seq).wrapping_add(1),
        r.1@ == spec_encode(
            message_view(MSG_CONTROL, 0, *old(seq), timestamp_us, 0, spec_start_command()),
        ),
{
    let cmd: [u8; 13] = [99u8, 111u8, 109u8, 109u8, 97u8, 110u8, 100u8, 61u8, 83u8, 84u8, 65u8, 82u8, 84u8];
    let command = cmd.as_slice();
    assert(command@ =~= spec_start_command());
    let my_seq = *seq;
    *seq = seq.wrapping_add(1);
    (my_seq, encode(MSG_CONTROL, 0, my_seq, timestamp_us, 0, command))
}

/// The HEARTBEAT frame with sequence number `sequence`, stamped `timestamp_us`.
pub fn heartbeat_frame(sequence: u32, timestamp_us: u64) -> (f: Vec<u8>)
    ensures
        f@ == spec_encode(
            message_view(MSG_HEARTBEAT, 0, sequence, timestamp_us, 0, Seq::<u8>::empty()),
        ),
{
    let none: Vec<u8> = Vec::new();
    encode(MSG_HEARTBEAT, 0, sequence, timestamp_us, 0, none.as_slice())
}

/// The CONTROL request `sequence` with `plen` fill bytes of payload, stamped
/// `timestamp_us`.
pub fn request_frame(sequence: u32, plen: usize, timestamp_us: u64) -> (f: Vec<u8>)
    requires
        plen + HEADER_LEN + CRC_LEN <= usize::MAX,
    ensures
        f@ == spec_encode(
            message_view(
                MSG_CONTROL,
                0,
                sequence,
                timestamp_us,
                0,
                Seq::new(plen as nat, |i: int| REQUEST_FILL),
            ),
        ),
{
    let payload = request_payload(plen);
    encode(MSG_CONTROL, 0, sequence, timestamp_us, 0, payload.as_slice())
}

/// During the handshake: take the complete frames buffered in `reader`, in
/// order, until one is the CONTROL_ACK of the START request `my_seq`.
pub fn handshake_acked(reader: &mut FrameReader, my_seq: u32) -> (acked: bool)
    ensures
        (acked, final(reader)@) == spec_find_ack(old(reader)@, my_seq),
{
    loop
        invariant_except_break
            spec_find_ack(reader@, my_seq) == spec_find_ack(old(reader)@, my_seq),
        ensures
            !spec_find_ack(old(reader)@, my_seq).0,
            reader@ == spec_find_ack(old(reader)@, my_seq).1,
        decreases reader@.len(),
    {
        let ghost before = reader@;
        proof {
            lemma_next_frame_shrinks(before);
        }
        match reader.next_frame() {
            None => {
                break;
            },
            Some(frame) => {
                match decode(frame.as_slice(), frame.len()) {
                    Ok(msg) => {
                        if msg.msg_type == MSG_CONTROL_ACK && msg.sequence == my_seq {
                            return true;
                        }
                    },
                    Err(_) => {},
                }
            },
        }
    }
    false
}

/// Whether the complete frame `f` is valid, of type `msg_type`, and (when a
/// sequence number is given) of that sequence number.
pub open spec fn frame_matches(f: Seq<u8>, msg_type: u8, sequence: Option<u32>) -> bool {
    match spec_decode(f, f.len() as int) {
        Ok(m) => m.msg_type == msg_type && match sequence {
            Some(q) => m.sequence == q,
            None => true,
        },
        Err(_) => false,
    }
}

/// Frames taken in order from the front of `buf` until one matches: its
/// error code and payload, if one did, and the bytes that remain.
pub open spec fn spec_next_match(buf: Seq<u8>, msg_type: u8, sequence: Option<u32>) -> (
    Option<(u32, Seq<u8>)>,
    Seq<u8>,
)
    decreases buf.len(),
{
    match spec_next_frame(buf).0 {
        Some(f) => if frame_matches(f, msg_type, sequence) {
            let m = spec_decode(f, f.len() as int)->Ok_0;
            (Some((m.error_code, m.payload)), spec_next_frame(buf).1)
        } else if spec_next_frame(buf).1.len() < buf.len() {
            spec_next_match(spec_next_frame(buf).1, msg_type, sequence)
        } else {
            (None, buf)
        },
        None => (None, spec_next_frame(buf).1),
    }
}

/// Take the complete frames buffered in `reader`, in order, until one is a
/// valid message of type `msg_type` (and sequence number `sequence`, when
/// given): its error code and a copy of its payload.
pub fn next_match(reader: &mut FrameReader, msg_type: u8, sequence: Option<u32>) -> (m: Option<
    (u32, Vec<u8>),
>)
    ensures
        match m {
            Some((code, payload)) => spec_next_match(old(reader)@, msg_type, sequence) == (
                Some((code, payload@)),
                final(reader)@,
            ),
            None => spec_next_match(old(reader)@, msg_type, sequence) == (
                None::<(u32, Seq<u8>)>,
                final(reader)@,
            ),
        },
{
    loop
        invariant_except_break
            spec_next_match(reader@, msg_type, sequence) == spec_next_match(
                old(reader)@,
                msg_type,
                sequence,
            ),
        ensures
            spec_next_match(old(reader)@, msg_type, sequence) == (
                None::<(u32, Seq<u8>)>,
                reader@,
            ),
        decreases reader@.len(),
    {
        let ghost before = reader@;
        proof {
            lemma_next_frame_shrinks(before);
        }
        match reader.next_frame() {
            None => {
                break;
            },
            Some(frame) => {
                match decode(frame.as_slice(), frame.len()) {
                    Ok(msg) => {
                        let wanted = match sequence {
                            Some(q) => msg.sequence == q,
                            None => true,
                        };
                        if msg.msg_type == msg_type && wanted {
                            return Some((msg.error_code, vstd::slice::slice_to_vec(msg.payload)));
                        }
                    },
                    Err(_) => {},
                }
            },
        }
    }
    None
}

// ---------------------------------------------------------------------------
// The accounting over a whole session
// ---------------------------------------------------------------------------

/// The counts that a session's steps change.
pub struct Tally {
    pub sent: int,
    pub acked: int,
    pub lost: int,
    pub samples: int,
    pub in_flight: bool,
}

/// The counts of `stats`, with or without a request in flight.
pub open spec fn tally_of(stats: &Stats, in_flight: bool) -> Tally {
    Tally {
        sent: stats.sent as int,
        acked: stats.acked as int,
        lost: stats.lost as int,
        samples: stats.rtts_us@.len() as int,
        in_flight,
    }
}

/// Every request sent is acknowledged, lost, or in flight, with one RTT
/// sample per acknowledgement.
pub open spec fn balanced(t: Tally) -> bool {
    &&& t.sent == t.acked + t.lost + (if t.in_flight { 1int } else { 0int })
    &&& t.samples == t.acked
}

/// One step within a session, as the session functions' contracts give it:
/// nothing counted (a heartbeat, frames that resolve nothing, a `settle`
/// that does not end the session); a request sent (`request_due` said one
/// is due, then `request_sent`); or the request in flight acknowledged
/// (`on_bytes`, by `lemma_absorb_is_step`).
pub open spec fn session_step(a: Tally, b: Tally, requests: int) -> bool {
    ||| b == a
    ||| (!a.in_flight && a.sent < requests && b == Tally { sent: a.sent + 1, in_flight: true, ..a })
    ||| (a.in_flight && b == Tally {
        acked: a.acked + 1,
        samples: a.samples + 1,
        in_flight: false,
        ..a
    })
}

/// The end of a broken session (`mark_broken`): the request in flight, if
/// any, is lost.
pub open spec fn session_break(a: Tally, b: Tally) -> bool {
    b == Tally { lost: a.lost + (if a.in_flight { 1int } else { 0int }), in_flight: false, ..a }
}

/// Taking in bytes is one session step: at most the request in flight is
/// acknowledged, with one RTT sample.
pub proof fn lemma_absorb_is_step(
    p: Progress,
    buf: Seq<u8>,
    now: u64,
    t0: Option<u64>,
    sent: int,
    lost: int,
    requests: int,
)
    ensures
        ({
            let q = absorb_stream(p, buf, now, t0).0;
            session_step(
                Tally {
                    sent,
                    acked: p.acked,
                    lost,
                    samples: p.rtts.len() as int,
                    in_flight: p.in_flight is Some,
                },
                Tally {
                    sent,
                    acked: q.acked,
                    lost,
                    samples: q.rtts.len() as int,
                    in_flight: q.in_flight is Some,
                },
                requests,
            )
        }),
    decreases buf.len(),
{
    if let Some(f) = spec_next_frame(buf).0 {
        let rest = spec_next_frame(buf).1;
        if rest.len() < buf.len() {
            let p2 = absorb_frame(p, f, now, t0);
            lemma_absorb_is_step(p2, rest, now, t0, sent, lost, requests);
            if p2.in_flight is None {
                lemma_absorb_keeps_none(p2, rest, now, t0);
            }
        }
    }
}

proof fn lemma_absorb_keeps_none(p: Progress, buf: Seq<u8>, now: u64, t0: Option<u64>)
    requires
        p.in_flight is None,
    ensures
        absorb_stream(p, buf, now, t0).0.in_flight is None,
        absorb_stream(p, buf, now, t0).0.acked == p.acked,
        absorb_stream(p, buf, now, t0).0.rtts == p.rtts,
    decreases buf.len(),
{
    if let Some(f) = spec_next_frame(buf).0 {
        let rest = spec_next_frame(buf).1;
        if rest.len() < buf.len() {
            lemma_absorb_keeps_none(absorb_frame(p, f, now, t0), rest, now, t0);
        }
    }
}

/// The cap on requests sent in a session that starts with `first`.
pub open spec fn send_cap(first: Tally, requests: int) -> int {
    if first.sent >= requests {
        first.sent
    } else {
        requests
    }
}

/// Requests sent and not yet resolved, beyond the one in flight.
pub open spec fn unresolved(t: Tally) -> int {
    t.sent - t.acked - t.lost - (if t.in_flight { 1int } else { 0int })
}

proof fn lemma_steps(trace: Seq<Tally>, requests: int)
    requires
        trace.len() >= 1,
        forall|k: int|
            0 <= k < trace.len() - 1 ==> session_step(#[trigger] trace[k], trace[k + 1], requests),
    ensures
        forall|k: int|
            0 <= k < trace.len() ==> unresolved(#[trigger] trace[k]) == unresolved(trace[0])
                && trace[k].samples - trace[k].acked == trace[0].samples - trace[0].acked
                && trace[k].sent <= send_cap(trace[0], requests) && trace[k].lost == trace[0].lost
                && trace[k].sent >= trace[0].sent,
    decreases trace.len(),
{
    let n = trace.len();
    if n > 1 {
        let init = trace.drop_last();
        assert forall|k: int| 0 <= k < init.len() - 1 implies session_step(
            #[trigger] init[k],
            init[k + 1],
            requests,
        ) by {
            assert(init[k] == trace[k] && init[k + 1] == trace[k + 1]);
        }
        lemma_steps(init, requests);
        let a = trace[n - 2];
        assert(init[n - 2] == a);
        assert(init[0] == trace[0]);
        assert(session_step(a, trace[n - 1], requests));
        assert forall|k: int| 0 <= k < n implies unresolved(#[trigger] trace[k]) == unresolved(
            trace[0],
        ) && trace[k].samples - trace[k].acked == trace[0].samples - trace[0].acked
            && trace[k].sent <= send_cap(trace[0], requests) && trace[k].lost == trace[0].lost
            && trace[k].sent >= trace[0].sent by {
            if k < n - 1 {
                assert(trace[k] == init[k]);
            }
        }
    }
}

/// Over a whole session, from counts with no more requests resolved than
/// sent, one RTT sample per acknowledgement and nothing in flight (as a new
/// `Session` starts): every state within it keeps acknowledged + lost + in
/// flight within the requests sent, and keeps one sample per
/// acknowledgement; no more requests are sent than the run asks for (beyond
/// those sent before); at most one request is lost; and a broken session
/// resolves every request it sent, as acknowledged or lost. From balanced
/// counts, every state stays balanced.
pub proof fn lemma_session_accounting(steps: Seq<Tally>, end: Tally, requests: int, broke: bool)
    requires
        steps.len() >= 1,
        steps[0].acked + steps[0].lost <= steps[0].sent,
        steps[0].samples == steps[0].acked,
        !steps[0].in_flight,
        forall|k: int|
            0 <= k < steps.len() - 1 ==> session_step(#[trigger] steps[k], steps[k + 1], requests),
        broke ==> session_break(steps.last(), end),
        !broke ==> end == steps.last(),
    ensures
        forall|k: int|
            0 <= k < steps.len() ==> #[trigger] steps[k].acked + steps[k].lost + (if steps[k].in_flight {
                1int
            } else {
                0int
            }) <= steps[k].sent && steps[k].samples == steps[k].acked,
        forall|k: int| 0 <= k < steps.len() ==> #[trigger] steps[k].sent <= send_cap(steps[0], requests),
        balanced(steps[0]) ==> forall|k: int| 0 <= k < steps.len() ==> balanced(#[trigger] steps[k]),
        end.acked + end.lost <= end.sent,
        end.samples == end.acked,
        end.sent <= send_cap(steps[0], requests),
        end.lost <= steps[0].lost + 1,
        broke ==> !end.in_flight && end.sent - steps[0].sent == (end.acked - steps[0].acked) + (
        end.lost - steps[0].lost),
{
    lemma_steps(steps, requests);
    let last = steps[steps.len() - 1];
    assert(unresolved(last) == unresolved(steps[0]));
    assert(last.sent <= send_cap(steps[0], requests));
    assert forall|k: int| 0 <= k < steps.len() implies #[trigger] steps[k].acked + steps[k].lost + (
    if steps[k].in_flight {
        1int
    } else {
        0int
    }) <= steps[k].sent && steps[k].samples == steps[k].acked by {
        assert(unresolved(steps[k]) == unresolved(steps[0]));
    }
}

// ---------------------------------------------------------------------------
// What incoming frames do, frame by frame
// ---------------------------------------------------------------------------

/// A complete frame that decodes to a message.
pub open spec fn frame_valid(f: Seq<u8>) -> bool {
    spec_decode(f, f.len() as int) is Ok
}

/// A complete frame that the client counts as an error: one that does not
/// decode, or an ERROR message.
pub open spec fn frame_is_error(f: Seq<u8>) -> bool {
    match spec_decode(f, f.len() as int) {
        Ok(m) => m.msg_type == MSG_ERROR,
        Err(_) => true,
    }
}

/// How many of the frames count as errors.
pub open spec fn error_count(fs: Seq<Seq<u8>>) -> int
    decreases fs.len(),
{
    if fs.len() == 0 {
        0
    } else {
        (if frame_is_error(fs[0]) { 1int } else { 0int }) + error_count(fs.drop_first())
    }
}

/// What the frames handed out of a buffer do, in terms of those frames
/// alone: the buffer left is the reader's; liveness is refreshed to `now`
/// exactly when at least one frame is a valid message, whatever its type
/// (a heartbeat echo included); each invalid frame and each ERROR message
/// counts one error; and the request in flight is acknowledged, with one
/// RTT sample, exactly when one of the frames is its CONTROL_ACK.
pub proof fn lemma_absorb_frames(p: Progress, buf: Seq<u8>, now: u64, t0: Option<u64>)
    ensures
        absorb_stream(p, buf, now, t0).1 == spec_drain(buf).1,
        (exists|i: int| 0 <= i < spec_drain(buf).0.len() && #[trigger] frame_valid(spec_drain(buf).0[i]))
            ==> absorb_stream(p, buf, now, t0).0.last_rx_us == now,
        (forall|i: int| 0 <= i < spec_drain(buf).0.len() ==> !#[trigger] frame_valid(spec_drain(buf).0[i]))
            ==> absorb_stream(p, buf, now, t0).0.last_rx_us == p.last_rx_us,
        absorb_stream(p, buf, now, t0).0.errors == p.errors + error_count(spec_drain(buf).0),
        p.in_flight is None ==> absorb_stream(p, buf, now, t0).0.in_flight is None
            && absorb_stream(p, buf, now, t0).0.acked == p.acked && absorb_stream(
            p,
            buf,
            now,
            t0,
        ).0.rtts == p.rtts,
        p.in_flight is Some && (exists|i: int| 0 <= i < spec_drain(buf).0.len() && #[trigger] acks(
            spec_drain(buf).0[i],
            p.in_flight->0.sequence,
        )) ==> {
            &&& absorb_stream(p, buf, now, t0).0.in_flight is None
            &&& absorb_stream(p, buf, now, t0).0.acked == p.acked + 1
            &&& absorb_stream(p, buf, now, t0).0.rtts == p.rtts.push(
                elapsed(now, p.in_flight->0.sent_at_us),
            )
        },
        p.in_flight is Some && (forall|i: int| 0 <= i < spec_drain(buf).0.len() ==> !#[trigger] acks(
            spec_drain(buf).0[i],
            p.in_flight->0.sequence,
        )) ==> {
            &&& absorb_stream(p, buf, now, t0).0.in_flight == p.in_flight
            &&& absorb_stream(p, buf, now, t0).0.acked == p.acked
            &&& absorb_stream(p, buf, now, t0).0.rtts == p.rtts
        },
    decreases buf.len(),
{
    let fs = spec_drain(buf).0;
    if let Some(f) = spec_next_frame(buf).0 {
        let rest = spec_next_frame(buf).1;
        if rest.len() < buf.len() {
            let p2 = absorb_frame(p, f, now, t0);
            lemma_absorb_frames(p2, rest, now, t0);
            let rs = spec_drain(rest).0;
            assert(fs == seq![f] + rs);
            assert(fs[0] == f);
            assert forall|j: int| 0 <= j < rs.len() implies fs[j + 1] == rs[j] by {}
            assert(fs.drop_first() =~= rs);
            if exists|i: int| 0 <= i < fs.len() && #[trigger] frame_valid(fs[i]) {
                let i = choose|i: int| 0 <= i < fs.len() && #[trigger] frame_valid(fs[i]);
                if i > 0 {
                    assert(frame_valid(rs[i - 1]));
                }
            }
            if forall|i: int| 0 <= i < fs.len() ==> !#[trigger] frame_valid(fs[i]) {
                assert(!frame_valid(fs[0]));
                assert forall|j: int| 0 <= j < rs.len() implies !#[trigger] frame_valid(rs[j]) by {
                    assert(!frame_valid(fs[j + 1]));
                }
            }
            if let Some(inf) = p.in_flight {
                if acks(f, inf.sequence) {
                    assert(p2.in_flight is None);
                    assert(acks(fs[0], inf.sequence));
                } else {
                    assert(p2.in_flight == p.in_flight);
                    if exists|i: int| 0 <= i < fs.len() && #[trigger] acks(fs[i], inf.sequence) {
                        let i = choose|i: int| 0 <= i < fs.len() && #[trigger] acks(fs[i], inf.sequence);
                        assert(i > 0);
                        assert(acks(rs[i - 1], inf.sequence));
                    } else {
                        assert forall|j: int| 0 <= j < rs.len() implies !#[trigger] acks(
                            rs[j],
                            inf.sequence,
                        ) by {
                            assert(!acks(fs[j + 1], inf.sequence));
                        }
                    }
                }
            }
        } else {
            assert(false);
        }
    } else {
        assert(fs =~= Seq::<Seq<u8>>::empty());
    }
}

} // verus!
