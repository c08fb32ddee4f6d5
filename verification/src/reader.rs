//! Reassembly of AXNET/1 frames from a TCP byte stream.
use vstd::prelude::*;
use crate::frame::{
    announced_len, be32_at, lemma_encoded_length, spec_encode, spec_frame_len, MessageView, CRC_LEN,
    FRAME_MAX, HEADER_LEN, MAX_PAYLOAD,
};

verus! {

/// A buffered stream longer than this cannot be producing valid frames.
pub const STREAM_SLACK: usize = 4096;

/// The longest buffer a reader keeps after a push.
pub open spec fn buffer_bound() -> int {
    FRAME_MAX + STREAM_SLACK
}

/// Accumulates a TCP byte stream into complete AXNET/1 frames.
pub struct FrameReader {
    buf: Vec<u8>,
}

impl View for FrameReader {
    type V = Seq<u8>;

    /// The bytes received and not yet handed out as a frame.
    closed spec fn view(&self) -> Seq<u8> {
        self.buf@
    }
}

/// The buffer after `data` arrives: the bytes appended, or nothing at all
/// when that would exceed the bound (the stream is corrupt).
pub open spec fn spec_push(buf: Seq<u8>, data: Seq<u8>) -> Seq<u8> {
    if buf.len() + data.len() > buffer_bound() {
        Seq::empty()
    } else {
        buf + data
    }
}

/// The next complete frame held at the front of `buf`, if any, and the
/// buffer that remains.
pub open spec fn spec_next_frame(buf: Seq<u8>) -> (Option<Seq<u8>>, Seq<u8>) {
    if buf.len() < HEADER_LEN {
        (None, buf)
    } else if announced_len(buf) > MAX_PAYLOAD {
        (None, Seq::empty())
    } else if buf.len() < spec_frame_len(announced_len(buf)) {
        (None, buf)
    } else {
        let flen = spec_frame_len(announced_len(buf));
        (Some(buf.take(flen)), buf.skip(flen))
    }
}

impl Default for FrameReader {
    fn default() -> (r: Self)
        ensures
            r@ == Seq::<u8>::empty(),
    {
        FrameReader { buf: Vec::new() }
    }
}

impl FrameReader {
    /// A reader with nothing buffered.
    pub fn new() -> (r: Self)
        ensures
            r@ == Seq::<u8>::empty(),
    {
        FrameReader { buf: Vec::new() }
    }

    /// Append bytes read from the stream. A stream that cannot produce a
    /// valid header is corrupt: when the buffer would grow past
    /// `FRAME_MAX + 4096` bytes it is dropped instead.
    pub fn push(&mut self, data: &[u8])
        ensures
            final(self)@ == spec_push(old(self)@, data@),
            final(self)@.len() <= buffer_bound(),
    {
        self.buf.extend_from_slice(data);
        assert(self.buf@ =~= old(self)@ + data@);
        if self.buf.len() > FRAME_MAX + STREAM_SLACK {
            self.buf.clear();
        }
    }

    /// Extract the next complete frame, if any.
    pub fn next_frame(&mut self) -> (frame: Option<Vec<u8>>)
        ensures
            ({
                let (f, rest) = spec_next_frame(old(self)@);
                &&& final(self)@ == rest
                &&& match frame {
                    Some(v) => f == Some(v@),
                    None => f is None,
                }
            }),
    {
        let len = self.buf.len();
        if len < HEADER_LEN {
            return None;
        }
        let b = self.buf.as_slice();
        let plen = (((b[6] as u32) << 24) | ((b[7] as u32) << 16) | ((b[8] as u32) << 8) | (
        b[9] as u32)) as usize;
        assert(plen == be32_at(self.buf@, 6));
        if plen > MAX_PAYLOAD {
            self.buf.clear();
            return None;
        }
        let flen = HEADER_LEN + plen + CRC_LEN;
        if len < flen {
            return None;
        }
        let mut frame = self.buf.split_off(flen);
        std::mem::swap(&mut self.buf, &mut frame);
        Some(frame)
    }
}

/// Nothing is lost or reordered: a frame handed out is the front of the
/// buffer, of the length its header announces, and the rest stays buffered.
pub proof fn lemma_next_frame_splits(buf: Seq<u8>)
    ensures
        match spec_next_frame(buf).0 {
            Some(f) => {
                &&& f + spec_next_frame(buf).1 == buf
                &&& f.len() == spec_frame_len(announced_len(f))
                &&& announced_len(f) <= MAX_PAYLOAD
            },
            None => spec_next_frame(buf).1 == buf || spec_next_frame(buf).1.len() == 0,
        },
{
    if let Some(f) = spec_next_frame(buf).0 {
        assert(f + spec_next_frame(buf).1 =~= buf);
        assert(be32_at(f, 6) == be32_at(buf, 6));
    }
}

/// A reader that holds the frame of a message, followed by any further bytes,
/// hands out exactly that frame and keeps the further bytes.
pub proof fn lemma_next_frame_of_encoded(m: MessageView, rest: Seq<u8>)
    requires
        m.payload.len() <= MAX_PAYLOAD,
    ensures
        spec_next_frame(spec_encode(m) + rest) == (Some(spec_encode(m)), rest),
{
    lemma_encoded_length(m, rest);
    let f = spec_encode(m) + rest;
    assert(f.len() >= HEADER_LEN);
    assert(f.take(spec_encode(m).len() as int) =~= spec_encode(m));
    assert(f.skip(spec_encode(m).len() as int) =~= rest);
}

/// A frame that has arrived only in part is not handed out, and the part is
/// kept: pieces of a frame pushed one after another make up the frame.
pub proof fn lemma_partial_frame_waits(m: MessageView, k: int)
    requires
        m.payload.len() <= MAX_PAYLOAD,
        0 <= k < spec_encode(m).len(),
    ensures
        spec_next_frame(spec_encode(m).take(k)) == (None::<Seq<u8>>, spec_encode(m).take(k)),
{
    lemma_encoded_length(m, Seq::empty());
    let e = spec_encode(m);
    assert(e + Seq::<u8>::empty() =~= e);
    if k >= HEADER_LEN {
        assert(be32_at(e.take(k), 6) == be32_at(e + Seq::<u8>::empty(), 6));
    }
}

// ---------------------------------------------------------------------------
// A stream of frames, pushed in pieces
// ---------------------------------------------------------------------------

/// The frames of a sequence of messages, one after another.
pub open spec fn encode_all(ms: Seq<MessageView>) -> Seq<u8>
    decreases ms.len(),
{
    if ms.len() == 0 {
        Seq::empty()
    } else {
        spec_encode(ms[0]) + encode_all(ms.drop_first())
    }
}

/// Pieces of a stream joined back together.
pub open spec fn join(pieces: Seq<Seq<u8>>) -> Seq<u8>
    decreases pieces.len(),
{
    if pieces.len() == 0 {
        Seq::empty()
    } else {
        pieces[0] + join(pieces.drop_first())
    }
}

/// Calling `next_frame` until it gives `None`: the frames handed out, in
/// order, and the buffer left.
pub open spec fn spec_drain(buf: Seq<u8>) -> (Seq<Seq<u8>>, Seq<u8>)
    decreases buf.len(),
{
    match spec_next_frame(buf).0 {
        Some(f) => if spec_next_frame(buf).1.len() < buf.len() {
            (seq![f] + spec_drain(spec_next_frame(buf).1).0, spec_drain(spec_next_frame(buf).1).1)
        } else {
            (Seq::empty(), buf)
        },
        None => (Seq::empty(), spec_next_frame(buf).1),
    }
}

/// Pushing each chunk in turn, draining the reader after each push: all the
/// frames handed out, in order, and the buffer left at the end.
pub open spec fn spec_feed(buf: Seq<u8>, chunks: Seq<Seq<u8>>) -> (Seq<Seq<u8>>, Seq<u8>)
    decreases chunks.len(),
{
    if chunks.len() == 0 {
        (Seq::empty(), buf)
    } else {
        let d = spec_drain(spec_push(buf, chunks[0]));
        let rest = spec_feed(d.1, chunks.drop_first());
        (d.0 + rest.0, rest.1)
    }
}

/// No push of the feed reaches the bound at which the buffer is dropped.
pub open spec fn feed_keeps_all(buf: Seq<u8>, chunks: Seq<Seq<u8>>) -> bool
    decreases chunks.len(),
{
    if chunks.len() == 0 {
        true
    } else {
        &&& buf.len() + chunks[0].len() <= buffer_bound()
        &&& feed_keeps_all(spec_drain(spec_push(buf, chunks[0])).1, chunks.drop_first())
    }
}

pub open spec fn payloads_fit(ms: Seq<MessageView>) -> bool {
    forall|i: int| 0 <= i < ms.len() ==> #[trigger] ms[i].payload.len() <= MAX_PAYLOAD
}

/// The frame images of a sequence of messages.
pub open spec fn encode_each(ms: Seq<MessageView>) -> Seq<Seq<u8>> {
    ms.map_values(|m: MessageView| spec_encode(m))
}

proof fn lemma_encode_len(m: MessageView)
    requires
        m.payload.len() <= MAX_PAYLOAD,
    ensures
        HEADER_LEN + CRC_LEN <= spec_encode(m).len() <= FRAME_MAX,
{
    lemma_encoded_length(m, Seq::empty());
}

proof fn lemma_encode_all_split(ms: Seq<MessageView>, j: int)
    requires
        0 <= j <= ms.len(),
    ensures
        encode_all(ms) == encode_all(ms.take(j)) + encode_all(ms.skip(j)),
    decreases j,
{
    if j == 0 {
        assert(ms.take(0) =~= Seq::<MessageView>::empty());
        assert(ms.skip(0) =~= ms);
        assert(encode_all(ms.take(0)) + encode_all(ms) =~= encode_all(ms));
    } else {
        let r = ms.drop_first();
        lemma_encode_all_split(r, j - 1);
        assert(ms.take(j).drop_first() =~= r.take(j - 1));
        assert(ms.take(j)[0] == ms[0]);
        assert(r.skip(j - 1) =~= ms.skip(j));
        assert(encode_all(ms) =~= encode_all(ms.take(j)) + encode_all(ms.skip(j)));
    }
}

proof fn lemma_encode_all_len(ms: Seq<MessageView>)
    requires
        payloads_fit(ms),
        ms.len() > 0,
    ensures
        encode_all(ms).len() >= spec_encode(ms[0]).len(),
{
    lemma_encode_len(ms[0]);
}

/// Draining a buffer holding whole frames followed by part of one frame
/// hands out the whole frames and keeps the part.
proof fn lemma_drain_frames(ms: Seq<MessageView>, p: Seq<u8>, m: MessageView)
    requires
        payloads_fit(ms),
        p.len() == 0 || (m.payload.len() <= MAX_PAYLOAD && p.len() < spec_encode(m).len() && p
            == spec_encode(m).take(p.len() as int)),
    ensures
        spec_drain(encode_all(ms) + p) == (encode_each(ms), p),
    decreases ms.len(),
{
    if ms.len() == 0 {
        assert(encode_all(ms) + p =~= p);
        assert(encode_each(ms) =~= Seq::<Seq<u8>>::empty());
        if p.len() > 0 {
            lemma_partial_frame_waits(m, p.len() as int);
        }
    } else {
        let r = ms.drop_first();
        let e0 = spec_encode(ms[0]);
        let rest = encode_all(r) + p;
        assert(encode_all(ms) + p =~= e0 + rest);
        lemma_next_frame_of_encoded(ms[0], rest);
        lemma_encode_len(ms[0]);
        assert(payloads_fit(r)) by {
            assert forall|i: int| 0 <= i < r.len() implies #[trigger] r[i].payload.len()
                <= MAX_PAYLOAD by {
                assert(r[i] == ms[i + 1]);
            }
        }
        lemma_drain_frames(r, p, m);
        assert(encode_each(ms) =~= seq![e0] + encode_each(r));
    }
}

/// A prefix of a stream of frames is some whole frames followed by part of
/// the next one (or by nothing, once every frame is whole). Returns how many
/// frames are whole.
proof fn lemma_prefix_split(ms: Seq<MessageView>, b: Seq<u8>) -> (j: int)
    requires
        payloads_fit(ms),
        b.len() <= encode_all(ms).len(),
        b == encode_all(ms).take(b.len() as int),
    ensures
        0 <= j <= ms.len(),
        encode_all(ms.take(j)).len() <= b.len(),
        b == encode_all(ms.take(j)) + b.skip(encode_all(ms.take(j)).len() as int),
        ({
            let q = b.skip(encode_all(ms.take(j)).len() as int);
            ||| j == ms.len() && q.len() == 0
            ||| j < ms.len() && q.len() < spec_encode(ms[j]).len() && q == spec_encode(ms[j]).take(
                q.len() as int,
            )
        }),
    decreases ms.len(),
{
    assert(ms.take(0) =~= Seq::<MessageView>::empty());
    if ms.len() == 0 {
        assert(b =~= Seq::<u8>::empty());
        assert(b.skip(0) =~= b);
        0
    } else {
        let e0 = spec_encode(ms[0]);
        let r = ms.drop_first();
        assert(encode_all(ms) == e0 + encode_all(r));
        if b.len() < e0.len() {
            assert(b.skip(0) =~= b);
            assert(b =~= e0.take(b.len() as int));
            0
        } else {
            let b2 = b.skip(e0.len() as int);
            assert(b.take(e0.len() as int) =~= e0);
            assert(b =~= e0 + b2);
            assert(b2 =~= encode_all(r).take(b2.len() as int));
            assert(payloads_fit(r)) by {
                assert forall|i: int| 0 <= i < r.len() implies #[trigger] r[i].payload.len()
                    <= MAX_PAYLOAD by {
                    assert(r[i] == ms[i + 1]);
                }
            }
            let j2 = lemma_prefix_split(r, b2);
            let j = j2 + 1;
            assert(ms.take(j).drop_first() =~= r.take(j2));
            assert(ms.take(j)[0] == ms[0]);
            assert(encode_all(ms.take(j)) == e0 + encode_all(r.take(j2)));
            let q2 = b2.skip(encode_all(r.take(j2)).len() as int);
            assert(b2 =~= encode_all(r.take(j2)) + q2);
            assert(b.skip(encode_all(ms.take(j)).len() as int) =~= q2);
            assert(b =~= encode_all(ms.take(j)) + q2);
            if j2 < r.len() {
                assert(ms[j] == r[j2]);
            }
            j
        }
    }
}

proof fn lemma_feed(ms: Seq<MessageView>, chunks: Seq<Seq<u8>>, p: Seq<u8>)
    requires
        payloads_fit(ms),
        forall|i: int| 0 <= i < chunks.len() ==> #[trigger] chunks[i].len() <= STREAM_SLACK,
        p + join(chunks) == encode_all(ms),
        p.len() == 0 || (ms.len() > 0 && p.len() < spec_encode(ms[0]).len() && p == spec_encode(
            ms[0],
        ).take(p.len() as int)),
    ensures
        spec_feed(p, chunks) == (encode_each(ms), Seq::<u8>::empty()),
        feed_keeps_all(p, chunks),
    decreases chunks.len(),
{
    if ms.len() > 0 {
        lemma_encode_len(ms[0]);
        lemma_encode_all_len(ms);
    }
    if chunks.len() == 0 {
        assert(p + join(chunks) =~= p);
        assert(ms.len() == 0);
        assert(encode_each(ms) =~= Seq::<Seq<u8>>::empty());
    } else {
        let c = chunks[0];
        let rc = chunks.drop_first();
        assert(join(chunks) == c + join(rc));
        assert(p.len() + c.len() <= buffer_bound());
        let b = p + c;
        assert(spec_push(p, c) == b);
        assert(b + join(rc) =~= encode_all(ms));
        assert(b =~= encode_all(ms).take(b.len() as int));
        let j = lemma_prefix_split(ms, b);
        let pre = encode_all(ms.take(j));
        let q = b.skip(pre.len() as int);
        assert(payloads_fit(ms.take(j)));
        assert(payloads_fit(ms.skip(j))) by {
            assert forall|i: int| 0 <= i < ms.skip(j).len() implies #[trigger] ms.skip(
                j,
            )[i].payload.len() <= MAX_PAYLOAD by {
                assert(ms.skip(j)[i] == ms[i + j]);
            }
        }
        if j < ms.len() {
            lemma_drain_frames(ms.take(j), q, ms[j]);
            assert(ms.skip(j)[0] == ms[j]);
        } else {
            lemma_drain_frames(ms.take(j), q, ms[0]);
        }
        lemma_encode_all_split(ms, j);
        assert(q + join(rc) =~= encode_all(ms.skip(j))) by {
            assert(pre + (q + join(rc)) =~= pre + encode_all(ms.skip(j)));
            assert((pre + (q + join(rc))).skip(pre.len() as int) =~= q + join(rc));
            assert((pre + encode_all(ms.skip(j))).skip(pre.len() as int) =~= encode_all(
                ms.skip(j),
            ));
        }
        assert forall|i: int| 0 <= i < rc.len() implies #[trigger] rc[i].len() <= STREAM_SLACK by {
            assert(rc[i] == chunks[i + 1]);
        }
        lemma_feed(ms.skip(j), rc, q);
        assert(encode_each(ms.take(j)) + encode_each(ms.skip(j)) =~= encode_each(ms));
    }
}

/// Frames come back whole and in order however the stream is split: a
/// stream of valid frames pushed into a new reader in chunks of at most
/// `STREAM_SLACK` bytes, with the reader drained after every push, hands out
/// exactly those frames, in order, never reaches the bound at which it drops
/// its buffer, and ends empty.
pub proof fn lemma_stream_reassembled(frames: Seq<MessageView>, chunks: Seq<Seq<u8>>)
    requires
        payloads_fit(frames),
        forall|i: int| 0 <= i < chunks.len() ==> #[trigger] chunks[i].len() <= STREAM_SLACK,
        join(chunks) == encode_all(frames),
    ensures
        spec_feed(Seq::empty(), chunks) == (encode_each(frames), Seq::<u8>::empty()),
        feed_keeps_all(Seq::empty(), chunks),
{
    assert(Seq::<u8>::empty() + join(chunks) =~= join(chunks));
    lemma_feed(frames, chunks, Seq::empty());
}

} // verus!
