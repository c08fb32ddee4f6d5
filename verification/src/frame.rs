//! AXNET/1 wire format.
//!
//! Frame layout, every multi-byte field big-endian:
//!
//! ```text
//!   Magic         u16   0xA501
//!   Version       u8    1
//!   MsgType       u8    0x01..=0x05
//!   Flags         u16   reserved (0)
//!   PayloadLen    u32   length of Payload
//!   Sequence      u32   application sequence number
//!   TimestampUs   u64   sender timestamp in microseconds
//!   ErrorCode     u32   0 on success
//!   Payload       u8[PayloadLen]
//!   CRC32         u32   IEEE CRC-32 of everything above this field
//! ```
use vstd::prelude::*;
use vstd::slice::slice_subrange;
use crate::crc::{crc32, lemma_crc32_detects_single_byte_error, spec_crc32};

verus! {

pub const MAGIC: u16 = 0xA501;
pub const VERSION: u8 = 1;

pub const HEADER_LEN: usize = 26;
pub const CRC_LEN: usize = 4;
pub const MAX_PAYLOAD: usize = 4096;
pub const FRAME_MAX: usize = HEADER_LEN + MAX_PAYLOAD + CRC_LEN;

pub const MSG_CONTROL: u8 = 0x01;
pub const MSG_CONTROL_ACK: u8 = 0x02;
pub const MSG_STATUS: u8 = 0x03;
pub const MSG_ERROR: u8 = 0x04;
pub const MSG_HEARTBEAT: u8 = 0x05;

pub const ERR_OK: u32 = 0x0000;
pub const ERR_UNKNOWN_MSG: u32 = 0x0001;
pub const ERR_BAD_MAGIC: u32 = 0x0002;
pub const ERR_BAD_VERSION: u32 = 0x0003;
pub const ERR_BAD_CRC: u32 = 0x0004;
pub const ERR_PAYLOAD_TOO_LONG: u32 = 0x0005;
pub const ERR_INTERNAL: u32 = 0x1002;

/// A decoded AXNET/1 message. `payload` borrows the frame buffer.
#[derive(Debug, Clone, Copy, PartialEq, Eq)]
pub struct Message<'a> {
    pub msg_type: u8,
    pub flags: u16,
    pub sequence: u32,
    pub timestamp_us: u64,
    pub error_code: u32,
    pub payload: &'a [u8],
}

/// Why a frame was refused.
#[derive(Debug, Clone, Copy, PartialEq, Eq, Structural)]
pub enum Error {
    TooShort,
    BadMagic,
    BadVersion,
    BadCrc,
    PayloadTooLong,
}

/// The fields of a message, its payload as a sequence of bytes.
pub struct MessageView {
    pub msg_type: u8,
    pub flags: u16,
    pub sequence: u32,
    pub timestamp_us: u64,
    pub error_code: u32,
    pub payload: Seq<u8>,
}

impl<'a> View for Message<'a> {
    type V = MessageView;

    open spec fn view(&self) -> MessageView {
        MessageView {
            msg_type: self.msg_type,
            flags: self.flags,
            sequence: self.sequence,
            timestamp_us: self.timestamp_us,
            error_code: self.error_code,
            payload: self.payload@,
        }
    }
}

pub open spec fn message_view(
    msg_type: u8,
    flags: u16,
    sequence: u32,
    timestamp_us: u64,
    error_code: u32,
    payload: Seq<u8>,
) -> MessageView {
    MessageView { msg_type, flags, sequence, timestamp_us, error_code, payload }
}

// ---------------------------------------------------------------------------
// Big-endian fields
// ---------------------------------------------------------------------------

pub open spec fn be16_bytes(v: u16) -> Seq<u8> {
    seq![(v >> 8) as u8, v as u8]
}

pub open spec fn be32_bytes(v: u32) -> Seq<u8> {
    seq![(v >> 24) as u8, (v >> 16) as u8, (v >> 8) as u8, v as u8]
}

pub open spec fn be64_bytes(v: u64) -> Seq<u8> {
    seq![
        (v >> 56) as u8,
        (v >> 48) as u8,
        (v >> 40) as u8,
        (v >> 32) as u8,
        (v >> 24) as u8,
        (v >> 16) as u8,
        (v >> 8) as u8,
        v as u8,
    ]
}

/// The big-endian `u16` stored at `s[i..i + 2]`.
pub open spec fn be16_at(s: Seq<u8>, i: int) -> u16 {
    ((s[i] as u16) << 8) | (s[i + 1] as u16)
}

/// The big-endian `u32` stored at `s[i..i + 4]`.
pub open spec fn be32_at(s: Seq<u8>, i: int) -> u32 {
    ((s[i] as u32) << 24) | ((s[i + 1] as u32) << 16) | ((s[i + 2] as u32) << 8) | (s[i + 3] as u32)
}

/// The big-endian `u64` stored at `s[i..i + 8]`.
pub open spec fn be64_at(s: Seq<u8>, i: int) -> u64 {
    ((s[i] as u64) << 56) | ((s[i + 1] as u64) << 48) | ((s[i + 2] as u64) << 40) | ((s[i + 3] as u64)
        << 32) | ((s[i + 4] as u64) << 24) | ((s[i + 5] as u64) << 16) | ((s[i + 6] as u64) << 8)
        | (s[i + 7] as u64)
}

/// `s` with `b` written over it from index `i` on.
pub open spec fn splice(s: Seq<u8>, i: int, b: Seq<u8>) -> Seq<u8> {
    s.take(i) + b + s.skip(i + b.len())
}

// ---------------------------------------------------------------------------
// The frame
// ---------------------------------------------------------------------------

/// Total frame length for a message with `payload_len` payload bytes.
pub open spec fn spec_frame_len(payload_len: int) -> int {
    HEADER_LEN + payload_len + CRC_LEN
}

/// The 26 header bytes of a message.
pub open spec fn spec_header(m: MessageView) -> Seq<u8> {
    be16_bytes(MAGIC) + seq![VERSION, m.msg_type] + be16_bytes(m.flags) + be32_bytes(
        m.payload.len() as u32,
    ) + be32_bytes(m.sequence) + be64_bytes(m.timestamp_us) + be32_bytes(m.error_code)
}

/// The bytes that the CRC covers: header, then payload.
pub open spec fn spec_body(m: MessageView) -> Seq<u8> {
    spec_header(m) + m.payload
}

/// The complete frame of a message.
pub open spec fn spec_encode(m: MessageView) -> Seq<u8> {
    spec_body(m) + be32_bytes(spec_crc32(spec_body(m)))
}

/// The payload length announced by the header of `frame`.
pub open spec fn announced_len(frame: Seq<u8>) -> int {
    be32_at(frame, 6) as int
}

/// What decoding the first `flen` bytes of `frame` gives.
pub open spec fn spec_decode(frame: Seq<u8>, flen: int) -> Result<MessageView, Error> {
    if flen < HEADER_LEN + CRC_LEN {
        Err(Error::TooShort)
    } else if announced_len(frame) > MAX_PAYLOAD {
        Err(Error::PayloadTooLong)
    } else if flen != spec_frame_len(announced_len(frame)) {
        Err(Error::BadCrc)
    } else if be16_at(frame, 0) != MAGIC {
        Err(Error::BadMagic)
    } else if frame[2] != VERSION {
        Err(Error::BadVersion)
    } else if spec_crc32(frame.take(HEADER_LEN + announced_len(frame))) != be32_at(
        frame,
        HEADER_LEN + announced_len(frame),
    ) {
        Err(Error::BadCrc)
    } else {
        Ok(
            MessageView {
                msg_type: frame[3],
                flags: be16_at(frame, 4),
                sequence: be32_at(frame, 10),
                timestamp_us: be64_at(frame, 14),
                error_code: be32_at(frame, 22),
                payload: frame.subrange(HEADER_LEN as int, HEADER_LEN + announced_len(frame)),
            },
        )
    }
}

/// The inputs on which decoding reads only bytes that `frame` has.
pub open spec fn decode_in_bounds(frame: Seq<u8>, flen: int) -> bool {
    ||| flen < HEADER_LEN + CRC_LEN
    ||| flen <= frame.len()
    ||| (frame.len() >= 10 && (announced_len(frame) > MAX_PAYLOAD || flen != spec_frame_len(
        announced_len(frame),
    )))
}

/// Total frame length for a message with `payload_len` payload bytes.
pub fn frame_len(payload_len: usize) -> (n: usize)
    requires
        payload_len + HEADER_LEN + CRC_LEN <= usize::MAX,
    ensures
        n == spec_frame_len(payload_len as int),
{
    HEADER_LEN + payload_len + CRC_LEN
}

fn read_be16(s: &[u8], i: usize) -> (v: u16)
    requires
        i + 2 <= s@.len(),
    ensures
        v == be16_at(s@, i as int),
{
    ((s[i] as u16) << 8) | (s[i + 1] as u16)
}

fn read_be32(s: &[u8], i: usize) -> (v: u32)
    requires
        i + 4 <= s@.len(),
    ensures
        v == be32_at(s@, i as int),
{
    ((s[i] as u32) << 24) | ((s[i + 1] as u32) << 16) | ((s[i + 2] as u32) << 8) | (s[i + 3] as u32)
}

fn read_be64(s: &[u8], i: usize) -> (v: u64)
    requires
        i + 8 <= s@.len(),
    ensures
        v == be64_at(s@, i as int),
{
    ((s[i] as u64) << 56) | ((s[i + 1] as u64) << 48) | ((s[i + 2] as u64) << 40) | ((s[i + 3] as u64)
        << 32) | ((s[i + 4] as u64) << 24) | ((s[i + 5] as u64) << 16) | ((s[i + 6] as u64) << 8)
        | (s[i + 7] as u64)
}

fn write_u8(dst: &mut [u8], i: usize, v: u8)
    requires
        i + 1 <= old(dst)@.len(),
    ensures
        final(dst)@ == splice(old(dst)@, i as int, seq![v]),
{
    dst[i] = v;
    assert(dst@ =~= splice(old(dst)@, i as int, seq![v]));
}

fn write_be16(dst: &mut [u8], i: usize, v: u16)
    requires
        i + 2 <= old(dst)@.len(),
    ensures
        final(dst)@ == splice(old(dst)@, i as int, be16_bytes(v)),
{
    dst[i] = (v >> 8) as u8;
    dst[i + 1] = v as u8;
    assert(dst@ =~= splice(old(dst)@, i as int, be16_bytes(v)));
}

fn write_be32(dst: &mut [u8], i: usize, v: u32)
    requires
        i + 4 <= old(dst)@.len(),
    ensures
        final(dst)@ == splice(old(dst)@, i as int, be32_bytes(v)),
{
    dst[i] = (v >> 24) as u8;
    dst[i + 1] = (v >> 16) as u8;
    dst[i + 2] = (v >> 8) as u8;
    dst[i + 3] = v as u8;
    assert(dst@ =~= splice(old(dst)@, i as int, be32_bytes(v)));
}

fn write_be64(dst: &mut [u8], i: usize, v: u64)
    requires
        i + 8 <= old(dst)@.len(),
    ensures
        final(dst)@ == splice(old(dst)@, i as int, be64_bytes(v)),
{
    dst[i] = (v >> 56) as u8;
    dst[i + 1] = (v >> 48) as u8;
    dst[i + 2] = (v >> 40) as u8;
    dst[i + 3] = (v >> 32) as u8;
    dst[i + 4] = (v >> 24) as u8;
    dst[i + 5] = (v >> 16) as u8;
    dst[i + 6] = (v >> 8) as u8;
    dst[i + 7] = v as u8;
    assert(dst@ =~= splice(old(dst)@, i as int, be64_bytes(v)));
}

proof fn lemma_splice_extend(s: Seq<u8>, a: Seq<u8>, b: Seq<u8>)
    requires
        a.len() + b.len() <= s.len(),
    ensures
        splice(splice(s, 0, a), a.len() as int, b) == splice(s, 0, a + b),
        splice(s, 0, a).len() == s.len(),
{
    assert(splice(splice(s, 0, a), a.len() as int, b) =~= splice(s, 0, a + b));
}

/// Encode a message into the front of `dst`, which must hold at least
/// `frame_len(payload.len())` bytes. Returns the total frame length; the
/// bytes of `dst` past the frame are left as they were.
pub fn encode_into(
    dst: &mut [u8],
    msg_type: u8,
    flags: u16,
    sequence: u32,
    timestamp_us: u64,
    error_code: u32,
    payload: &[u8],
) -> (n: usize)
    requires
        old(dst)@.len() >= spec_frame_len(payload@.len() as int),
    ensures
        n == spec_frame_len(payload@.len() as int),
        final(dst)@.len() == old(dst)@.len(),
        final(dst)@.take(n as int) == spec_encode(
            message_view(msg_type, flags, sequence, timestamp_us, error_code, payload@),
        ),
        final(dst)@.skip(n as int) == old(dst)@.skip(n as int),
{
    let ghost m = message_view(msg_type, flags, sequence, timestamp_us, error_code, payload@);
    let ghost orig = dst@;
    let plen = payload.len();
    let dlen = dst.len();
    let flen = frame_len(plen);
    let plen32 = #[verifier::truncate] (plen as u32);

    write_be16(dst, 0, MAGIC);
    let ghost acc = be16_bytes(MAGIC);
    assert(dst@ == splice(orig, 0, acc));
    proof { lemma_splice_extend(orig, acc, seq![VERSION]); }
    write_u8(dst, 2, VERSION);
    proof { acc = acc + seq![VERSION]; }
    proof { lemma_splice_extend(orig, acc, seq![msg_type]); }
    write_u8(dst, 3, msg_type);
    proof { acc = acc + seq![msg_type]; }
    proof { lemma_splice_extend(orig, acc, be16_bytes(flags)); }
    write_be16(dst, 4, flags);
    proof { acc = acc + be16_bytes(flags); }
    proof { lemma_splice_extend(orig, acc, be32_bytes(plen32)); }
    write_be32(dst, 6, plen32);
    proof { acc = acc + be32_bytes(plen32); }
    proof { lemma_splice_extend(orig, acc, be32_bytes(sequence)); }
    write_be32(dst, 10, sequence);
    proof { acc = acc + be32_bytes(sequence); }
    proof { lemma_splice_extend(orig, acc, be64_bytes(timestamp_us)); }
    write_be64(dst, 14, timestamp_us);
    proof { acc = acc + be64_bytes(timestamp_us); }
    proof { lemma_splice_extend(orig, acc, be32_bytes(error_code)); }
    write_be32(dst, 22, error_code);
    proof { acc = acc + be32_bytes(error_code); }
    assert(acc =~= spec_header(m));

    let mut j: usize = 0;
    while j < plen
        invariant
            plen == payload@.len(),
            flen == spec_frame_len(plen as int),
            orig.len() >= flen,
            acc == spec_header(m),
            acc.len() == HEADER_LEN,
            j <= plen,
            dst@ == splice(orig, 0, acc + payload@.take(j as int)),
        decreases plen - j,
    {
        proof { lemma_splice_extend(orig, acc + payload@.take(j as int), seq![payload@[j as int]]); }
        write_u8(dst, HEADER_LEN + j, payload[j]);
        assert(acc + payload@.take(j as int) + seq![payload@[j as int]] =~= acc + payload@.take(j + 1));
        j = j + 1;
    }
    assert(acc + payload@.take(plen as int) =~= spec_body(m));
    let body_len = HEADER_LEN + plen;
    assert(dst@.subrange(0, body_len as int) =~= spec_body(m));
    let crc = crc32(slice_subrange(dst, 0, body_len));
    proof { lemma_splice_extend(orig, spec_body(m), be32_bytes(crc)); }
    write_be32(dst, body_len, crc);
    assert(dst@.take(flen as int) =~= spec_encode(m));
    assert(dst@.skip(flen as int) =~= orig.skip(flen as int));
    flen
}

/// Encode a message into a freshly allocated buffer of exactly its frame length.
pub fn encode(
    msg_type: u8,
    flags: u16,
    sequence: u32,
    timestamp_us: u64,
    error_code: u32,
    payload: &[u8],
) -> (frame: Vec<u8>)
    requires
        payload@.len() + HEADER_LEN + CRC_LEN <= usize::MAX,
    ensures
        frame@ == spec_encode(
            message_view(msg_type, flags, sequence, timestamp_us, error_code, payload@),
        ),
{
    let mut buf = vec![0u8; frame_len(payload.len())];
    let n = encode_into(
        buf.as_mut_slice(),
        msg_type,
        flags,
        sequence,
        timestamp_us,
        error_code,
        payload,
    );
    assert(buf@ =~= buf@.take(n as int));
    buf
}

/// Validate the complete frame held in the first `flen` bytes of `frame`.
/// On success the returned message borrows `frame` for its payload.
pub fn decode<'a>(frame: &'a [u8], flen: usize) -> (res: Result<Message<'a>, Error>)
    requires
        decode_in_bounds(frame@, flen as int),
    ensures
        match res {
            Ok(msg) => spec_decode(frame@, flen as int) == Ok::<MessageView, Error>(msg@),
            Err(e) => spec_decode(frame@, flen as int) == Err::<MessageView, Error>(e),
        },
{
    if flen < HEADER_LEN + CRC_LEN {
        return Err(Error::TooShort);
    }
    let payload_len = read_be32(frame, 6) as usize;
    if payload_len > MAX_PAYLOAD {
        return Err(Error::PayloadTooLong);
    }
    if flen != frame_len(payload_len) {
        return Err(Error::BadCrc);
    }
    let magic = read_be16(frame, 0);
    if magic != MAGIC {
        return Err(Error::BadMagic);
    }
    if frame[2] != VERSION {
        return Err(Error::BadVersion);
    }
    let body_len = HEADER_LEN + payload_len;
    let expected = read_be32(frame, body_len);
    let body = slice_subrange(frame, 0, body_len);
    assert(body@ =~= frame@.take(body_len as int));
    if crc32(body) != expected {
        return Err(Error::BadCrc);
    }
    let msg = Message {
        msg_type: frame[3],
        flags: read_be16(frame, 4),
        sequence: read_be32(frame, 10),
        timestamp_us: read_be64(frame, 14),
        error_code: read_be32(frame, 22),
        payload: slice_subrange(frame, HEADER_LEN, body_len),
    };
    Ok(msg)
}

// ---------------------------------------------------------------------------
// Laws of the wire format
// ---------------------------------------------------------------------------

proof fn lemma_be16_field(s: Seq<u8>, i: int, v: u16)
    requires
        0 <= i,
        i + 2 <= s.len(),
        s.subrange(i, i + 2) == be16_bytes(v),
    ensures
        be16_at(s, i) == v,
{
    assert(s.subrange(i, i + 2)[0] == s[i]);
    assert(s.subrange(i, i + 2)[1] == s[i + 1]);
    let b0 = s[i];
    let b1 = s[i + 1];
    assert((((b0 as u16) << 8) | (b1 as u16)) == v) by (bit_vector)
        requires
            b0 == (v >> 8) as u8,
            b1 == v as u8,
    ;
}

proof fn lemma_be32_field(s: Seq<u8>, i: int, v: u32)
    requires
        0 <= i,
        i + 4 <= s.len(),
        s.subrange(i, i + 4) == be32_bytes(v),
    ensures
        be32_at(s, i) == v,
{
    let t = s.subrange(i, i + 4);
    assert(t[0] == s[i] && t[1] == s[i + 1] && t[2] == s[i + 2] && t[3] == s[i + 3]);
    let b0 = s[i];
    let b1 = s[i + 1];
    let b2 = s[i + 2];
    let b3 = s[i + 3];
    assert((((b0 as u32) << 24) | ((b1 as u32) << 16) | ((b2 as u32) << 8) | (b3 as u32)) == v)
        by (bit_vector)
        requires
            b0 == (v >> 24) as u8,
            b1 == (v >> 16) as u8,
            b2 == (v >> 8) as u8,
            b3 == v as u8,
    ;
}

proof fn lemma_be64_field(s: Seq<u8>, i: int, v: u64)
    requires
        0 <= i,
        i + 8 <= s.len(),
        s.subrange(i, i + 8) == be64_bytes(v),
    ensures
        be64_at(s, i) == v,
{
    let t = s.subrange(i, i + 8);
    assert(t[0] == s[i] && t[1] == s[i + 1] && t[2] == s[i + 2] && t[3] == s[i + 3]);
    assert(t[4] == s[i + 4] && t[5] == s[i + 5] && t[6] == s[i + 6] && t[7] == s[i + 7]);
    let b0 = s[i];
    let b1 = s[i + 1];
    let b2 = s[i + 2];
    let b3 = s[i + 3];
    let b4 = s[i + 4];
    let b5 = s[i + 5];
    let b6 = s[i + 6];
    let b7 = s[i + 7];
    assert((((b0 as u64) << 56) | ((b1 as u64) << 48) | ((b2 as u64) << 40) | ((b3 as u64) << 32)
        | ((b4 as u64) << 24) | ((b5 as u64) << 16) | ((b6 as u64) << 8) | (b7 as u64)) == v)
        by (bit_vector)
        requires
            b0 == (v >> 56) as u8,
            b1 == (v >> 48) as u8,
            b2 == (v >> 40) as u8,
            b3 == (v >> 32) as u8,
            b4 == (v >> 24) as u8,
            b5 == (v >> 16) as u8,
            b6 == (v >> 8) as u8,
            b7 == v as u8,
    ;
}

proof fn lemma_be16_bytes_of(s: Seq<u8>, i: int)
    requires
        0 <= i,
        i + 2 <= s.len(),
    ensures
        be16_bytes(be16_at(s, i)) == s.subrange(i, i + 2),
{
    let b0 = s[i];
    let b1 = s[i + 1];
    let v = be16_at(s, i);
    assert((v >> 8) as u8 == b0 && v as u8 == b1) by (bit_vector)
        requires
            v == (((b0 as u16) << 8) | (b1 as u16)),
    ;
    assert(be16_bytes(v) =~= s.subrange(i, i + 2));
}

proof fn lemma_be32_bytes_of(s: Seq<u8>, i: int)
    requires
        0 <= i,
        i + 4 <= s.len(),
    ensures
        be32_bytes(be32_at(s, i)) == s.subrange(i, i + 4),
{
    let b0 = s[i];
    let b1 = s[i + 1];
    let b2 = s[i + 2];
    let b3 = s[i + 3];
    let v = be32_at(s, i);
    assert((v >> 24) as u8 == b0 && (v >> 16) as u8 == b1 && (v >> 8) as u8 == b2 && v as u8 == b3)
        by (bit_vector)
        requires
            v == (((b0 as u32) << 24) | ((b1 as u32) << 16) | ((b2 as u32) << 8) | (b3 as u32)),
    ;
    assert(be32_bytes(v) =~= s.subrange(i, i + 4));
}

proof fn lemma_be64_bytes_of(s: Seq<u8>, i: int)
    requires
        0 <= i,
        i + 8 <= s.len(),
    ensures
        be64_bytes(be64_at(s, i)) == s.subrange(i, i + 8),
{
    let b0 = s[i];
    let b1 = s[i + 1];
    let b2 = s[i + 2];
    let b3 = s[i + 3];
    let b4 = s[i + 4];
    let b5 = s[i + 5];
    let b6 = s[i + 6];
    let b7 = s[i + 7];
    let v = be64_at(s, i);
    assert((v >> 56) as u8 == b0 && (v >> 48) as u8 == b1 && (v >> 40) as u8 == b2 && (v >> 32) as u8
        == b3 && (v >> 24) as u8 == b4 && (v >> 16) as u8 == b5 && (v >> 8) as u8 == b6 && v as u8
        == b7) by (bit_vector)
        requires
            v == (((b0 as u64) << 56) | ((b1 as u64) << 48) | ((b2 as u64) << 40) | ((b3 as u64)
                << 32) | ((b4 as u64) << 24) | ((b5 as u64) << 16) | ((b6 as u64) << 8) | (
            b7 as u64)),
    ;
    assert(be64_bytes(v) =~= s.subrange(i, i + 8));
}

/// Decoding gives back what was encoded: a frame built from a message whose
/// payload fits is accepted, whatever bytes follow it in the buffer, and
/// yields that message.
pub proof fn lemma_decode_encode(m: MessageView, rest: Seq<u8>)
    requires
        m.payload.len() <= MAX_PAYLOAD,
    ensures
        spec_encode(m).len() == spec_frame_len(m.payload.len() as int),
        announced_len(spec_encode(m) + rest) == m.payload.len(),
        spec_decode(spec_encode(m) + rest, spec_frame_len(m.payload.len() as int)) == Ok::<
            MessageView,
            Error,
        >(m),
{
    let body = spec_body(m);
    let plen = m.payload.len() as int;
    let f = spec_encode(m) + rest;
    let crc = spec_crc32(body);
    assert(f.subrange(0, 2) =~= be16_bytes(MAGIC));
    assert(f.subrange(4, 6) =~= be16_bytes(m.flags));
    assert(f.subrange(6, 10) =~= be32_bytes(m.payload.len() as u32));
    assert(f.subrange(10, 14) =~= be32_bytes(m.sequence));
    assert(f.subrange(14, 22) =~= be64_bytes(m.timestamp_us));
    assert(f.subrange(22, 26) =~= be32_bytes(m.error_code));
    assert(f.subrange(26 + plen, 30 + plen) =~= be32_bytes(crc));
    lemma_be16_field(f, 0, MAGIC);
    lemma_be16_field(f, 4, m.flags);
    lemma_be32_field(f, 6, m.payload.len() as u32);
    lemma_be32_field(f, 10, m.sequence);
    lemma_be64_field(f, 14, m.timestamp_us);
    lemma_be32_field(f, 22, m.error_code);
    lemma_be32_field(f, 26 + plen, crc);
    assert(f.take(26 + plen) =~= body);
    assert(f.subrange(26, 26 + plen) =~= m.payload);
    assert(f[2] == VERSION);
    assert(f[3] == m.msg_type);
}

/// The length of an encoded frame, and the payload length its header announces:
/// the part of `lemma_decode_encode` that framing needs, without bringing the
/// whole decoding result into a caller's proof.
pub proof fn lemma_encoded_length(m: MessageView, rest: Seq<u8>)
    requires
        m.payload.len() <= MAX_PAYLOAD,
    ensures
        spec_encode(m).len() == spec_frame_len(m.payload.len() as int),
        announced_len(spec_encode(m) + rest) == m.payload.len(),
{
    lemma_decode_encode(m, rest);
}

/// Encoding gives back what was decoded: when the first `flen` bytes of a
/// buffer decode to a message, encoding that message rebuilds those bytes.
pub proof fn lemma_encode_decode(frame: Seq<u8>, flen: int)
    requires
        flen <= frame.len(),
        spec_decode(frame, flen) is Ok,
    ensures
        spec_encode(spec_decode(frame, flen)->Ok_0) == frame.take(flen),
{
    let m = spec_decode(frame, flen)->Ok_0;
    let plen = announced_len(frame);
    lemma_be16_bytes_of(frame, 0);
    lemma_be16_bytes_of(frame, 4);
    lemma_be32_bytes_of(frame, 6);
    lemma_be32_bytes_of(frame, 10);
    lemma_be64_bytes_of(frame, 14);
    lemma_be32_bytes_of(frame, 22);
    lemma_be32_bytes_of(frame, 26 + plen);
    assert(m.payload.len() as u32 == be32_at(frame, 6));
    assert(spec_header(m) =~= frame.take(26));
    assert(spec_body(m) =~= frame.take(26 + plen));
    assert(spec_encode(m) =~= frame.take(flen));
}

proof fn lemma_damage_breaks_checksum(e: Seq<u8>, i: int, damaged: u8, body_len: int)
    requires
        0 <= body_len,
        e.len() >= body_len + 4,
        0 <= i < body_len + 4,
        damaged != e[i],
        spec_crc32(e.take(body_len)) == be32_at(e, body_len),
    ensures
        spec_crc32(e.update(i, damaged).take(body_len)) != be32_at(e.update(i, damaged), body_len),
{
    let f = e.update(i, damaged);
    let body = e.take(body_len);
    let body2 = f.take(body_len);
    lemma_be32_bytes_of(e, body_len);
    lemma_be32_bytes_of(f, body_len);
    if i < body_len {
        assert(body2 =~= body.update(i, damaged));
        lemma_crc32_detects_single_byte_error(body, body2, i);
        assert(f.subrange(body_len, body_len + 4) =~= e.subrange(body_len, body_len + 4));
    } else {
        assert(body2 =~= body);
        assert(f.subrange(body_len, body_len + 4)[i - body_len] != e.subrange(
            body_len,
            body_len + 4,
        )[i - body_len]);
    }
}

/// A frame damaged in any single byte is refused: whichever byte of an
/// encoded frame is changed, decoding it no longer succeeds.
pub proof fn lemma_single_byte_damage_detected(m: MessageView, i: int, damaged: u8)
    requires
        m.payload.len() <= MAX_PAYLOAD,
        0 <= i < spec_encode(m).len(),
        damaged != spec_encode(m)[i],
    ensures
        spec_decode(
            spec_encode(m).update(i, damaged),
            spec_frame_len(m.payload.len() as int),
        ) is Err,
{
    let e = spec_encode(m);
    let plen = m.payload.len() as int;
    let flen = spec_frame_len(plen);
    assert(spec_decode(e, flen) is Ok && announced_len(e) == plen && e.len() == flen) by {
        lemma_decode_encode(m, Seq::empty());
        assert(e + Seq::<u8>::empty() =~= e);
    }
    let f = e.update(i, damaged);
    lemma_damage_breaks_checksum(e, i, damaged, HEADER_LEN + plen);
}

} // verus!
