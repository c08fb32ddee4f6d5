use axnet_rt::frame::{encode, FRAME_MAX, MSG_CONTROL, MSG_HEARTBEAT};
use axnet_rt::reader::{FrameReader, STREAM_SLACK};

#[test]
fn nothing_buffered_gives_no_frame() {
    let mut r = FrameReader::new();
    assert_eq!(r.next_frame(), None);
    let mut d = FrameReader::default();
    assert_eq!(d.next_frame(), None);
}

#[test]
fn frames_come_out_whole_and_in_order() {
    let a = encode(MSG_CONTROL, 0, 1, 0, 0, b"one");
    let b = encode(MSG_HEARTBEAT, 0, 2, 0, 0, &[]);
    let mut stream = a.clone();
    stream.extend_from_slice(&b);
    let mut r = FrameReader::new();
    r.push(&stream);
    assert_eq!(r.next_frame(), Some(a));
    assert_eq!(r.next_frame(), Some(b));
    assert_eq!(r.next_frame(), None);
}

#[test]
fn split_writes_still_frame_correctly() {
    let a = encode(MSG_CONTROL, 0, 9, 0, 0, b"payload bytes");
    for cut in 0..a.len() {
        let mut r = FrameReader::new();
        r.push(&a[..cut]);
        assert_eq!(r.next_frame(), None, "partial frame of {cut} bytes handed out");
        r.push(&a[cut..]);
        assert_eq!(r.next_frame(), Some(a.clone()));
        assert_eq!(r.next_frame(), None);
    }
}

#[test]
fn oversized_announced_payload_drops_the_buffer() {
    let mut head = vec![0u8; 26];
    head[6..10].copy_from_slice(&5000u32.to_be_bytes());
    let good = encode(MSG_HEARTBEAT, 0, 3, 0, 0, &[]);
    let mut r = FrameReader::new();
    r.push(&head);
    assert_eq!(r.next_frame(), None);
    // The corrupt bytes are gone: a fresh frame is read from the start.
    r.push(&good);
    assert_eq!(r.next_frame(), Some(good));
}

#[test]
fn overlong_stream_is_dropped() {
    let mut r = FrameReader::new();
    // Announces a 4000-byte payload, so the reader keeps waiting.
    let mut head = vec![0u8; 26];
    head[6..10].copy_from_slice(&4000u32.to_be_bytes());
    r.push(&head);
    r.push(&vec![0u8; FRAME_MAX + STREAM_SLACK]);
    assert_eq!(r.next_frame(), None);
    let good = encode(MSG_HEARTBEAT, 0, 4, 0, 0, &[]);
    r.push(&good);
    assert_eq!(r.next_frame(), Some(good));
}

#[test]
fn a_stream_of_frames_in_any_chunks_comes_back_whole() {
    let frames: Vec<Vec<u8>> = vec![
        encode(MSG_CONTROL, 0, 1, 10, 0, &vec![0xA5; 4096]),
        encode(MSG_HEARTBEAT, 0, 2, 20, 0, &[]),
        encode(MSG_CONTROL, 0, 3, 30, 0, b"three"),
        encode(MSG_CONTROL, 0, 4, 40, 0, &vec![7u8; 1000]),
    ];
    let stream: Vec<u8> = frames.concat();
    for chunk in [1usize, 7, 29, 30, 1000, 4095, 4096] {
        let mut r = FrameReader::new();
        let mut out = Vec::new();
        for piece in stream.chunks(chunk) {
            r.push(piece);
            while let Some(f) = r.next_frame() {
                out.push(f);
            }
        }
        assert_eq!(out, frames, "chunk size {chunk}");
        assert_eq!(r.next_frame(), None);
    }
}
