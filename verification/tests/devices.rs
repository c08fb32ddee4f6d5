use axnet_rt::gic::{
    children_asleep, enable_distributor, init, wake_redistributor, with_group1, with_priority,
    GicInit, MmioOp,
};
use axnet_rt::uart::{put_u64, putc, puts, TXFF};

#[test]
fn putc_waits_for_room() {
    assert_eq!(putc(TXFF, b'a'), None);
    assert_eq!(putc(0, b'a'), Some(0x61));
}

#[test]
fn puts_turns_line_feeds_into_crlf() {
    assert_eq!(puts("a\nb\n"), b"a\r\nb\r\n".to_vec());
    assert_eq!(puts(""), Vec::<u8>::new());
    assert_eq!(puts("é"), "é".as_bytes().to_vec());
}

#[test]
fn put_u64_prints_decimal() {
    assert_eq!(put_u64(0), b"0".to_vec());
    assert_eq!(put_u64(7), b"7".to_vec());
    assert_eq!(put_u64(1200), b"1200".to_vec());
    assert_eq!(put_u64(u64::MAX), b"18446744073709551615".to_vec());
}

#[test]
fn register_arithmetic() {
    assert_eq!(enable_distributor(0x10), 0x13);
    assert_eq!(wake_redistributor(0x6), 0x4);
    assert!(children_asleep(0x4));
    assert!(!children_asleep(0x2));
    assert_eq!(with_group1(0, 30), 1 << 30);
    assert_eq!(with_priority(0x1122_3344, 2, 0xa0), 0x11a0_3344);
}

#[test]
fn gic_bring_up_sequence() {
    let mut st = GicInit::start();
    let mut ops = vec![];
    // Values the hardware returns to each read, in order.
    let reads = [0x0u32, 0x6, 0x4, 0x4, 0x0, 0x0, 0xffff_ffff];
    let mut r = 0usize;
    let mut last = 0u32;
    loop {
        let op = init(&mut st, last);
        ops.push(op);
        match op {
            MmioOp::Read(_) => {
                last = reads[r];
                r += 1;
            }
            MmioOp::Write(..) => {}
            MmioOp::Finished => break,
        }
    }
    let gicd = 0x0800_0000usize;
    let gicr = 0x080A_0000usize;
    assert_eq!(
        ops,
        vec![
            MmioOp::Read(gicd),
            MmioOp::Write(gicd, 0x3),
            MmioOp::Read(gicr + 0x14),
            MmioOp::Write(gicr + 0x14, 0x4),
            MmioOp::Read(gicr + 0x14),
            MmioOp::Read(gicr + 0x14),
            MmioOp::Read(gicr + 0x14),
            MmioOp::Read(gicr + 0x80),
            MmioOp::Write(gicr + 0x80, 1 << 30),
            MmioOp::Read(gicr + 0x41c),
            MmioOp::Write(gicr + 0x41c, 0xffa0_ffff),
            MmioOp::Write(gicr + 0x100, 1 << 30),
            MmioOp::Finished,
        ]
    );
    assert_eq!(init(&mut st, 0), MmioOp::Finished);
}

#[test]
fn crlf_output_gives_back_the_text() {
    let text = "line one\nline two\r\n\n";
    let wire = puts(text);
    // Every LF on the wire follows a CR.
    for (i, &b) in wire.iter().enumerate() {
        if b == b'\n' {
            assert_eq!(wire[i - 1], b'\r');
        }
    }
    // Dropping the CR before each LF restores the text.
    let mut back = Vec::new();
    for (i, &b) in wire.iter().enumerate() {
        if b == b'\r' && wire.get(i + 1) == Some(&b'\n') {
            continue;
        }
        back.push(b);
    }
    assert_eq!(back, text.as_bytes().to_vec());
}

#[test]
fn decimal_reads_back() {
    for v in [0u64, 1, 9, 10, 99, 100, 4096, 1_000_000_007, u64::MAX] {
        let s = put_u64(v);
        assert!(s.iter().all(|b| b.is_ascii_digit()));
        assert!(s.len() == 1 || s[0] != b'0');
        assert_eq!(String::from_utf8(s).unwrap().parse::<u64>().unwrap(), v);
    }
}
