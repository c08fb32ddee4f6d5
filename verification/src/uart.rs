//! What the probe guest sends to the PL011 UART: the bytes of a string with
//! line feeds turned into CR LF, and numbers in decimal. The caller owns the
//! device registers.
use vstd::prelude::*;
use vstd::string::*;

verus! {

/// Flag register offset.
pub const UARTFR: usize = 0x18;
/// Data register offset.
pub const UARTDR: usize = 0x00;
/// Flag register bit: transmit FIFO full.
pub const TXFF: u32 = 1 << 5;

/// Sending byte `c` when the flag register reads `flags`: the word to write
/// to the data register, or `None` while the transmit FIFO is full (the
/// caller reads the flag register again).
pub fn putc(flags: u32, c: u8) -> (w: Option<u32>)
    ensures
        flags & TXFF != 0 ==> w is None,
        flags & TXFF == 0 ==> w == Some(c as u32),
{
    if flags & TXFF != 0 {
        None
    } else {
        Some(c as u32)
    }
}

/// The wire image of one byte: a line feed goes out as CR LF.
pub open spec fn crlf_byte(b: u8) -> Seq<u8> {
    if b == 10 {
        seq![13u8, 10u8]
    } else {
        seq![b]
    }
}

/// The wire image of a byte string.
pub open spec fn crlf(s: Seq<u8>) -> Seq<u8>
    decreases s.len(),
{
    if s.len() == 0 {
        Seq::empty()
    } else {
        crlf(s.drop_last()) + crlf_byte(s.last())
    }
}

/// The bytes to send for `s`: its UTF-8 bytes, each line feed preceded by a
/// carriage return.
pub fn puts(s: &str) -> (out: Vec<u8>)
    ensures
        out@ == crlf(s.spec_bytes()),
{
    let bytes = s.as_bytes_vec();
    let n = bytes.len();
    let mut out: Vec<u8> = Vec::new();
    let mut i: usize = 0;
    while i < n
        invariant
            n == bytes@.len(),
            i <= n,
            out@ == crlf(bytes@.take(i as int)),
        decreases n - i,
    {
        let b = bytes[i];
        if b == 10u8 {
            out.push(13u8);
        }
        out.push(b);
        assert(bytes@.take(i + 1).drop_last() =~= bytes@.take(i as int));
        assert(out@ =~= crlf(bytes@.take(i + 1)));
        i = i + 1;
    }
    assert(bytes@.take(n as int) =~= bytes@);
    out
}

/// Undo the wire image: a CR directly before a LF is dropped.
pub open spec fn uncrlf(s: Seq<u8>) -> Seq<u8>
    decreases s.len(),
{
    if s.len() == 0 {
        Seq::empty()
    } else if s.len() >= 2 && s.last() == 10 && s[s.len() - 2] == 13 {
        uncrlf(s.take(s.len() - 2)).push(10u8)
    } else {
        uncrlf(s.drop_last()).push(s.last())
    }
}

/// On the wire every line feed follows a carriage return, and dropping the
/// carriage return before each line feed gives back the text sent.
pub proof fn lemma_crlf_roundtrip(s: Seq<u8>)
    ensures
        uncrlf(crlf(s)) == s,
        forall|i: int| 0 <= i < crlf(s).len() && #[trigger] crlf(s)[i] == 10 ==> i >= 1 && crlf(s)[i
            - 1] == 13,
    decreases s.len(),
{
    if s.len() > 0 {
        let init = s.drop_last();
        let last = s.last();
        lemma_crlf_roundtrip(init);
        let c = crlf(s);
        let ci = crlf(init);
        if last == 10 {
            assert(c.take(c.len() - 2) =~= ci);
            assert(c.last() == 10 && c[c.len() - 2] == 13);
        } else {
            assert(c.drop_last() =~= ci);
            assert(c.last() == last);
        }
        assert(uncrlf(c) =~= s);
        assert forall|i: int| 0 <= i < c.len() && #[trigger] c[i] == 10 implies i >= 1 && c[i - 1]
            == 13 by {
            if i < ci.len() {
                assert(c[i] == ci[i]);
                assert(c[i - 1] == ci[i - 1]);
            }
        }
    }
}

/// The decimal digits of `v`, most significant first, none for 0.
pub open spec fn dec_digits(v: nat) -> Seq<u8>
    decreases v,
{
    if v == 0 {
        Seq::empty()
    } else {
        dec_digits(v / 10).push((48 + v % 10) as u8)
    }
}

/// `v` in decimal: "0" for 0, otherwise its digits without leading zeros.
pub open spec fn decimal(v: nat) -> Seq<u8> {
    if v == 0 {
        seq![48u8]
    } else {
        dec_digits(v)
    }
}

/// The bytes that print `v` in decimal.
pub fn put_u64(v: u64) -> (out: Vec<u8>)
    ensures
        out@ == decimal(v as nat),
{
    if v == 0 {
        let mut z: Vec<u8> = Vec::new();
        z.push(48u8);
        assert(z@ =~= seq![48u8]);
        return z;
    }
    // Digits come out least significant first; `rev` collects them so.
    let mut rev: Vec<u8> = Vec::new();
    let mut x: u64 = v;
    while x > 0
        invariant
            dec_digits(v as nat) == dec_digits(x as nat) + rev@.reverse(),
        decreases x,
    {
        let d = (48 + x % 10) as u8;
        rev.push(d);
        assert(dec_digits(x as nat) == dec_digits((x / 10) as nat).push(d));
        assert(rev@.reverse() =~= seq![d] + rev@.drop_last().reverse());
        assert(dec_digits(x as nat) + rev@.drop_last().reverse() =~= dec_digits((x / 10) as nat)
            + rev@.reverse());
        x = x / 10;
    }
    assert(dec_digits(0) =~= Seq::<u8>::empty());
    let n = rev.len();
    let mut out: Vec<u8> = Vec::new();
    let mut i: usize = 0;
    while i < n
        invariant
            n == rev@.len(),
            i <= n,
            out@ == rev@.reverse().take(i as int),
        decreases n - i,
    {
        out.push(rev[n - 1 - i]);
        assert(out@ =~= rev@.reverse().take(i + 1));
        i = i + 1;
    }
    assert(out@ =~= rev@.reverse());
    assert(out@ =~= dec_digits(v as nat));
    out
}

/// The number that a string of decimal digits stands for.
pub open spec fn digits_value(s: Seq<u8>) -> nat
    decreases s.len(),
{
    if s.len() == 0 {
        0
    } else {
        digits_value(s.drop_last()) * 10 + (s.last() - 48) as nat
    }
}

/// What is printed for `v` is a string of ASCII digits, without a leading
/// zero unless it is "0", that reads back as `v`.
pub proof fn lemma_decimal_reads_back(v: nat)
    ensures
        decimal(v).len() > 0,
        forall|i: int| 0 <= i < decimal(v).len() ==> 48 <= #[trigger] decimal(v)[i] <= 57,
        decimal(v).len() > 1 ==> decimal(v)[0] != 48,
        digits_value(decimal(v)) == v,
    decreases v,
{
    if v > 0 {
        lemma_dec_digits(v);
    } else {
        let z = seq![48u8];
        assert(z.drop_last() =~= Seq::<u8>::empty());
        assert(digits_value(Seq::<u8>::empty()) == 0);
        assert(z.last() == 48);
        assert(digits_value(z) == digits_value(z.drop_last()) * 10 + (z.last() - 48) as nat);
    }
}

proof fn lemma_dec_digits(v: nat)
    requires
        v > 0,
    ensures
        dec_digits(v).len() > 0,
        forall|i: int| 0 <= i < dec_digits(v).len() ==> 48 <= #[trigger] dec_digits(v)[i] <= 57,
        dec_digits(v)[0] != 48,
        digits_value(dec_digits(v)) == v,
    decreases v,
{
    let q = v / 10;
    let r = v % 10;
    let d = dec_digits(v);
    assert(d == dec_digits(q).push((48 + r) as u8));
    assert(d.drop_last() =~= dec_digits(q));
    if q > 0 {
        lemma_dec_digits(q);
        assert(d[0] == dec_digits(q)[0]);
    } else {
        assert(dec_digits(q) =~= Seq::<u8>::empty());
        assert(r > 0);
    }
    assert(digits_value(d) == digits_value(dec_digits(q)) * 10 + r);
}

} // verus!
