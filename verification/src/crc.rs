//! IEEE CRC-32 (reflected polynomial 0xEDB88320), bit by bit.
use vstd::prelude::*;

verus! {

/// The reflected IEEE polynomial.
pub const CRC32_POLY: u32 = 0xEDB8_8320;

/// One shift of the CRC register: shift right, and fold the polynomial in
/// when the bit shifted out was set.
pub open spec fn crc_shift(c: u32) -> u32 {
    if c & 1 == 1 {
        (c >> 1) ^ CRC32_POLY
    } else {
        c >> 1
    }
}

/// `n` successive shifts of the CRC register.
pub open spec fn crc_shifts(c: u32, n: nat) -> u32
    decreases n,
{
    if n == 0 {
        c
    } else {
        crc_shift(crc_shifts(c, (n - 1) as nat))
    }
}

/// The register after absorbing one byte.
pub open spec fn crc_absorb(c: u32, b: u8) -> u32 {
    crc_shifts(c ^ (b as u32), 8)
}

/// The register after absorbing all of `data`, starting from all ones.
pub open spec fn crc_register(data: Seq<u8>) -> u32
    decreases data.len(),
{
    if data.len() == 0 {
        0xFFFF_FFFFu32
    } else {
        crc_absorb(crc_register(data.drop_last()), data.last())
    }
}

/// The IEEE CRC-32 of `data`: the final register, inverted.
pub open spec fn spec_crc32(data: Seq<u8>) -> u32 {
    crc_register(data) ^ 0xFFFF_FFFFu32
}

proof fn lemma_masked_shift(c: u32)
    ensures
        (c >> 1) ^ (CRC32_POLY & 0u32.wrapping_sub(c & 1)) == crc_shift(c),
{
    let m = 0u32.wrapping_sub(c & 1);
    assert(m == (if c & 1 == 1 { 0xFFFF_FFFFu32 } else { 0u32 })) by (bit_vector)
        requires m == 0u32.wrapping_sub(c & 1);
    assert((c >> 1) ^ (0xEDB8_8320u32 & 0xFFFF_FFFFu32) == (c >> 1) ^ 0xEDB8_8320u32) by (bit_vector);
    assert((c >> 1) ^ (0xEDB8_8320u32 & 0u32) == c >> 1) by (bit_vector);
}

/// IEEE CRC-32 of `data`, as used on both ends of the AXNET/1 link.
pub fn crc32(data: &[u8]) -> (crc: u32)
    ensures
        crc == spec_crc32(data@),
{
    let mut crc: u32 = 0xFFFF_FFFF;
    let n = data.len();
    let mut i: usize = 0;
    while i < n
        invariant
            n == data@.len(),
            i <= n,
            crc == crc_register(data@.take(i as int)),
        decreases n - i,
    {
        let b = data[i];
        crc = crc ^ (b as u32);
        let ghost start = crc;
        let mut k: u32 = 0;
        while k < 8
            invariant
                k <= 8,
                crc == crc_shifts(start, k as nat),
            decreases 8 - k,
        {
            let mask = 0u32.wrapping_sub(crc & 1);
            proof {
                lemma_masked_shift(crc);
            }
            crc = (crc >> 1) ^ (CRC32_POLY & mask);
            k = k + 1;
        }
        assert(data@.take(i + 1).drop_last() =~= data@.take(i as int));
        i = i + 1;
    }
    assert(data@.take(n as int) =~= data@);
    crc ^ 0xFFFF_FFFF
}

proof fn lemma_shift_injective(x: u32, y: u32)
    requires
        x != y,
    ensures
        crc_shift(x) != crc_shift(y),
{
    assert(x != y ==> (if x & 1 == 1 { (x >> 1) ^ 0xEDB8_8320u32 } else { x >> 1 }) != (if y & 1
        == 1 {
        (y >> 1) ^ 0xEDB8_8320u32
    } else {
        y >> 1
    })) by (bit_vector);
}

proof fn lemma_shifts_injective(x: u32, y: u32, n: nat)
    requires
        x != y,
    ensures
        crc_shifts(x, n) != crc_shifts(y, n),
    decreases n,
{
    if n > 0 {
        lemma_shifts_injective(x, y, (n - 1) as nat);
        lemma_shift_injective(crc_shifts(x, (n - 1) as nat), crc_shifts(y, (n - 1) as nat));
    }
}

proof fn lemma_absorb_injective(r: u32, s: u32, a: u8, b: u8)
    requires
        r != s || a != b,
        r == s || a == b,
    ensures
        crc_absorb(r, a) != crc_absorb(s, b),
{
    assert((r != s || a != b) && (r == s || a == b) ==> r ^ (a as u32) != s ^ (b as u32))
        by (bit_vector);
    lemma_shifts_injective(r ^ (a as u32), s ^ (b as u32), 8);
}

/// Two byte strings of the same length that differ in exactly one byte have
/// different CRC-32s: the checksum detects every single-byte error.
pub proof fn lemma_crc32_detects_single_byte_error(a: Seq<u8>, b: Seq<u8>, i: int)
    requires
        a.len() == b.len(),
        0 <= i < a.len(),
        a[i] != b[i],
        forall|j: int| 0 <= j < a.len() && j != i ==> a[j] == b[j],
    ensures
        spec_crc32(a) != spec_crc32(b),
    decreases a.len(),
{
    lemma_register_differs(a, b, i);
    let ra = crc_register(a);
    let rb = crc_register(b);
    assert(ra != rb ==> ra ^ 0xFFFF_FFFFu32 != rb ^ 0xFFFF_FFFFu32) by (bit_vector);
}

proof fn lemma_register_differs(a: Seq<u8>, b: Seq<u8>, i: int)
    requires
        a.len() == b.len(),
        0 <= i < a.len(),
        a[i] != b[i],
        forall|j: int| 0 <= j < a.len() && j != i ==> a[j] == b[j],
    ensures
        crc_register(a) != crc_register(b),
    decreases a.len(),
{
    let n = a.len() - 1;
    if i == n {
        assert(a.drop_last() =~= b.drop_last());
        lemma_absorb_injective(crc_register(a.drop_last()), crc_register(b.drop_last()), a.last(), b.last());
    } else {
        assert(a.drop_last()[i] == a[i] && b.drop_last()[i] == b[i]);
        assert forall|j: int| 0 <= j < a.drop_last().len() && j != i implies a.drop_last()[j]
            == b.drop_last()[j] by {
            assert(a[j] == b[j]);
        }
        lemma_register_differs(a.drop_last(), b.drop_last(), i);
        assert(a[n] == b[n]);
        lemma_absorb_injective(crc_register(a.drop_last()), crc_register(b.drop_last()), a.last(), b.last());
    }
}

// ---------------------------------------------------------------------------
// The CRC-32 residue
// ---------------------------------------------------------------------------

/// The four bytes of `v`, least significant first: how a CRC-32 is appended
/// to the data it protects.
pub open spec fn le32_bytes(v: u32) -> Seq<u8> {
    seq![v as u8, (v >> 8) as u8, (v >> 16) as u8, (v >> 24) as u8]
}

/// Eight shifts of the register, written out.
pub open spec fn crc_shift8(c: u32) -> u32 {
    crc_shift(crc_shift(crc_shift(crc_shift(crc_shift(crc_shift(crc_shift(crc_shift(c))))))))
}

proof fn lemma_shifts8(c: u32)
    ensures
        crc_shifts(c, 8) == crc_shift8(c),
{
    reveal_with_fuel(crc_shifts, 9);
}

proof fn lemma_shift_xor(x: u32, y: u32)
    ensures
        crc_shift(x ^ y) == crc_shift(x) ^ crc_shift(y),
{
    assert((if (x ^ y) & 1 == 1 { ((x ^ y) >> 1) ^ 0xEDB8_8320u32 } else { (x ^ y) >> 1 }) == (if x
        & 1 == 1 {
        (x >> 1) ^ 0xEDB8_8320u32
    } else {
        x >> 1
    }) ^ (if y & 1 == 1 { (y >> 1) ^ 0xEDB8_8320u32 } else { y >> 1 })) by (bit_vector);
}

proof fn lemma_shifts_xor(x: u32, y: u32, n: nat)
    ensures
        crc_shifts(x ^ y, n) == crc_shifts(x, n) ^ crc_shifts(y, n),
    decreases n,
{
    if n > 0 {
        lemma_shifts_xor(x, y, (n - 1) as nat);
        lemma_shift_xor(crc_shifts(x, (n - 1) as nat), crc_shifts(y, (n - 1) as nat));
    }
}

proof fn lemma_shifts_high(y: u32, n: nat)
    requires
        y & 0xff == 0,
        n <= 8,
    ensures
        crc_shifts(y, n) == y >> n,
    decreases n,
{
    if n == 0 {
        assert(y >> 0u32 == y) by (bit_vector);
    } else {
        lemma_shifts_high(y, (n - 1) as nat);
        let k = (n - 1) as u32;
        assert((if (y >> k) & 1 == 1 { ((y >> k) >> 1) ^ 0xEDB8_8320u32 } else { (y >> k) >> 1 })
            == y >> (k + 1)) by (bit_vector)
            requires
                y & 0xff == 0,
                k < 8,
        ;
    }
}

/// Absorbing the low byte of `v`, then xoring in the rest of `v`, is eight
/// shifts of the register xored with all of `v`.
proof fn lemma_absorb_low_byte(c: u32, v: u32)
    ensures
        crc_absorb(c, v as u8) ^ (v >> 8) == crc_shift8(c ^ v),
{
    let lo = (v as u8) as u32;
    let hi = v & 0xffff_ff00u32;
    assert(c ^ v == (c ^ lo) ^ hi && hi & 0xff == 0 && hi >> 8 == v >> 8) by (bit_vector)
        requires
            lo == (v as u8) as u32,
            hi == v & 0xffff_ff00u32,
    ;
    lemma_shifts_xor(c ^ lo, hi, 8);
    lemma_shifts_high(hi, 8);
    lemma_shifts8(c ^ v);
}

proof fn lemma_register_push(s: Seq<u8>, b: u8)
    ensures
        crc_register(s.push(b)) == crc_absorb(crc_register(s), b),
{
    assert(s.push(b).drop_last() =~= s);
}

/// The register after absorbing the four bytes of `v`, least significant
/// first: thirty-two shifts of the register xored with `v`.
proof fn lemma_absorb_le32(s: Seq<u8>, v: u32)
    ensures
        crc_register(s + le32_bytes(v)) == crc_shift8(
            crc_shift8(crc_shift8(crc_shift8(crc_register(s) ^ v))),
        ),
{
    let b = le32_bytes(v);
    let r0 = crc_register(s);
    assert(s + b =~= s.push(b[0]).push(b[1]).push(b[2]).push(b[3]));
    lemma_register_push(s, b[0]);
    lemma_register_push(s.push(b[0]), b[1]);
    lemma_register_push(s.push(b[0]).push(b[1]), b[2]);
    lemma_register_push(s.push(b[0]).push(b[1]).push(b[2]), b[3]);
    let v1 = v >> 8;
    let v2 = v >> 16;
    let v3 = v >> 24;
    assert(v1 as u8 == (v >> 8) as u8 && v2 as u8 == (v >> 16) as u8 && v3 as u8 == (v >> 24) as u8
        && v1 >> 8 == v2 && v2 >> 8 == v3 && v3 >> 8 == 0) by (bit_vector)
        requires
            v1 == v >> 8,
            v2 == v >> 16,
            v3 == v >> 24,
    ;
    let r1 = crc_absorb(r0, v as u8);
    let r2 = crc_absorb(r1, v1 as u8);
    let r3 = crc_absorb(r2, v2 as u8);
    let r4 = crc_absorb(r3, v3 as u8);
    lemma_absorb_low_byte(r0, v);
    lemma_absorb_low_byte(r1, v1);
    lemma_absorb_low_byte(r2, v2);
    lemma_absorb_low_byte(r3, v3);
    assert(r4 ^ 0u32 == r4) by (bit_vector);
}

/// The CRC-32 residue: appending to any data its own CRC-32, least
/// significant byte first, gives a CRC-32 of 0x2144DF1C. This holds of the
/// IEEE CRC-32 at every length, and of no checksum that drops or changes
/// the final inversion for some lengths.
pub proof fn lemma_crc32_residue(data: Seq<u8>)
    ensures
        spec_crc32(data + le32_bytes(spec_crc32(data))) == 0x2144DF1Cu32,
{
    let r = crc_register(data);
    let v = spec_crc32(data);
    lemma_absorb_le32(data, v);
    assert(r ^ v == 0xFFFF_FFFFu32) by (bit_vector)
        requires
            v == r ^ 0xFFFF_FFFFu32,
    ;
    assert(crc_shift8(0xFFFF_FFFFu32) == 0x2dfd_1072u32) by (bit_vector);
    assert(crc_shift8(0x2dfd_1072u32) == 0xbe26_ed00u32) by (bit_vector);
    assert(crc_shift8(0xbe26_ed00u32) == 0x00be_26edu32) by (bit_vector);
    assert(crc_shift8(0x00be_26edu32) == 0xdebb_20e3u32) by (bit_vector);
    assert(0xdebb_20e3u32 ^ 0xFFFF_FFFFu32 == 0x2144_DF1Cu32) by (bit_vector);
}

/// The CRC-32 of no data is 0: the register starts from all ones, which the
/// final inversion cancels.
pub proof fn lemma_crc32_empty()
    ensures
        spec_crc32(Seq::<u8>::empty()) == 0,
{
    assert(0xFFFF_FFFFu32 ^ 0xFFFF_FFFFu32 == 0u32) by (bit_vector);
}

} // verus!
