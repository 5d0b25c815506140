//! Little-endian byte-level encoding and decoding of the integer fields
//! used by all three file formats, together with the two's-complement
//! conversions between signed values and their unsigned bit patterns.

use vstd::prelude::*;

verus! {

// ---------------------------------------------------------------------------
// Reading specs: the value held little-endian at an offset of a byte sequence.
// ---------------------------------------------------------------------------

/// The `u16` stored little-endian at offset `i` of `b`.
pub open spec fn le_u16_at(b: Seq<u8>, i: int) -> u16 {
    (b[i] + b[i + 1] * 0x100) as u16
}

/// The `u32` stored little-endian at offset `i` of `b`.
pub open spec fn le_u32_at(b: Seq<u8>, i: int) -> u32 {
    (b[i] + b[i + 1] * 0x100 + b[i + 2] * 0x1_0000 + b[i + 3] * 0x100_0000) as u32
}

/// The `u64` stored little-endian at offset `i` of `b`.
pub open spec fn le_u64_at(b: Seq<u8>, i: int) -> u64 {
    (b[i] + b[i + 1] * 0x100 + b[i + 2] * 0x1_0000 + b[i + 3] * 0x100_0000
        + b[i + 4] * 0x1_0000_0000 + b[i + 5] * 0x100_0000_0000
        + b[i + 6] * 0x1_0000_0000_0000 + b[i + 7] * 0x100_0000_0000_0000) as u64
}

// ---------------------------------------------------------------------------
// Writing specs: the little-endian bytes of a value.
// ---------------------------------------------------------------------------

/// The two little-endian bytes of `v`.
pub open spec fn le_u16_of(v: u16) -> Seq<u8> {
    seq![(v % 0x100) as u8, (v / 0x100) as u8]
}

/// The four little-endian bytes of `v`.
pub open spec fn le_u32_of(v: u32) -> Seq<u8> {
    seq![
        (v % 0x100) as u8,
        ((v / 0x100) % 0x100) as u8,
        ((v / 0x1_0000) % 0x100) as u8,
        (v / 0x100_0000) as u8,
    ]
}

/// The eight little-endian bytes of `v`.
pub open spec fn le_u64_of(v: u64) -> Seq<u8> {
    seq![
        (v % 0x100) as u8,
        ((v / 0x100) % 0x100) as u8,
        ((v / 0x1_0000) % 0x100) as u8,
        ((v / 0x100_0000) % 0x100) as u8,
        ((v / 0x1_0000_0000) % 0x100) as u8,
        ((v / 0x100_0000_0000) % 0x100) as u8,
        ((v / 0x1_0000_0000_0000) % 0x100) as u8,
        (v / 0x100_0000_0000_0000) as u8,
    ]
}

// ---------------------------------------------------------------------------
// Signed values and their unsigned bit patterns (two's complement).
// ---------------------------------------------------------------------------

/// The `i16` whose bit pattern is `v`.
pub open spec fn i16_of_bits(v: u16) -> i16 {
    if v < 0x8000 {
        v as i16
    } else {
        (v - 0x1_0000) as i16
    }
}

/// The bit pattern of `w`.
pub open spec fn bits_of_i16(w: i16) -> u16 {
    if w >= 0 {
        w as u16
    } else {
        (w + 0x1_0000) as u16
    }
}

/// The `i32` whose bit pattern is `v`.
pub open spec fn i32_of_bits(v: u32) -> i32 {
    if v < 0x8000_0000 {
        v as i32
    } else {
        (v - 0x1_0000_0000) as i32
    }
}

/// The bit pattern of `w`.
pub open spec fn bits_of_i32(w: i32) -> u32 {
    if w >= 0 {
        w as u32
    } else {
        (w + 0x1_0000_0000) as u32
    }
}

pub proof fn lemma_i32_bits_round(w: i32)
    ensures
        i32_of_bits(bits_of_i32(w)) == w,
{
}

// ---------------------------------------------------------------------------
// Round-trip lemmas between the reading and writing specs.
// ---------------------------------------------------------------------------

pub proof fn lemma_le_u32_round(v: u32)
    ensures
        le_u32_at(le_u32_of(v), 0) == v,
{
}

pub proof fn lemma_le_u64_round(v: u64)
    ensures
        le_u64_at(le_u64_of(v), 0) == v,
{
    let x = v as int;
    let t1 = x / 0x100;
    let t2 = x / 0x1_0000;
    let t3 = x / 0x100_0000;
    let t4 = x / 0x1_0000_0000;
    let t5 = x / 0x100_0000_0000;
    let t6 = x / 0x1_0000_0000_0000;
    let t7 = x / 0x100_0000_0000_0000;
    vstd::arithmetic::div_mod::lemma_div_denominator(x, 0x100, 0x100);
    vstd::arithmetic::div_mod::lemma_div_denominator(x, 0x1_0000, 0x100);
    vstd::arithmetic::div_mod::lemma_div_denominator(x, 0x100_0000, 0x100);
    vstd::arithmetic::div_mod::lemma_div_denominator(x, 0x1_0000_0000, 0x100);
    vstd::arithmetic::div_mod::lemma_div_denominator(x, 0x100_0000_0000, 0x100);
    vstd::arithmetic::div_mod::lemma_div_denominator(x, 0x1_0000_0000_0000, 0x100);
    assert(t1 / 0x100 == t2 && t2 / 0x100 == t3 && t3 / 0x100 == t4 && t4 / 0x100 == t5 && t5
        / 0x100 == t6 && t6 / 0x100 == t7);
    vstd::arithmetic::div_mod::lemma_fundamental_div_mod(x, 0x100);
    vstd::arithmetic::div_mod::lemma_fundamental_div_mod(t1, 0x100);
    vstd::arithmetic::div_mod::lemma_fundamental_div_mod(t2, 0x100);
    vstd::arithmetic::div_mod::lemma_fundamental_div_mod(t3, 0x100);
    vstd::arithmetic::div_mod::lemma_fundamental_div_mod(t4, 0x100);
    vstd::arithmetic::div_mod::lemma_fundamental_div_mod(t5, 0x100);
    vstd::arithmetic::div_mod::lemma_fundamental_div_mod(t6, 0x100);
    assert(t7 < 0x100);
}

/// Reading back eight bytes that hold the little-endian form of `v` gives `v`.
pub proof fn lemma_le_u64_read(b: Seq<u8>, off: int, v: u64)
    requires
        forall|j: int| 0 <= j < 8 ==> b[off + j] == le_u64_of(v)[j],
    ensures
        le_u64_at(b, off) == v,
{
    lemma_le_u64_round(v);
    assert(b[off + 0] == le_u64_of(v)[0] && b[off + 1] == le_u64_of(v)[1] && b[off + 2]
        == le_u64_of(v)[2] && b[off + 3] == le_u64_of(v)[3] && b[off + 4] == le_u64_of(v)[4] && b[
    off + 5] == le_u64_of(v)[5] && b[off + 6] == le_u64_of(v)[6] && b[off + 7] == le_u64_of(v)[7]);
}

/// A four-byte little-endian value determines each of its bytes.
pub proof fn lemma_le_u32_inj(a: Seq<u8>, b: Seq<u8>, i: int)
    requires
        0 <= i,
        i + 4 <= a.len(),
        i + 4 <= b.len(),
        le_u32_at(a, i) == le_u32_at(b, i),
    ensures
        a[i] == b[i] && a[i + 1] == b[i + 1] && a[i + 2] == b[i + 2] && a[i + 3] == b[i + 3],
{
    let va = le_u32_at(a, i);
    let vb = le_u32_at(b, i);
    assert(a[i] == va % 0x100 && b[i] == vb % 0x100) by (nonlinear_arith)
        requires
            va == a[i] + a[i + 1] * 0x100 + a[i + 2] * 0x1_0000 + a[i + 3] * 0x100_0000,
            vb == b[i] + b[i + 1] * 0x100 + b[i + 2] * 0x1_0000 + b[i + 3] * 0x100_0000,
            a[i] < 0x100 && a[i + 1] < 0x100 && a[i + 2] < 0x100 && a[i + 3] < 0x100,
            b[i] < 0x100 && b[i + 1] < 0x100 && b[i + 2] < 0x100 && b[i + 3] < 0x100,
    ;
    assert((va / 0x100) % 0x100 == a[i + 1] && (vb / 0x100) % 0x100 == b[i + 1])
        by (nonlinear_arith)
        requires
            va == a[i] + a[i + 1] * 0x100 + a[i + 2] * 0x1_0000 + a[i + 3] * 0x100_0000,
            vb == b[i] + b[i + 1] * 0x100 + b[i + 2] * 0x1_0000 + b[i + 3] * 0x100_0000,
            a[i] < 0x100 && a[i + 1] < 0x100 && a[i + 2] < 0x100 && a[i + 3] < 0x100,
            b[i] < 0x100 && b[i + 1] < 0x100 && b[i + 2] < 0x100 && b[i + 3] < 0x100,
    ;
    assert((va / 0x1_0000) % 0x100 == a[i + 2] && (vb / 0x1_0000) % 0x100 == b[i + 2])
        by (nonlinear_arith)
        requires
            va == a[i] + a[i + 1] * 0x100 + a[i + 2] * 0x1_0000 + a[i + 3] * 0x100_0000,
            vb == b[i] + b[i + 1] * 0x100 + b[i + 2] * 0x1_0000 + b[i + 3] * 0x100_0000,
            a[i] < 0x100 && a[i + 1] < 0x100 && a[i + 2] < 0x100 && a[i + 3] < 0x100,
            b[i] < 0x100 && b[i + 1] < 0x100 && b[i + 2] < 0x100 && b[i + 3] < 0x100,
    ;
    assert(va / 0x100_0000 == a[i + 3] && vb / 0x100_0000 == b[i + 3]) by (nonlinear_arith)
        requires
            va == a[i] + a[i + 1] * 0x100 + a[i + 2] * 0x1_0000 + a[i + 3] * 0x100_0000,
            vb == b[i] + b[i + 1] * 0x100 + b[i + 2] * 0x1_0000 + b[i + 3] * 0x100_0000,
            a[i] < 0x100 && a[i + 1] < 0x100 && a[i + 2] < 0x100 && a[i + 3] < 0x100,
            b[i] < 0x100 && b[i + 1] < 0x100 && b[i + 2] < 0x100 && b[i + 3] < 0x100,
    ;
}

/// Reading back four bytes that hold the little-endian form of `v` gives `v`.
pub proof fn lemma_le_u32_read(b: Seq<u8>, off: int, v: u32)
    requires
        forall|j: int| 0 <= j < 4 ==> b[off + j] == le_u32_of(v)[j],
    ensures
        le_u32_at(b, off) == v,
{
    lemma_le_u32_round(v);
    assert(b[off + 0] == le_u32_of(v)[0] && b[off + 1] == le_u32_of(v)[1] && b[off + 2]
        == le_u32_of(v)[2] && b[off + 3] == le_u32_of(v)[3]);
}

// ---------------------------------------------------------------------------
// Executable readers over a byte slice.
// ---------------------------------------------------------------------------

/// Reads the `u16` stored little-endian at `pos`.
pub fn read_u16(buf: &[u8], pos: usize) -> (r: u16)
    requires
        pos + 2 <= buf.len(),
    ensures
        r == le_u16_at(buf@, pos as int),
{
    buf[pos] as u16 + buf[pos + 1] as u16 * 0x100
}

/// Reads the `u32` stored little-endian at `pos`.
pub fn read_u32(buf: &[u8], pos: usize) -> (r: u32)
    requires
        pos + 4 <= buf.len(),
    ensures
        r == le_u32_at(buf@, pos as int),
{
    buf[pos] as u32 + buf[pos + 1] as u32 * 0x100 + buf[pos + 2] as u32 * 0x1_0000
        + buf[pos + 3] as u32 * 0x100_0000
}

/// Reads the `u64` stored little-endian at `pos`.
pub fn read_u64(buf: &[u8], pos: usize) -> (r: u64)
    requires
        pos + 8 <= buf.len(),
    ensures
        r == le_u64_at(buf@, pos as int),
{
    buf[pos] as u64 + buf[pos + 1] as u64 * 0x100 + buf[pos + 2] as u64 * 0x1_0000
        + buf[pos + 3] as u64 * 0x100_0000 + buf[pos + 4] as u64 * 0x1_0000_0000
        + buf[pos + 5] as u64 * 0x100_0000_0000 + buf[pos + 6] as u64 * 0x1_0000_0000_0000
        + buf[pos + 7] as u64 * 0x100_0000_0000_0000
}

/// Reads the `i32` stored little-endian (two's complement) at `pos`.
pub fn read_i32(buf: &[u8], pos: usize) -> (r: i32)
    requires
        pos + 4 <= buf.len(),
    ensures
        r == i32_of_bits(le_u32_at(buf@, pos as int)),
{
    let v = read_u32(buf, pos);
    if v < 0x8000_0000 {
        v as i32
    } else {
        let neg = (0xFFFF_FFFFu32 - v) as i32;
        -neg - 1
    }
}

/// Reads the `i16` stored little-endian (two's complement) at `pos`.
pub fn read_i16(buf: &[u8], pos: usize) -> (r: i16)
    requires
        pos + 2 <= buf.len(),
    ensures
        r == i16_of_bits(le_u16_at(buf@, pos as int)),
{
    let v = read_u16(buf, pos);
    if v < 0x8000 {
        v as i16
    } else {
        let neg = (0xFFFFu16 - v) as i16;
        -neg - 1
    }
}

// ---------------------------------------------------------------------------
// Executable writers appending to a byte vector.
// ---------------------------------------------------------------------------

/// Appends the two little-endian bytes of `v`.
pub fn push_u16(out: &mut Vec<u8>, v: u16)
    ensures
        final(out)@ == old(out)@ + le_u16_of(v),
{
    out.push((v % 0x100) as u8);
    out.push((v / 0x100) as u8);
    assert(out@ =~= old(out)@ + le_u16_of(v));
}

/// Appends the four little-endian bytes of `v`.
pub fn push_u32(out: &mut Vec<u8>, v: u32)
    ensures
        final(out)@ == old(out)@ + le_u32_of(v),
{
    out.push((v % 0x100) as u8);
    out.push(((v / 0x100) % 0x100) as u8);
    out.push(((v / 0x1_0000) % 0x100) as u8);
    out.push((v / 0x100_0000) as u8);
    assert(out@ =~= old(out)@ + le_u32_of(v));
}

/// Appends the eight little-endian bytes of `v`.
pub fn push_u64(out: &mut Vec<u8>, v: u64)
    ensures
        final(out)@ == old(out)@ + le_u64_of(v),
{
    out.push((v % 0x100) as u8);
    out.push(((v / 0x100) % 0x100) as u8);
    out.push(((v / 0x1_0000) % 0x100) as u8);
    out.push(((v / 0x100_0000) % 0x100) as u8);
    out.push(((v / 0x1_0000_0000) % 0x100) as u8);
    out.push(((v / 0x100_0000_0000) % 0x100) as u8);
    out.push(((v / 0x1_0000_0000_0000) % 0x100) as u8);
    out.push((v / 0x100_0000_0000_0000) as u8);
    assert(out@ =~= old(out)@ + le_u64_of(v));
}

/// Appends the four little-endian bytes of the bit pattern of `w`.
pub fn push_i32(out: &mut Vec<u8>, w: i32)
    ensures
        final(out)@ == old(out)@ + le_u32_of(bits_of_i32(w)),
{
    let v: u32 = if w >= 0 {
        w as u32
    } else {
        ((w as i64) + 0x1_0000_0000i64) as u32
    };
    push_u32(out, v);
}

/// Appends the two little-endian bytes of the bit pattern of `w`.
pub fn push_i16(out: &mut Vec<u8>, w: i16)
    ensures
        final(out)@ == old(out)@ + le_u16_of(bits_of_i16(w)),
{
    let v: u16 = if w >= 0 {
        w as u16
    } else {
        ((w as i32) + 0x1_0000i32) as u16
    };
    push_u16(out, v);
}

} // verus!
