//! The keystream cipher that obfuscates best-times tables and the state
//! database: every byte of a region is XORed with a mask drawn from a small
//! state machine over two 16-bit seeds, stepped with wrapping arithmetic.
//! Applying the same transform twice restores the original bytes.

use vstd::prelude::*;

use crate::bytes::bits_of_i16;

verus! {

/// Modulus of the cipher used for best-times regions of level files.
pub const TOP10_MODULUS: i16 = 0xD3D;

/// First seed of the best-times cipher.
pub const TOP10_SEED_A: i16 = 0x15;

/// Second seed of the best-times cipher.
pub const TOP10_SEED_B: i16 = 0x2637;

/// Modulus of the cipher used for the state database.
pub const STATE_MODULUS: i16 = 0xD3F;

/// First seed of the state cipher.
pub const STATE_SEED_A: i16 = 0x17;

/// Second seed of the state cipher.
pub const STATE_SEED_B: i16 = 0x2636;

/// Size of one player's best-times block in a level file.
pub const PLAYER_TOP10_SIZE: usize = 344;

/// Size of the whole best-times region of a level file.
pub const TOP10_SIZE: usize = 688;

/// Rust's truncated remainder on `i16` values: the sign follows the dividend.
pub open spec fn rem_i16(x: i16, d: i16) -> int
    recommends
        d > 0,
{
    if x >= 0 {
        (x as int) % (d as int)
    } else {
        -((-(x as int)) % (d as int))
    }
}

/// One step of the seed-state machine: the next second seed.
pub open spec fn step_b(a: i16, b: i16, m: i16) -> i16
    recommends
        m > 0,
{
    vstd::wrapping::i16_specs::wrapping_add(
        b,
        vstd::wrapping::i16_specs::wrapping_mul(rem_i16(a, m) as i16, m),
    )
}

/// One step of the seed-state machine: the next first seed.
pub open spec fn step_a(b2: i16, m: i16) -> i16 {
    vstd::wrapping::i16_specs::wrapping_add(
        vstd::wrapping::i16_specs::wrapping_mul(b2, 0x1F),
        m,
    )
}

/// The seed state after `n` steps from `(a0, b0)`.
pub open spec fn seed_state(a0: i16, b0: i16, m: i16, n: nat) -> (i16, i16)
    decreases n,
{
    if n == 0 {
        (a0, b0)
    } else {
        let (a, b) = seed_state(a0, b0, m, (n - 1) as nat);
        let b2 = step_b(a, b, m);
        (step_a(b2, m), b2)
    }
}

/// The mask XORed onto the byte at index `n` of a region.
pub open spec fn mask_at(a0: i16, b0: i16, m: i16, n: nat) -> u8 {
    (bits_of_i16(seed_state(a0, b0, m, n).0) % 0x100) as u8
}

/// The cipher of `d`: the first `count` bytes XORed with the keystream,
/// the rest unchanged.
pub open spec fn crypt_seq(d: Seq<u8>, a0: i16, b0: i16, m: i16, count: int) -> Seq<u8> {
    Seq::new(d.len(), |i: int| if i < count { d[i] ^ mask_at(a0, b0, m, i as nat) } else { d[i] })
}

/// The best-times cipher over a whole 688-byte region.
pub open spec fn crypt_top10_seq(d: Seq<u8>) -> Seq<u8> {
    crypt_seq(d, TOP10_SEED_A, TOP10_SEED_B, TOP10_MODULUS, TOP10_SIZE as int)
}

/// Executable step of the seed-state machine.
fn seed_step(a: i16, b: i16, m: i16) -> (r: (i16, i16))
    requires
        m > 0,
    ensures
        r.1 == step_b(a, b, m),
        r.0 == step_a(r.1, m),
{
    let rem: i16 = match a.checked_rem(m) {
        Some(v) => v,
        Option::None => 0,  // unreachable: m > 0
    };
    assert(rem == rem_i16(a, m));
    let b2 = b.wrapping_add(rem.wrapping_mul(m));
    let a2 = b2.wrapping_mul(0x1F).wrapping_add(m);
    (a2, b2)
}

/// XORs the bytes of `buf` in the range `[start, start + count)` with the
/// keystream seeded by `(a0, b0)` over modulus `m`; bytes outside the range
/// are untouched. The transform is its own inverse (`lemma_crypt_involution`).
pub fn crypt_range(buf: &mut Vec<u8>, start: usize, count: usize, a0: i16, b0: i16, m: i16)
    requires
        m > 0,
        start + count <= old(buf).len(),
    ensures
        final(buf)@.len() == old(buf)@.len(),
        forall|j: int|
            start <= j < start + count ==> final(buf)@[j] == (old(buf)@[j] ^ mask_at(
                a0,
                b0,
                m,
                (j - start) as nat,
            )),
        forall|j: int|
            0 <= j < old(buf)@.len() && !(start <= j < start + count) ==> final(buf)@[j] == old(
                buf,
            )@[j],
{
    let mut a = a0;
    let mut b = b0;
    let mut i: usize = 0;
    while i < count
        invariant
            m > 0,
            i <= count,
            start + count <= buf.len(),
            buf@.len() == old(buf)@.len(),
            (a, b) == seed_state(a0, b0, m, i as nat),
            forall|j: int|
                start <= j < start + i ==> buf@[j] == (old(buf)@[j] ^ mask_at(
                    a0,
                    b0,
                    m,
                    (j - start) as nat,
                )),
            forall|j: int|
                0 <= j < old(buf)@.len() && !(start <= j < start + i) ==> buf@[j] == old(buf)@[j],
        decreases count - i,
    {
        let x = buf[start + i];
        let masked = x ^ ((bits_of_i16_exec(a) % 0x100) as u8);
        assert(masked == old(buf)@[start + i as int] ^ mask_at(a0, b0, m, i as nat));
        buf.set(start + i, masked);
        let next = seed_step(a, b, m);
        a = next.0;
        b = next.1;
        assert((a, b) == seed_state(a0, b0, m, (i + 1) as nat));
        i += 1;
    }
}

/// The bit pattern of `w` as an executable function.
pub fn bits_of_i16_exec(w: i16) -> (r: u16)
    ensures
        r == bits_of_i16(w),
{
    if w >= 0 {
        w as u16
    } else {
        ((w as i32) + 0x1_0000i32) as u16
    }
}

/// Decrypt and encrypt best-times data of a level file. Same transform in
/// both directions: the first 688 bytes are XORed with the keystream seeded
/// by `(0x15, 0x2637)` over modulus `0xD3D`; any bytes beyond are copied
/// unchanged.
pub fn crypt_top10(top10_data: &[u8]) -> (r: Vec<u8>)
    ensures
        r@ == crypt_top10_seq(top10_data@),
{
    let mut out: Vec<u8> = Vec::new();
    let mut i: usize = 0;
    while i < top10_data.len()
        invariant
            i <= top10_data.len(),
            out@.len() == i,
            forall|j: int| 0 <= j < i ==> out@[j] == top10_data@[j],
        decreases top10_data.len() - i,
    {
        out.push(top10_data[i]);
        i += 1;
    }
    let n = if top10_data.len() < TOP10_SIZE {
        top10_data.len()
    } else {
        TOP10_SIZE
    };
    crypt_range(&mut out, 0, n, TOP10_SEED_A, TOP10_SEED_B, TOP10_MODULUS);
    assert(out@ =~= crypt_top10_seq(top10_data@));
    out
}

/// XORing a byte twice with the same mask gives the byte back.
proof fn lemma_xor_twice(x: u8, k: u8)
    ensures
        (x ^ k) ^ k == x,
{
    assert((x ^ k) ^ k == x) by (bit_vector);
}

/// The cipher is an involution: applying it twice with the same seeds and
/// the same count restores the original bytes, whatever they hold.
pub proof fn lemma_crypt_involution(d: Seq<u8>, a0: i16, b0: i16, m: i16, count: int)
    ensures
        crypt_seq(crypt_seq(d, a0, b0, m, count), a0, b0, m, count) =~= d,
{
    let once = crypt_seq(d, a0, b0, m, count);
    let twice = crypt_seq(once, a0, b0, m, count);
    assert forall|i: int| 0 <= i < d.len() implies twice[i] == d[i] by {
        if i < count {
            lemma_xor_twice(d[i], mask_at(a0, b0, m, i as nat));
        }
    }
}

} // verus!
