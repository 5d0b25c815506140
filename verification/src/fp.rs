//! IEEE 754 double-precision arithmetic carried out exactly on bit
//! patterns with integer operations. The level format stores element counts
//! and integrity sums as doubles, and replay timing multiplies doubles, so
//! the codecs need the exact rounding behaviour of the stored values; this
//! module computes it in verified integer code instead of machine floats.

use vstd::arithmetic::power2::pow2;
use vstd::prelude::*;

verus! {

/// The number of binary digits of `v`: zero for zero.
pub open spec fn bitlen(v: nat) -> nat
    decreases v,
{
    if v == 0 {
        0
    } else {
        1 + bitlen(v / 2)
    }
}

pub proof fn lemma_bitlen_bounds(v: nat)
    requires
        v > 0,
    ensures
        pow2((bitlen(v) - 1) as nat) <= v < pow2(bitlen(v)),
    decreases v,
{
    vstd::arithmetic::power2::lemma_pow2_unfold(bitlen(v));
    if v == 1 {
        assert(bitlen(1nat) == 1) by {
            reveal_with_fuel(bitlen, 2);
        }
        vstd::arithmetic::power2::lemma2_to64();
    } else {
        lemma_bitlen_bounds(v / 2);
        vstd::arithmetic::power2::lemma_pow2_unfold((bitlen(v) - 1) as nat);
    }
}

pub proof fn lemma_bitlen_of_range(v: nat, len: nat)
    requires
        len > 0,
        pow2((len - 1) as nat) <= v < pow2(len),
    ensures
        bitlen(v) == len,
    decreases len,
{
    vstd::arithmetic::power2::lemma_pow2_unfold(len);
    if len == 1 {
        vstd::arithmetic::power2::lemma2_to64();
        assert(v == 1);
        assert(bitlen(1nat) == 1) by {
            reveal_with_fuel(bitlen, 2);
        }
    } else {
        vstd::arithmetic::power2::lemma_pow2_unfold((len - 1) as nat);
        vstd::arithmetic::power2::lemma_pow2_pos((len - 2) as nat);
        assert(pow2((len - 2) as nat) <= v / 2 < pow2((len - 1) as nat));
        lemma_bitlen_of_range(v / 2, (len - 1) as nat);
        assert(v > 0);
    }
}


/// Values of the larger powers of two these algorithms touch, composed
/// from the 64-bit table.
pub proof fn lemma_pow2_large()
    ensures
        pow2(107) == pow2(53) * pow2(54),
        pow2(108) == pow2(53) * pow2(55),
        pow2(118) == pow2(54) * pow2(64),
        pow2(119) == pow2(55) * pow2(64),
        pow2(120) == pow2(56) * pow2(64),
        pow2(127) == pow2(63) * pow2(64),
        pow2(128) == pow2(64) * pow2(64),
        pow2(119) + pow2(53) <= pow2(120),
        pow2(108) < pow2(127),
        pow2(119) < pow2(127),
{
    vstd::arithmetic::power2::lemma_pow2_adds(53, 54);
    vstd::arithmetic::power2::lemma_pow2_adds(53, 55);
    vstd::arithmetic::power2::lemma_pow2_adds(54, 64);
    vstd::arithmetic::power2::lemma_pow2_adds(55, 64);
    vstd::arithmetic::power2::lemma_pow2_adds(56, 64);
    vstd::arithmetic::power2::lemma_pow2_adds(63, 64);
    vstd::arithmetic::power2::lemma_pow2_adds(64, 64);
    vstd::arithmetic::power2::lemma_pow2_strictly_increases(108, 127);
    vstd::arithmetic::power2::lemma_pow2_strictly_increases(119, 127);
    vstd::arithmetic::power2::lemma2_to64();
    vstd::arithmetic::power2::lemma2_to64_rest();
    assert(pow2(119) + pow2(53) <= pow2(120)) by (nonlinear_arith)
        requires
            pow2(119) == pow2(55) * pow2(64),
            pow2(120) == pow2(56) * pow2(64),
            pow2(53) <= pow2(64),
            pow2(55) + 1 <= pow2(56),
            pow2(64) > 0,
            pow2(53) > 0,
    ;
}

/// Executable power of two.
pub fn pow2_u128(k: usize) -> (r: u128)
    requires
        k < 128,
    ensures
        r == pow2(k as nat),
{
    let mut i: usize = 0;
    let mut acc: u128 = 1;
    proof {
        vstd::arithmetic::power2::lemma2_to64();
    }
    while i < k
        invariant
            i <= k < 128,
            acc == pow2(i as nat),
        decreases k - i,
    {
        proof {
            vstd::arithmetic::power2::lemma_pow2_unfold((i + 1) as nat);
            if (i + 1) < 127 {
                vstd::arithmetic::power2::lemma_pow2_strictly_increases((i + 1) as nat, 127);
            }
            vstd::arithmetic::power2::lemma2_to64_rest();
            lemma_pow2_large();
            assert(pow2(127) == pow2(63) * pow2(64));
        }
        acc = acc * 2;
        i += 1;
    }
    acc
}

/// Executable bit length.
pub fn bitlen_u128(v: u128) -> (r: usize)
    ensures
        r == bitlen(v as nat),
        r <= 128,
{
    let mut x = v;
    let mut len: usize = 0;
    proof {
        lemma_bitlen_le_128(v as nat);
    }
    while x > 0
        invariant
            len + bitlen(x as nat) == bitlen(v as nat),
            bitlen(v as nat) <= 128,
            len <= 128,
        decreases x,
    {
        x = x / 2;
        len += 1;
    }
    len
}

proof fn lemma_bitlen_le_128(v: nat)
    ensures
        v < 0x1_0000_0000_0000_0000_0000_0000_0000_0000nat ==> bitlen(v) <= 128,
{
    if v > 0 && v < 0x1_0000_0000_0000_0000_0000_0000_0000_0000nat {
        lemma_bitlen_bounds(v);
        if bitlen(v) > 128 {
            vstd::arithmetic::power2::lemma_pow2_adds(128, (bitlen(v) - 129) as nat);
            vstd::arithmetic::power2::lemma2_to64_rest();
            lemma_pow2_large();
            vstd::arithmetic::power2::lemma_pow2_pos((bitlen(v) - 129) as nat);
            assert(pow2((bitlen(v) - 1) as nat) >= pow2(128)) by {
                if bitlen(v) - 1 > 128 {
                    vstd::arithmetic::power2::lemma_pow2_strictly_increases(
                        128,
                        (bitlen(v) - 1) as nat,
                    );
                }
            }
        }
    }
}

// ---------------------------------------------------------------------------
// Fields of a double's bit pattern.
// ---------------------------------------------------------------------------

/// The sign bit of a double's bit pattern.
pub open spec fn fp_sign(bits: u64) -> bool {
    bits / 0x8000_0000_0000_0000u64 == 1
}

/// The biased exponent field of a double's bit pattern.
pub open spec fn fp_exp(bits: u64) -> u64 {
    (bits / 0x10_0000_0000_0000u64) % 0x800u64
}

/// The mantissa field of a double's bit pattern.
pub open spec fn fp_frac(bits: u64) -> u64 {
    bits % 0x10_0000_0000_0000u64
}

/// Whether the bit pattern is a NaN.
pub open spec fn fp_is_nan(bits: u64) -> bool {
    fp_exp(bits) == 0x7FF && fp_frac(bits) != 0
}

/// Whether the bit pattern is an infinity.
pub open spec fn fp_is_inf(bits: u64) -> bool {
    fp_exp(bits) == 0x7FF && fp_frac(bits) == 0
}

/// The magnitude bits: everything but the sign.
pub open spec fn fp_mag(bits: u64) -> u64 {
    bits % 0x8000_0000_0000_0000u64
}

/// The significand of a finite double, over the uniform scale
/// `2^(exponent - 1075)` with exponent 1 for both subnormals and the
/// smallest normals.
pub open spec fn fp_mant(bits: u64) -> u64 {
    if fp_exp(bits) == 0 {
        fp_frac(bits)
    } else {
        (fp_frac(bits) + 0x10_0000_0000_0000) as u64
    }
}

/// The uniform exponent of a finite double: `fp_mant(bits) * 2^(fp_uexp(bits) - 1075)`.
pub open spec fn fp_uexp(bits: u64) -> u64 {
    if fp_exp(bits) == 0 {
        1
    } else {
        fp_exp(bits)
    }
}

/// Builds the bit pattern from sign, biased exponent field and mantissa field.
pub open spec fn fp_bits_of(sign: bool, e: u64, frac: u64) -> u64
    recommends
        e < 0x800,
        frac < 0x10_0000_0000_0000,
{
    ((if sign {
        0x8000_0000_0000_0000u64
    } else {
        0u64
    }) + e * 0x10_0000_0000_0000 + frac) as u64
}

/// The canonical quiet NaN this library produces.
pub const QNAN_BITS: u64 = 0x7FF8_0000_0000_0000;

/// The bit pattern of positive infinity.
pub const INF_BITS: u64 = 0x7FF0_0000_0000_0000;

/// Splits a double's bit pattern into its sign, biased exponent and
/// mantissa fields.
pub fn fp_split(bits: u64) -> (r: (bool, u64, u64))
    ensures
        r.0 == fp_sign(bits),
        r.1 == fp_exp(bits),
        r.2 == fp_frac(bits),
{
    (
        bits / 0x8000_0000_0000_0000 == 1,
        (bits / 0x10_0000_0000_0000) % 0x800,
        bits % 0x10_0000_0000_0000,
    )
}

/// Assembles a double's bit pattern.
pub fn fp_build(sign: bool, e: u64, frac: u64) -> (r: u64)
    requires
        e < 0x800,
        frac < 0x10_0000_0000_0000,
    ensures
        r == fp_bits_of(sign, e, frac),
{
    (if sign {
        0x8000_0000_0000_0000u64
    } else {
        0u64
    }) + e * 0x10_0000_0000_0000 + frac
}

} // verus!

verus! {

// ---------------------------------------------------------------------------
// Count sentinels: an element count stored as the double `n + c` for a
// fixed fractional constant `c = mc / 2^cs` in (0, 1/2), recovered by
// subtracting `c` and rounding.
// ---------------------------------------------------------------------------

/// Whether `(mc, cs)` describes a sentinel constant: a 53-bit odd-scaled
/// mantissa over `2^cs`, giving a constant strictly between 0 and 1/2.
pub open spec fn sentinel_ok(mc: u64, cs: nat) -> bool {
    &&& pow2(52) <= mc < pow2(53)
    &&& 54 <= cs <= 55
    &&& mc < pow2((cs - 1) as nat)
}

/// The bit pattern of the double nearest to `n + c`, ties to even: what
/// writing the count `n` stores.
#[verifier::opaque]
pub open spec fn count_to_bits(n: u64, mc: u64, cs: nat) -> u64
    recommends
        sentinel_ok(mc, cs),
{
    let v = n * pow2(cs) + mc;
    let l = bitlen(v as nat);
    let shift = (l - 53) as nat;
    let q0 = v as nat / pow2(shift);
    let rem = v as nat % pow2(shift);
    let up = shift >= 1 && (rem > pow2((shift - 1) as nat) || (rem == pow2((shift - 1) as nat)
        && q0 % 2 == 1));
    let q = if up {
        q0 + 1
    } else {
        q0
    };
    let q2 = if q == pow2(53) {
        pow2(52)
    } else {
        q
    };
    let l2 = if q == pow2(53) {
        l + 1
    } else {
        l
    };
    fp_bits_of(false, (l2 + 1022 - cs) as u64, (q2 - pow2(52)) as u64)
}

/// The count recovered from a stored double: the exact rational value of
/// `bits` minus `c`, rounded half away from zero, clamped to `u64` counts;
/// a NaN or a negative value gives zero.
#[verifier::opaque]
pub open spec fn count_of_bits(bits: u64, mc: u64, cs: nat) -> u64
    recommends
        sentinel_ok(mc, cs),
{
    if fp_is_nan(bits) || fp_sign(bits) {
        0
    } else if fp_is_inf(bits) {
        u64::MAX
    } else {
        let m = fp_mant(bits) as nat;
        let e = fp_uexp(bits) as int;
        if m == 0 {
            0
        } else if e >= 1075 {
            if e - 1075 >= 12 {
                u64::MAX
            } else {
                (m * pow2((e - 1075) as nat)) as u64
            }
        } else {
            let sh = (1075 - e) as nat;
            if sh >= 54 {
                0
            } else {
                let t = if sh >= cs {
                    sh
                } else {
                    cs
                };
                let v = (m * pow2((t - sh) as nat)) as int;
                let d = ((pow2((cs - 1) as nat) - mc) * pow2((t - cs) as nat)) as int;
                (((v + d) / (pow2(t) as int)) as u64)
            }
        }
    }
}

/// No value with fewer than `k` bits has bit length above `k`.
pub proof fn lemma_bitlen_le(v: nat, k: nat)
    requires
        v < pow2(k),
    ensures
        bitlen(v) <= k,
{
    if v > 0 {
        lemma_bitlen_bounds(v);
        if bitlen(v) > k {
            if bitlen(v) - 1 > k {
                vstd::arithmetic::power2::lemma_pow2_strictly_increases(k, (bitlen(v) - 1) as nat);
            }
            assert(pow2((bitlen(v) - 1) as nat) >= pow2(k));
        }
    }
}

/// Writes the count `n` as the stored double's bit pattern.
pub fn count_encode(n: u64, mc: u64, cs: usize) -> (r: u64)
    requires
        sentinel_ok(mc, cs as nat),
    ensures
        r == count_to_bits(n, mc, cs as nat),
{
    proof {
        reveal(count_to_bits);
        vstd::arithmetic::power2::lemma2_to64();
        vstd::arithmetic::power2::lemma2_to64_rest();
        lemma_pow2_large();
        if (cs as nat) < 55 {
            vstd::arithmetic::power2::lemma_pow2_strictly_increases(cs as nat, 55);
        }
    }
    let p_cs = pow2_u128(cs);
    proof {
        assert((n as nat) * (p_cs as nat) <= 0xFFFF_FFFF_FFFF_FFFFnat * pow2(55))
            by (nonlinear_arith)
            requires
                (p_cs as nat) <= pow2(55),
                (n as nat) <= 0xFFFF_FFFF_FFFF_FFFFnat,
    ;
        assert(0xFFFF_FFFF_FFFF_FFFFnat * pow2(55) < pow2(64) * pow2(55)) by (nonlinear_arith)
            requires
                pow2(55) > 0,
                0xFFFF_FFFF_FFFF_FFFFnat < pow2(64),
    ;
        assert(pow2(64) * pow2(55) == pow2(119)) by {
            vstd::arithmetic::power2::lemma_pow2_adds(64, 55);
        }
        assert(pow2(119) < pow2(127));
    }
    let v: u128 = (n as u128) * p_cs + (mc as u128);
    proof {
        assert(v < pow2(119) + pow2(53));
        lemma_bitlen_le(v as nat, 120);
        assert(pow2(119) + pow2(53) <= pow2(120));
    }
    let l = bitlen_u128(v);
    proof {
        lemma_bitlen_bounds(v as nat);
        if l <= 52 {
            vstd::arithmetic::power2::lemma_pow2_strictly_increases(l as nat, 53);
            assert(v >= mc >= pow2(52));
            assert(false);
        }
    }
    let shift = l - 53;
    let p_shift = pow2_u128(shift);
    proof {
        vstd::arithmetic::power2::lemma_pow2_pos(shift as nat);
    }
    let q0 = v / p_shift;
    let rem = v % p_shift;
    proof {
        vstd::arithmetic::div_mod::lemma_fundamental_div_mod(v as int, p_shift as int);
        assert(v < pow2(l as nat));
        assert(pow2(l as nat) == pow2(shift as nat) * pow2(53)) by {
            vstd::arithmetic::power2::lemma_pow2_adds(shift as nat, 53);
        }
        assert(v >= pow2((l - 1) as nat));
        assert(pow2((l - 1) as nat) == pow2(shift as nat) * pow2(52)) by {
            vstd::arithmetic::power2::lemma_pow2_adds(shift as nat, 52);
        }
        assert(q0 < pow2(53) && q0 >= pow2(52)) by (nonlinear_arith)
            requires
                q0 == (v as nat) / (p_shift as nat),
                p_shift > 0,
                (v as nat) < (p_shift as nat) * pow2(53),
                (v as nat) >= (p_shift as nat) * pow2(52),
    ;
    }
    let up: bool = if shift >= 1 {
        let half = pow2_u128(shift - 1);
        rem > half || (rem == half && q0 % 2 == 1)
    } else {
        false
    };
    let q: u128 = if up {
        q0 + 1
    } else {
        q0
    };
    let q2: u128;
    let l2: usize;
    if q == 0x20_0000_0000_0000u128 {
        q2 = 0x10_0000_0000_0000u128;
        l2 = l + 1;
    } else {
        q2 = q;
        l2 = l;
    }
    assert(q2 >= pow2(52) && q2 < pow2(53));
    assert(l2 + 1022 >= cs + 53);
    let e_field = (l2 + 1022 - cs) as u64;
    assert(e_field < 0x800);
    fp_build(false, e_field, (q2 - 0x10_0000_0000_0000u128) as u64)
}

/// Reads the count back from a stored double's bit pattern.
pub fn count_decode(bits: u64, mc: u64, cs: usize) -> (r: u64)
    requires
        sentinel_ok(mc, cs as nat),
    ensures
        r == count_of_bits(bits, mc, cs as nat),
{
    proof {
        reveal(count_of_bits);
        vstd::arithmetic::power2::lemma2_to64();
        vstd::arithmetic::power2::lemma2_to64_rest();
        lemma_pow2_large();
    }
    let (sign, e_field, frac) = fp_split(bits);
    if e_field == 0x7FF && frac != 0 {
        return 0;
    }
    if sign {
        return 0;
    }
    if e_field == 0x7FF {
        return u64::MAX;
    }
    let m: u64 = if e_field == 0 {
        frac
    } else {
        frac + 0x10_0000_0000_0000
    };
    let e: u64 = if e_field == 0 {
        1
    } else {
        e_field
    };
    if m == 0 {
        return 0;
    }
    if e >= 1075 {
        let p = (e - 1075) as usize;
        if p >= 12 {
            return u64::MAX;
        }
        proof {
            if p < 11 {
                vstd::arithmetic::power2::lemma_pow2_strictly_increases(p as nat, 11);
            }
            vstd::arithmetic::power2::lemma_pow2_adds(53, 11);
            assert((m as nat) * pow2(p as nat) < pow2(53) * pow2(11)) by (nonlinear_arith)
                requires
                    (m as nat) < pow2(53),
                    pow2(p as nat) <= pow2(11),
                    pow2(11) > 0,
    ;
        }
        let prod = (m as u128) * pow2_u128(p);
        assert(prod < pow2(64));
        return prod as u64;
    }
    let sh = (1075 - e) as usize;
    if sh >= 54 {
        return 0;
    }
    let t: usize = if sh >= cs {
        sh
    } else {
        cs
    };
    proof {
        assert(t <= 55);
        if (t - sh) < 55 {
            vstd::arithmetic::power2::lemma_pow2_strictly_increases((t - sh) as nat, 55);
        }
        assert((m as nat) * pow2((t - sh) as nat) < pow2(53) * pow2(55)) by (nonlinear_arith)
            requires
                (m as nat) < pow2(53),
                pow2((t - sh) as nat) <= pow2(55),
                pow2(55) > 0,
    ;
        vstd::arithmetic::power2::lemma_pow2_adds(53, 55);
        assert(pow2(108) < pow2(127));
        if (t - cs) < 1 {
            vstd::arithmetic::power2::lemma_pow2_strictly_increases((t - cs) as nat, 1);
        }
        if (cs - 1) < 54 {
            vstd::arithmetic::power2::lemma_pow2_strictly_increases((cs - 1) as nat, 54);
        }
    }
    let v: u128 = (m as u128) * pow2_u128(t - sh);
    let pd = pow2_u128(cs - 1);
    assert((mc as u128) < pd);
    let ptc = pow2_u128(t - cs);
    proof {
        assert(ptc <= 2);
        assert((pd - mc) * (ptc as nat) <= pow2(54) * 2) by (nonlinear_arith)
            requires
                pd >= mc,
                (pd as nat) <= pow2(54),
                (ptc as nat) <= 2,
    ;
        assert(pow2(54) * 2 < pow2(127));
    }
    let d: u128 = (pd - (mc as u128)) * ptc;
    let num = v + d;
    let pt = pow2_u128(t);
    proof {
        vstd::arithmetic::power2::lemma_pow2_pos(t as nat);
        if t < 54 {
            vstd::arithmetic::power2::lemma_pow2_strictly_increases(t as nat, 54);
        }
        assert((num as nat) / (pt as nat) < pow2(64)) by (nonlinear_arith)
            requires
                (num as nat) < pow2(108) + 2 * pow2(54),
                (pt as nat) >= pow2(54),
                pt > 0,
                pow2(108) + 2 * pow2(54) <= pow2(54) * pow2(64),
    ;
        assert(pow2(54) * pow2(64) == pow2(118)) by {
            vstd::arithmetic::power2::lemma_pow2_adds(54, 64);
        }
        assert(pow2(108) + 2 * pow2(54) <= pow2(118)) by (nonlinear_arith)
            requires
                pow2(108) == pow2(53) * pow2(55),
                pow2(118) == pow2(54) * pow2(64),
                pow2(53) * pow2(55) + 2 * pow2(54) <= pow2(54) * pow2(64),
    ;
        assert(pow2(53) * pow2(55) + 2 * pow2(54) <= pow2(54) * pow2(64)) by (nonlinear_arith)
            requires
                pow2(53) == 0x20000000000000nat,
                pow2(54) == 0x40000000000000nat,
                pow2(55) == 0x80000000000000nat,
                pow2(64) == 0x10000000000000000nat,
    ;
    }
    let r = num / pt;
    assert(r < pow2(64));
    r as u64
}

} // verus!

verus! {

// ---------------------------------------------------------------------------
// IEEE 754 double arithmetic on bit patterns: rounding helper shared by
// addition and multiplication.
// ---------------------------------------------------------------------------

/// Round-to-nearest-even of an exact non-negative significand `s` carrying
/// a sticky flag (dropped bits strictly below the last place), at uniform
/// exponent `q0` (value `s * 2^(q0 - 1075)`), packed with the given sign.
/// `q0` may be negative, far below the subnormal range.
#[verifier::opaque]
pub open spec fn fp_round_pack(sign: bool, s: nat, st: bool, q0: int) -> u64 {
    if s == 0 {
        fp_bits_of(sign, 0, 0)
    } else {
        let l = bitlen(s) as int;
        let want = if l - 53 >= 1 - q0 {
            l - 53
        } else {
            1 - q0
        };
        let rs = if want >= 0 {
            want
        } else {
            0
        };
        let q = s / pow2(rs as nat);
        let rem = s % pow2(rs as nat);
        let half = pow2(rs as nat) / 2;
        let up = rs >= 1 && (rem > half || (rem == half && st) || (rem == half && !st && q % 2
            == 1));
        let q1 = if up {
            q + 1
        } else {
            q
        };
        let lift = if want < 0 {
            (s * pow2((0 - want) as nat), 0 - want)
        } else {
            (q1, 0int)
        };
        let m2 = lift.0;
        let e2 = q0 + want;
        let fin = if m2 == pow2(53) {
            (pow2(52), e2 + 1)
        } else {
            (m2, e2)
        };
        if fin.1 >= 0x7FF {
            fp_bits_of(sign, 0x7FF, 0)
        } else if fin.0 < pow2(52) {
            fp_bits_of(sign, 0, fin.0 as u64)
        } else {
            fp_bits_of(sign, fin.1 as u64, (fin.0 - pow2(52)) as u64)
        }
    }
}

/// Executable form of `fp_round_pack`, for significands below `2^108` and
/// exponents in the range addition and multiplication produce.
pub fn fp_round_pack_exec(sign: bool, s: u128, st: bool, q0: i32) -> (r: u64)
    requires
        s < pow2(108),
        -2400 <= q0 <= 3100,
    ensures
        r == fp_round_pack(sign, s as nat, st, q0 as int),
{
    proof {
        vstd::arithmetic::power2::lemma2_to64();
        vstd::arithmetic::power2::lemma2_to64_rest();
        lemma_pow2_large();
    }
    proof {
        reveal(fp_round_pack);
    }
    if s == 0 {
        return fp_build(sign, 0, 0);
    }
    let l = bitlen_u128(s) as i32;
    proof {
        lemma_bitlen_le(s as nat, 108);
        lemma_bitlen_bounds(s as nat);
    }
    let want: i32 = if l - 53 >= 1 - q0 {
        l - 53
    } else {
        1 - q0
    };
    if want >= 109 {
        // The whole significand is below half of the least slot: rounds to
        // a signed zero, as rem < half always.
        proof {
            let rs = want as int;
            vstd::arithmetic::power2::lemma_pow2_strictly_increases(108, rs as nat);
            vstd::arithmetic::power2::lemma_pow2_pos(rs as nat);
            assert((s as nat) / pow2(rs as nat) == 0) by (nonlinear_arith)
                requires
                    (s as nat) < pow2(rs as nat),
                    pow2(rs as nat) > 0,
    ;
            assert((s as nat) % pow2(rs as nat) == s) by (nonlinear_arith)
                requires
                    (s as nat) < pow2(rs as nat),
                    pow2(rs as nat) > 0,
    ;
            // rem == s < 2^108 <= half == 2^(rs-1)
            vstd::arithmetic::power2::lemma_pow2_unfold(rs as nat);
            assert(pow2(rs as nat) / 2 == pow2((rs - 1) as nat));
            if 108 < rs - 1 {
                vstd::arithmetic::power2::lemma_pow2_strictly_increases(108, (rs - 1) as nat);
            }
            assert((s as nat) < pow2((rs - 1) as nat));
            let e2 = q0 + want;
            assert(fp_round_pack(sign, s as nat, st, q0 as int) == fp_bits_of(sign, 0, 0));
        }
        return fp_build(sign, 0, 0);
    }
    let rs: i32 = if want >= 0 {
        want
    } else {
        0
    };
    let p_rs = pow2_u128(rs as usize);
    proof {
        vstd::arithmetic::power2::lemma_pow2_pos(rs as nat);
    }
    let q = s / p_rs;
    let rem = s % p_rs;
    let half = p_rs / 2;
    let up: bool = rs >= 1 && (rem > half || (rem == half && st) || (rem == half && !st && q % 2
        == 1));
    let q1: u128 = if up {
        q + 1
    } else {
        q
    };
    proof {
        assert(q <= s);
        vstd::arithmetic::div_mod::lemma_fundamental_div_mod(s as int, p_rs as int);
        assert(q * p_rs <= s) by (nonlinear_arith)
            requires
                q == (s as nat) / (p_rs as nat),
                p_rs > 0,
    ;
    }
    let m2: u128;
    if want < 0 {
        let p_lift = pow2_u128((0 - want) as usize);
        proof {
            // s has fewer than 53 bits here, and the lift keeps it under 2^53.
            assert(l - 53 <= want);
            assert((s as nat) < pow2((l) as nat));
            assert((s as nat) * pow2((0 - want) as nat) < pow2(53)) by {
                vstd::arithmetic::power2::lemma_pow2_adds(l as nat, (0 - want) as nat);
                assert((s as nat) * pow2((0 - want) as nat) < pow2(l as nat) * pow2(
                    (0 - want) as nat,
                )) by (nonlinear_arith)
                    requires
                        (s as nat) < pow2(l as nat),
                        pow2((0 - want) as nat) > 0,
    ;
                if (l + (0 - want)) < 53 {
                    vstd::arithmetic::power2::lemma_pow2_strictly_increases(
                        (l + (0 - want)) as nat,
                        53,
                    );
                }
                assert(l + (0 - want) <= 53);
            }
        }
        m2 = s * p_lift;
    } else {
        m2 = q1;
    }
    proof {
        assert(m2 <= pow2(53)) by {
            if want >= 0 {
                // q has at most 53 bits, so q1 is at most 2^53.
                assert(pow2(l as nat) <= p_rs * pow2(53)) by {
                    assert(l - 53 <= rs);
                    vstd::arithmetic::power2::lemma_pow2_adds(rs as nat, 53);
                    if (l as nat) < rs + 53 {
                        vstd::arithmetic::power2::lemma_pow2_strictly_increases(
                            l as nat,
                            (rs + 53) as nat,
                        );
                    }
                }
                assert(q < pow2(53)) by (nonlinear_arith)
                    requires
                        q * p_rs <= s,
                        (s as nat) < pow2((l) as nat),
                        pow2(l as nat) <= p_rs * pow2(53),
                        p_rs > 0,
    ;
            }
        }
    }
    let e2: i32 = q0 + want;
    let fin_m: u128;
    let fin_e: i32;
    if m2 == 0x20_0000_0000_0000u128 {
        fin_m = 0x10_0000_0000_0000u128;
        fin_e = e2 + 1;
    } else {
        fin_m = m2;
        fin_e = e2;
    }
    if fin_e >= 0x7FF {
        return fp_build(sign, 0x7FF, 0);
    }
    if fin_m < 0x10_0000_0000_0000u128 {
        proof {
            // In the subnormal range the exponent is pinned at 1.
            assert(fin_e >= 0 || fin_m == 0);
        }
        if fin_e < 0 {
            return fp_build(sign, 0, 0);
        }
        return fp_build(sign, 0, fin_m as u64);
    }
    proof {
        assert(fin_e >= 1);
    }
    return fp_build(sign, fin_e as u64, (fin_m - 0x10_0000_0000_0000u128) as u64);
}

} // verus!

verus! {

// ---------------------------------------------------------------------------
// IEEE 754 double addition, subtraction and multiplication.
// ---------------------------------------------------------------------------

/// The sum of the doubles `a + b`, round to nearest, ties to even, as IEEE
/// 754 defines it over their bit patterns. NaN operands and invalid sums
/// give the canonical quiet NaN.
#[verifier::opaque]
pub open spec fn fp_add(a: u64, b: u64) -> u64 {
    if fp_is_nan(a) || fp_is_nan(b) {
        QNAN_BITS
    } else if fp_is_inf(a) {
        if fp_is_inf(b) && fp_sign(a) != fp_sign(b) {
            QNAN_BITS
        } else {
            a
        }
    } else if fp_is_inf(b) {
        b
    } else if fp_mag(a) == 0 && fp_mag(b) == 0 {
        fp_bits_of(fp_sign(a) && fp_sign(b), 0, 0)
    } else if fp_mag(a) == 0 {
        b
    } else if fp_mag(b) == 0 {
        a
    } else {
        let swap = fp_mag(b) > fp_mag(a);
        let hi = if swap {
            b
        } else {
            a
        };
        let lo = if swap {
            a
        } else {
            b
        };
        let d = (fp_uexp(hi) - fp_uexp(lo)) as nat;
        let big = (fp_mant(hi) as nat) * 8;
        let small: nat = if d <= 55 {
            ((fp_mant(lo) as nat) * 8) / pow2(d)
        } else {
            0
        };
        let st = if d <= 55 {
            ((fp_mant(lo) as nat) * 8) % pow2(d) != 0
        } else {
            true
        };
        let q0 = fp_uexp(hi) - 3;
        if fp_sign(hi) == fp_sign(lo) {
            fp_round_pack(fp_sign(hi), big + small, st, q0 as int)
        } else {
            let diff = (big - small) as int - (if st {
                1int
            } else {
                0int
            });
            if diff == 0 {
                0u64
            } else {
                fp_round_pack(fp_sign(hi), diff as nat, st, q0 as int)
            }
        }
    }
}

/// The difference `a - b`: the sum of `a` and `b` with its sign flipped.
pub open spec fn fp_sub(a: u64, b: u64) -> u64 {
    fp_add(a, fp_neg(b))
}

/// The bit pattern of `-x`.
pub open spec fn fp_neg(x: u64) -> u64 {
    if x >= 0x8000_0000_0000_0000 {
        (x - 0x8000_0000_0000_0000) as u64
    } else {
        (x + 0x8000_0000_0000_0000) as u64
    }
}

/// The product of the doubles `a * b`, round to nearest, ties to even, as
/// IEEE 754 defines it over their bit patterns.
#[verifier::opaque]
pub open spec fn fp_mul(a: u64, b: u64) -> u64 {
    let sign = fp_sign(a) != fp_sign(b);
    if fp_is_nan(a) || fp_is_nan(b) {
        QNAN_BITS
    } else if fp_is_inf(a) || fp_is_inf(b) {
        if (fp_is_inf(a) && !fp_is_inf(b) && fp_mag(b) == 0) || (fp_is_inf(b) && !fp_is_inf(a)
            && fp_mag(a) == 0) {
            QNAN_BITS
        } else {
            fp_bits_of(sign, 0x7FF, 0)
        }
    } else if fp_mag(a) == 0 || fp_mag(b) == 0 {
        fp_bits_of(sign, 0, 0)
    } else {
        let s = (fp_mant(a) * fp_mant(b)) as nat;
        let q0 = fp_uexp(a) + fp_uexp(b) - 1075;
        fp_round_pack(sign, s, false, q0 as int)
    }
}

/// Computes the sum of two doubles over their bit patterns.
#[verifier::rlimit(60)]
pub fn fp_add_exec(a: u64, b: u64) -> (r: u64)
    ensures
        r == fp_add(a, b),
{
    proof {
        reveal(fp_add);
        vstd::arithmetic::power2::lemma2_to64();
        vstd::arithmetic::power2::lemma2_to64_rest();
        lemma_pow2_large();
    }
    let (sa, ea_f, fa) = fp_split(a);
    let (sb, eb_f, fb) = fp_split(b);
    let a_nan = ea_f == 0x7FF && fa != 0;
    let b_nan = eb_f == 0x7FF && fb != 0;
    if a_nan || b_nan {
        return QNAN_BITS;
    }
    if ea_f == 0x7FF {
        if eb_f == 0x7FF && sa != sb {
            return QNAN_BITS;
        }
        return a;
    }
    if eb_f == 0x7FF {
        return b;
    }
    let mag_a = a % 0x8000_0000_0000_0000u64;
    let mag_b = b % 0x8000_0000_0000_0000u64;
    if mag_a == 0 && mag_b == 0 {
        return fp_build(sa && sb, 0, 0);
    }
    if mag_a == 0 {
        return b;
    }
    if mag_b == 0 {
        return a;
    }
    let swap = mag_b > mag_a;
    let (s_hi, e_hi, m_hi, s_lo, e_lo, m_lo) = if swap {
        (
            sb,
            if eb_f == 0 {
                1u64
            } else {
                eb_f
            },
            if eb_f == 0 {
                fb
            } else {
                fb + 0x10_0000_0000_0000
            },
            sa,
            if ea_f == 0 {
                1u64
            } else {
                ea_f
            },
            if ea_f == 0 {
                fa
            } else {
                fa + 0x10_0000_0000_0000
            },
        )
    } else {
        (
            sa,
            if ea_f == 0 {
                1u64
            } else {
                ea_f
            },
            if ea_f == 0 {
                fa
            } else {
                fa + 0x10_0000_0000_0000
            },
            sb,
            if eb_f == 0 {
                1u64
            } else {
                eb_f
            },
            if eb_f == 0 {
                fb
            } else {
                fb + 0x10_0000_0000_0000
            },
        )
    };
    proof {
        if swap {
            lemma_mag_exp_order(b, a);
        } else {
            lemma_mag_exp_order(a, b);
        }
        assert(e_hi >= e_lo);
        assert(e_hi == e_lo ==> m_hi >= m_lo);
        if e_hi > e_lo {
            assert(m_hi >= 0x10_0000_0000_0000);
        }
    }
    let d = e_hi - e_lo;
    let big: u128 = (m_hi as u128) * 8;
    let small: u128;
    let st: bool;
    if d <= 55 {
        let pd = pow2_u128(d as usize);
        proof {
            vstd::arithmetic::power2::lemma_pow2_pos(d as nat);
        }
        small = ((m_lo as u128) * 8) / pd;
        st = ((m_lo as u128) * 8) % pd != 0;
    } else {
        small = 0;
        st = true;
    }
    let q0: i32 = (e_hi as i32) - 3;
    proof {
        assert(big + small < pow2(108)) by {
            assert(big <= pow2(53) * 8);
            assert(small <= (m_lo as u128) * 8);
            assert((m_lo as u128) * 8 <= pow2(53) * 8) by {
                vstd::arithmetic::div_mod::lemma_fundamental_div_mod(
                    ((m_lo as u128) * 8) as int,
                    if d <= 55 {
                        pow2(d as nat) as int
                    } else {
                        1
                    },
                );
            }
            assert(small <= pow2(53) * 8) by (nonlinear_arith)
                requires
                    small <= (m_lo as u128) * 8,
                    (m_lo as u128) * 8 <= pow2(53) * 8,
    ;
            assert(pow2(53) * 16 < pow2(108)) by (nonlinear_arith)
                requires
                    pow2(108) == pow2(53) * pow2(55),
                    16 < pow2(55),
                    pow2(53) > 0,
    ;
        }
        assert(small <= (m_lo as u128) * 8) by {
            if d <= 55 {
                vstd::arithmetic::power2::lemma_pow2_pos(d as nat);
                assert((((m_lo as u128) * 8) as nat) / pow2(d as nat) <= (m_lo as u128) * 8)
                    by (nonlinear_arith)
                    requires
                        pow2(d as nat) >= 1,
    ;
            }
        }
    }
    proof {
        lemma_align_le(m_hi as nat, m_lo as nat, d as nat);
        assert(small <= big);
        if st {
            assert(d >= 1) by {
                if d == 0 {
                    vstd::arithmetic::power2::lemma2_to64();
                    assert(((m_lo as nat) * 8) % pow2(0) == 0);
                }
            }
            assert(small < big);
        }
    }
    if s_hi == s_lo {
        let r = fp_round_pack_exec(s_hi, big + small, st, q0);
        return r;
    }
    let sub: u128 = if st {
        big - small - 1
    } else {
        big - small
    };
    if sub == 0 {
        return 0u64;
    }
    let r = fp_round_pack_exec(s_hi, sub, st, q0);
    return r;
}

/// The aligned smaller significand never passes the bigger one, and stays
/// strictly below it whenever the exponents differ.
proof fn lemma_align_le(m_hi: nat, m_lo: nat, d: nat)
    requires
        d >= 1 ==> m_hi >= pow2(52),
        m_lo < pow2(53),
        d == 0 ==> m_lo <= m_hi,
    ensures
        d == 0 ==> (m_lo * 8) / pow2(0) <= m_hi * 8,
        1 <= d <= 55 ==> (m_lo * 8) / pow2(d) < m_hi * 8,
        d > 55 ==> 0 < m_hi * 8,
{
    vstd::arithmetic::power2::lemma2_to64();
    vstd::arithmetic::power2::lemma2_to64_rest();
    if d == 0 {
        assert(pow2(0) == 1);
        assert((m_lo * 8) / 1 == m_lo * 8);
    } else if d <= 55 {
        vstd::arithmetic::power2::lemma_pow2_pos(d);
        assert(pow2(d) >= 2) by {
            if d > 1 {
                vstd::arithmetic::power2::lemma_pow2_strictly_increases(1, d);
            }
        }
        assert((m_lo * 8) / pow2(d) < pow2(55)) by (nonlinear_arith)
            requires
                m_lo * 8 < pow2(55) * pow2(d),
                pow2(d) > 0,
    ;
        assert(m_lo * 8 < pow2(55) * pow2(d)) by (nonlinear_arith)
            requires
                m_lo < pow2(53),
                pow2(d) >= 2,
                pow2(55) == 4 * pow2(53),
                pow2(53) > 0,
    ;
        assert(m_hi * 8 >= pow2(55)) by (nonlinear_arith)
            requires
                m_hi >= pow2(52),
                pow2(55) == 8 * pow2(52),
    ;
    } else {
        vstd::arithmetic::power2::lemma_pow2_pos(52);
    }
}

/// The operand with the larger magnitude has the larger uniform exponent,
/// and at an equal exponent the larger significand.
proof fn lemma_mag_exp_order(x: u64, y: u64)
    requires
        !fp_is_nan(x) && !fp_is_inf(x) && !fp_is_nan(y) && !fp_is_inf(y),
        fp_mag(x) >= fp_mag(y),
    ensures
        fp_uexp(x) > fp_uexp(y) || (fp_uexp(x) == fp_uexp(y) && fp_mant(x) >= fp_mant(y)),
{
    assert(fp_mag(x) == fp_exp(x) * 0x10_0000_0000_0000 + fp_frac(x)) by (nonlinear_arith)
        requires
            fp_exp(x) == (x / 0x10_0000_0000_0000u64) % 0x800u64,
            fp_frac(x) == x % 0x10_0000_0000_0000u64,
            fp_mag(x) == x % 0x8000_0000_0000_0000u64,
    ;
    assert(fp_mag(y) == fp_exp(y) * 0x10_0000_0000_0000 + fp_frac(y)) by (nonlinear_arith)
        requires
            fp_exp(y) == (y / 0x10_0000_0000_0000u64) % 0x800u64,
            fp_frac(y) == y % 0x10_0000_0000_0000u64,
            fp_mag(y) == y % 0x8000_0000_0000_0000u64,
    ;
}

} // verus!

verus! {

/// Computes the product of two doubles over their bit patterns.
pub fn fp_mul_exec(a: u64, b: u64) -> (r: u64)
    ensures
        r == fp_mul(a, b),
{
    proof {
        reveal(fp_mul);
        vstd::arithmetic::power2::lemma2_to64();
        vstd::arithmetic::power2::lemma2_to64_rest();
        lemma_pow2_large();
    }
    let (sa, ea_f, fa) = fp_split(a);
    let (sb, eb_f, fb) = fp_split(b);
    let sign = sa != sb;
    let a_nan = ea_f == 0x7FF && fa != 0;
    let b_nan = eb_f == 0x7FF && fb != 0;
    if a_nan || b_nan {
        return QNAN_BITS;
    }
    let a_inf = ea_f == 0x7FF;
    let b_inf = eb_f == 0x7FF;
    let mag_a = a % 0x8000_0000_0000_0000u64;
    let mag_b = b % 0x8000_0000_0000_0000u64;
    if a_inf || b_inf {
        if (a_inf && !b_inf && mag_b == 0) || (b_inf && !a_inf && mag_a == 0) {
            return QNAN_BITS;
        }
        return fp_build(sign, 0x7FF, 0);
    }
    if mag_a == 0 || mag_b == 0 {
        return fp_build(sign, 0, 0);
    }
    let ma: u64 = if ea_f == 0 {
        fa
    } else {
        fa + 0x10_0000_0000_0000
    };
    let ea: u64 = if ea_f == 0 {
        1
    } else {
        ea_f
    };
    let mb: u64 = if eb_f == 0 {
        fb
    } else {
        fb + 0x10_0000_0000_0000
    };
    let eb: u64 = if eb_f == 0 {
        1
    } else {
        eb_f
    };
    proof {
        assert((ma as nat) * (mb as nat) < pow2(53) * pow2(53)) by (nonlinear_arith)
            requires
                (ma as nat) < pow2(53),
                (mb as nat) < pow2(53),
    ;
        vstd::arithmetic::power2::lemma_pow2_adds(53, 53);
        vstd::arithmetic::power2::lemma_pow2_strictly_increases(106, 108);
    }
    let s: u128 = (ma as u128) * (mb as u128);
    let q0: i32 = (ea as i32) + (eb as i32) - 1075;
    fp_round_pack_exec(sign, s, false, q0)
}

// ---------------------------------------------------------------------------
// Comparisons, negation, rounding to integers and conversions.
// ---------------------------------------------------------------------------

/// Whether `a > b` as IEEE 754 defines it: false when either is NaN, and
/// the two zeros are equal.
pub open spec fn fp_gt(a: u64, b: u64) -> bool {
    if fp_is_nan(a) || fp_is_nan(b) {
        false
    } else if fp_mag(a) == 0 && fp_mag(b) == 0 {
        false
    } else if fp_sign(a) != fp_sign(b) {
        !fp_sign(a)
    } else if fp_sign(a) {
        fp_mag(a) < fp_mag(b)
    } else {
        fp_mag(a) > fp_mag(b)
    }
}

/// Compares two doubles over their bit patterns.
pub fn fp_gt_exec(a: u64, b: u64) -> (r: bool)
    ensures
        r == fp_gt(a, b),
{
    let (sa, ea_f, fa) = fp_split(a);
    let (sb, eb_f, fb) = fp_split(b);
    if (ea_f == 0x7FF && fa != 0) || (eb_f == 0x7FF && fb != 0) {
        return false;
    }
    let mag_a = a % 0x8000_0000_0000_0000u64;
    let mag_b = b % 0x8000_0000_0000_0000u64;
    if mag_a == 0 && mag_b == 0 {
        return false;
    }
    if sa != sb {
        return !sa;
    }
    if sa {
        mag_a < mag_b
    } else {
        mag_a > mag_b
    }
}

/// The larger of two doubles, NaN operands ignored: with both finite and
/// neither larger, the second one.
pub open spec fn fp_max(a: u64, b: u64) -> u64 {
    if fp_is_nan(a) {
        b
    } else if fp_is_nan(b) {
        a
    } else if fp_gt(a, b) {
        a
    } else {
        b
    }
}

/// Picks the larger of two doubles over their bit patterns.
pub fn fp_max_exec(a: u64, b: u64) -> (r: u64)
    ensures
        r == fp_max(a, b),
{
    let (sa, ea_f, fa) = fp_split(a);
    let (sb, eb_f, fb) = fp_split(b);
    if ea_f == 0x7FF && fa != 0 {
        return b;
    }
    if eb_f == 0x7FF && fb != 0 {
        return a;
    }
    if fp_gt_exec(a, b) {
        a
    } else {
        b
    }
}

/// Whether the double is one of the two zeros.
pub open spec fn fp_is_zero(bits: u64) -> bool {
    fp_mag(bits) == 0
}

/// Tests whether the double is one of the two zeros.
pub fn fp_is_zero_exec(bits: u64) -> (r: bool)
    ensures
        r == fp_is_zero(bits),
{
    bits % 0x8000_0000_0000_0000u64 == 0
}

/// Flips the sign of a double over its bit pattern.
pub fn fp_neg_exec(bits: u64) -> (r: u64)
    ensures
        r == fp_neg(bits),
{
    if bits >= 0x8000_0000_0000_0000 {
        bits - 0x8000_0000_0000_0000
    } else {
        bits + 0x8000_0000_0000_0000
    }
}

/// The bit pattern of `|x|`.
pub open spec fn fp_abs(x: u64) -> u64 {
    fp_mag(x)
}

/// Clears the sign of a double over its bit pattern.
pub fn fp_abs_exec(bits: u64) -> (r: u64)
    ensures
        r == fp_abs(bits),
{
    bits % 0x8000_0000_0000_0000u64
}

/// The double rounded half away from zero and clamped to `u64`: what
/// rounding and then casting to an unsigned machine word gives. NaN and
/// every negative value give zero.
#[verifier::opaque]
pub open spec fn fp_round_u64(bits: u64) -> u64 {
    if fp_is_nan(bits) || fp_sign(bits) {
        0
    } else if fp_is_inf(bits) {
        u64::MAX
    } else {
        let m = fp_mant(bits) as nat;
        let e = fp_uexp(bits) as int;
        if m == 0 {
            0
        } else if e >= 1075 {
            if e - 1075 >= 12 {
                u64::MAX
            } else {
                (m * pow2((e - 1075) as nat)) as u64
            }
        } else {
            let sh = (1075 - e) as nat;
            if sh >= 54 {
                0
            } else {
                ((m + pow2((sh - 1) as nat)) / pow2(sh)) as u64
            }
        }
    }
}

/// Rounds a double half away from zero, clamped to `u64` as a saturating
/// cast clamps it.
pub fn fp_round_u64_exec(bits: u64) -> (r: u64)
    ensures
        r == fp_round_u64(bits),
{
    proof {
        reveal(fp_round_u64);
        vstd::arithmetic::power2::lemma2_to64();
        vstd::arithmetic::power2::lemma2_to64_rest();
        lemma_pow2_large();
    }
    let (sign, e_field, frac) = fp_split(bits);
    if e_field == 0x7FF && frac != 0 {
        return 0;
    }
    if sign {
        return 0;
    }
    if e_field == 0x7FF {
        return u64::MAX;
    }
    let m: u64 = if e_field == 0 {
        frac
    } else {
        frac + 0x10_0000_0000_0000
    };
    let e: u64 = if e_field == 0 {
        1
    } else {
        e_field
    };
    if m == 0 {
        return 0;
    }
    if e >= 1075 {
        let p = (e - 1075) as usize;
        if p >= 12 {
            return u64::MAX;
        }
        proof {
            if p < 11 {
                vstd::arithmetic::power2::lemma_pow2_strictly_increases(p as nat, 11);
            }
            vstd::arithmetic::power2::lemma_pow2_adds(53, 11);
            assert((m as nat) * pow2(p as nat) < pow2(53) * pow2(11)) by (nonlinear_arith)
                requires
                    (m as nat) < pow2(53),
                    pow2(p as nat) <= pow2(11),
                    pow2(11) > 0,
    ;
        }
        let prod = (m as u128) * pow2_u128(p);
        assert(prod < pow2(64));
        return prod as u64;
    }
    let sh = (1075 - e) as usize;
    if sh >= 54 {
        return 0;
    }
    let p_half = pow2_u128(sh - 1);
    let p_sh = pow2_u128(sh);
    proof {
        vstd::arithmetic::power2::lemma_pow2_pos(sh as nat);
        if (sh - 1) < 53 {
            vstd::arithmetic::power2::lemma_pow2_strictly_increases((sh - 1) as nat, 53);
        }
        assert(((m as nat) + pow2((sh - 1) as nat)) / pow2(sh as nat) <= (m as nat) + pow2(
            (sh - 1) as nat,
        )) by (nonlinear_arith)
            requires
                pow2(sh as nat) >= 1,
    ;
        vstd::arithmetic::power2::lemma_pow2_adds(53, 1);
    }
    let num = (m as u128) + p_half;
    let r = num / p_sh;
    proof {
        assert(num < pow2(54));
        assert((num as nat) / (p_sh as nat) < pow2(64)) by (nonlinear_arith)
            requires
                (num as nat) < pow2(54),
                (p_sh as nat) >= 1,
                pow2(54) < pow2(64),
    ;
    }
    return r as u64;
}

/// The double nearest `n`, ties to even: what casting an unsigned integer
/// to a double gives.
pub open spec fn fp_from_u64(n: u64) -> u64 {
    fp_round_pack(false, n as nat, false, 1075)
}

/// Converts an unsigned integer to the bit pattern of its nearest double.
pub fn fp_from_u64_exec(n: u64) -> (r: u64)
    ensures
        r == fp_from_u64(n),
{
    proof {
        vstd::arithmetic::power2::lemma2_to64();
        vstd::arithmetic::power2::lemma2_to64_rest();
        lemma_pow2_large();
        assert(pow2(64) < pow2(108));
        vstd::arithmetic::power2::lemma_pow2_strictly_increases(64, 108);
    }
    fp_round_pack_exec(false, n as u128, false, 1075)
}

} // verus!

verus! {

/// The fields of a packed bit pattern with a clear sign.
proof fn lemma_fp_bits_fields(e: u64, f: u64)
    requires
        e < 0x800,
        f < 0x10_0000_0000_0000,
    ensures
        !fp_sign(fp_bits_of(false, e, f)),
        fp_exp(fp_bits_of(false, e, f)) == e,
        fp_frac(fp_bits_of(false, e, f)) == f,
{
    let bits = fp_bits_of(false, e, f);
    assert(bits == e * 0x10_0000_0000_0000 + f);
    assert(bits / 0x10_0000_0000_0000u64 == e && bits % 0x10_0000_0000_0000u64 == f)
        by (nonlinear_arith)
        requires
            bits == e * 0x10_0000_0000_0000 + f,
            f < 0x10_0000_0000_0000u64,
            e >= 0,
    ;
    assert(e % 0x800u64 == e);
    assert(bits < 0x8000_0000_0000_0000u64) by (nonlinear_arith)
        requires
            bits == e * 0x10_0000_0000_0000 + f,
            e < 0x800,
            f < 0x10_0000_0000_0000u64,
    ;
}

/// Writing a count as its sentinel double and reading it back gives the
/// count again, for every count a level in memory can hold.
#[verifier::rlimit(100)]
#[verifier::spinoff_prover]
pub proof fn lemma_count_round(n: u64, mc: u64, cs: nat)
    requires
        sentinel_ok(mc, cs),
        n < pow2(51),
    ensures
        count_of_bits(count_to_bits(n, mc, cs), mc, cs) == n,
{
    reveal(count_to_bits);
    reveal(count_of_bits);
    vstd::arithmetic::power2::lemma2_to64();
    vstd::arithmetic::power2::lemma2_to64_rest();
    lemma_pow2_large();
    let v = (n * pow2(cs) + mc) as nat;
    let l = bitlen(v) as int;
    lemma_bitlen_bounds(v);
    let shift = (l - 53) as nat;
    let q0 = v / pow2(shift);
    let rem = v % pow2(shift);
    let up = shift >= 1 && (rem > pow2((shift - 1) as nat) || (rem == pow2((shift - 1) as nat)
        && q0 % 2 == 1));
    let q = if up {
        q0 + 1
    } else {
        q0
    };
    vstd::arithmetic::power2::lemma_pow2_pos(shift);
    vstd::arithmetic::div_mod::lemma_fundamental_div_mod(v as int, pow2(shift) as int);
    // The quotient is a normalized 53-bit significand.
    assert(pow2((l - 1) as nat) == pow2(shift) * pow2(52) && pow2(l as nat) == pow2(shift) * pow2(
        53,
    )) by {
        vstd::arithmetic::power2::lemma_pow2_adds(shift, 52);
        vstd::arithmetic::power2::lemma_pow2_adds(shift, 53);
    }
    assert(pow2(52) <= q0 < pow2(53)) by (nonlinear_arith)
        requires
            q0 == v / pow2(shift),
            pow2(shift) > 0,
            v < pow2(shift) * pow2(53),
            v >= pow2(shift) * pow2(52),
    ;
    if n == 0 {
        // The stored double is exactly the constant, below one half.
        lemma_bitlen_of_range(v, 53);
        assert(l == 53 && shift == 0);
        assert(pow2(0) == 1);
        assert(q0 == v / 1 && rem == v % 1);
        assert(v / 1 == v && v % 1 == 0) by (nonlinear_arith);
        assert(q0 == v && rem == 0);
        assert(q == mc);
        let bits = fp_bits_of(false, (53 + 1022 - cs) as u64, (mc - pow2(52)) as u64);
        lemma_fp_bits_fields((53 + 1022 - cs) as u64, (mc - pow2(52)) as u64);
        assert(count_to_bits(n, mc, cs) == bits);
        assert(fp_uexp(bits) == 1075 - cs);
        assert(fp_mant(bits) == mc);
        assert(1075 - fp_uexp(bits) >= 54);
        assert(count_of_bits(bits, mc, cs) == 0);
    } else {
        // The stored value has at least cs + 1 bits and fewer than cs + 52.
        assert(v >= pow2(cs)) by (nonlinear_arith)
            requires
                v == n * pow2(cs) + mc,
                n >= 1,
                pow2(cs) > 0,
                mc >= 0,
    ;
        assert(l >= cs + 1) by {
            if l <= cs {
                vstd::arithmetic::power2::lemma_pow2_adds((cs - l) as nat, l as nat);
                if (l as nat) < cs {
                    vstd::arithmetic::power2::lemma_pow2_strictly_increases(l as nat, cs);
                }
                assert(v < pow2(l as nat));
            }
        }
        assert(pow2((cs + 51) as nat) == pow2(51) * pow2(cs)) by {
            vstd::arithmetic::power2::lemma_pow2_adds(51, cs);
        }
        assert(v < pow2((cs + 51) as nat) + pow2(53)) by (nonlinear_arith)
            requires
                v == n * pow2(cs) + mc,
                n < pow2(51),
                mc < pow2(53),
                pow2(cs) > 0,
                pow2((cs + 51) as nat) == pow2(51) * pow2(cs),
    ;
        assert(v < pow2((cs + 52) as nat)) by {
            vstd::arithmetic::power2::lemma_pow2_adds(51, cs);
            vstd::arithmetic::power2::lemma_pow2_adds(52, cs);
            assert(pow2(53) <= pow2((cs + 51) as nat)) by {
                vstd::arithmetic::power2::lemma_pow2_strictly_increases(53, (cs + 51) as nat);
            }
            assert(pow2((cs + 51) as nat) + pow2((cs + 51) as nat) == 2 * pow2((cs + 51) as nat));
            vstd::arithmetic::power2::lemma_pow2_unfold((cs + 52) as nat);
        }
        lemma_bitlen_le(v, (cs + 52) as nat);
        assert(l <= cs + 52);
        assert(1 <= shift <= cs - 1) by {
            assert(l >= cs + 1 >= 55);
        }
        // Rounding moves the value by at most half of the dropped scale.
        let rounded = q * pow2(shift);
        assert(rem < pow2(shift));
        vstd::arithmetic::power2::lemma_pow2_unfold(shift);
        assert(pow2(shift) == 2 * pow2((shift - 1) as nat));
        let err = rounded as int - v as int;
        assert(v == pow2(shift) * q0 + rem);
        assert(pow2(shift) * q0 == q0 * pow2(shift)) by (nonlinear_arith);
        assert(-(pow2((shift - 1) as nat) as int) <= err <= pow2((shift - 1) as nat)) by {
            if up {
                assert(q == q0 + 1);
                assert(rounded == (q0 + 1) * pow2(shift));
                assert(rounded == q0 * pow2(shift) + pow2(shift)) by (nonlinear_arith)
                    requires
                        rounded == (q0 + 1) * pow2(shift),
    ;
                assert(rem >= pow2((shift - 1) as nat));
                assert(err == pow2(shift) - rem);
            } else {
                assert(rounded == q0 * pow2(shift));
                assert(rem <= pow2((shift - 1) as nat));
                assert(err == -(rem as int));
            }
        }
        // No carry to a 54-bit significand can happen below the cap.
        assert(q <= pow2(53));
        let q2 = if q == pow2(53) {
            pow2(52)
        } else {
            q
        };
        let l2 = if q == pow2(53) {
            l + 1
        } else {
            l
        };
        assert(q2 * pow2((l2 - 53) as nat) == rounded) by {
            if q == pow2(53) {
                vstd::arithmetic::power2::lemma_pow2_adds(52, 1);
                assert(pow2(52) * pow2((l2 - 53) as nat) == pow2(52) * (2 * pow2(shift)))
                    by {
                    vstd::arithmetic::power2::lemma_pow2_unfold((l2 - 53) as nat);
                }
                assert(pow2(52) * (2 * pow2(shift)) == pow2(53) * pow2(shift))
                    by (nonlinear_arith)
                    requires
                        pow2(53) == 2 * pow2(52),
    ;
            }
        }
        let shift2 = (l2 - 53) as nat;
        assert(shift2 <= cs - 1) by {
            if q == pow2(53) && shift == cs - 1 {
                // A carry at the top width would push the value past the cap.
                assert(rounded == pow2(53) * pow2((cs - 1) as nat));
                vstd::arithmetic::power2::lemma_pow2_adds(53, (cs - 1) as nat);
                assert(rounded == pow2((cs + 52) as nat)) by {
                    vstd::arithmetic::power2::lemma_pow2_adds(53, (cs - 1) as nat);
                }
                assert(rounded as int <= v as int + pow2((shift - 1) as nat));
                assert(pow2((shift - 1) as nat) < pow2((cs + 51) as nat)) by {
                    vstd::arithmetic::power2::lemma_pow2_strictly_increases(
                        (shift - 1) as nat,
                        (cs + 51) as nat,
                    );
                }
                assert(pow2((cs + 52) as nat) == 2 * pow2((cs + 51) as nat)) by {
                    vstd::arithmetic::power2::lemma_pow2_unfold((cs + 52) as nat);
                }
                assert(false);
            }
        }
        let e_field = (l2 + 1022 - cs) as u64;
        let bits = fp_bits_of(false, e_field, (q2 - pow2(52)) as u64);
        assert(count_to_bits(n, mc, cs) == bits);
        assert(q2 < pow2(53) && q2 >= pow2(52));
        lemma_fp_bits_fields(e_field, (q2 - pow2(52)) as u64);
        assert(fp_mant(bits) == q2 && fp_uexp(bits) == e_field) by {
            assert(e_field >= 1022);
        }
        // Decode: the exponent lands in the fraction branch with the
        // constant's own scale.
        let sh = (1075 - e_field) as nat;
        assert(sh == cs - shift2);
        assert(1 <= sh <= 53);
        let t = cs;
        let dv = (q2 * pow2((t - sh) as nat)) as int;
        assert(dv == rounded) by {
            assert(t - sh == shift2);
        }
        let dd = ((pow2((cs - 1) as nat) - mc) * pow2((t - cs) as nat)) as int;
        assert(dd == pow2((cs - 1) as nat) - mc) by {
            assert(pow2((t - cs) as nat) == 1);
            assert((pow2((cs - 1) as nat) - mc) * 1 == pow2((cs - 1) as nat) - mc)
                by (nonlinear_arith);
        }
        let num = dv + dd;
        assert(num == n * pow2(cs) + pow2((cs - 1) as nat) + err);
        // The numerator sits strictly inside the count's own slot.
        assert(pow2(cs) == 2 * pow2((cs - 1) as nat) && pow2((cs - 1) as nat) == 2 * pow2(
            (cs - 2) as nat,
        )) by {
            vstd::arithmetic::power2::lemma_pow2_unfold(cs);
            vstd::arithmetic::power2::lemma_pow2_unfold((cs - 1) as nat);
        }
        assert(pow2((shift - 1) as nat) <= pow2((cs - 2) as nat)) by {
            if shift - 1 < cs - 2 {
                vstd::arithmetic::power2::lemma_pow2_strictly_increases(
                    (shift - 1) as nat,
                    (cs - 2) as nat,
                );
            }
        }
        assert(n * pow2(cs) <= num < (n + 1) * pow2(cs)) by (nonlinear_arith)
            requires
                num == n * pow2(cs) + pow2((cs - 1) as nat) + err,
                -(pow2((cs - 2) as nat) as int) <= err <= pow2((cs - 2) as nat),
                pow2(cs) == 2 * pow2((cs - 1) as nat),
                pow2((cs - 1) as nat) == 2 * pow2((cs - 2) as nat),
                pow2((cs - 2) as nat) > 0,
    ;
        vstd::arithmetic::div_mod::lemma_fundamental_div_mod_converse(
            num,
            pow2(cs) as int,
            n as int,
            num - n * pow2(cs),
        );
        assert(num / (pow2(cs) as int) == n);
        assert(count_of_bits(bits, mc, cs) == n);
    }
}

} // verus!
