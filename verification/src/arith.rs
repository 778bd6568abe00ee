//! Taking the bits of a number apart, and rounding to the bits of a number.
use crate::binary32::{nearest_bits, nearest_even, signed, units, Binary32, INFINITE, SIGN_BIT};
use crate::rounding::{lemma_nearest_binades, lemma_units_binades, nearest_ratio};
use vstd::arithmetic::div_mod::lemma_fundamental_div_mod_converse;
use vstd::arithmetic::power2::{
    lemma2_to64, lemma2_to64_rest, lemma_pow2_adds, lemma_pow2_pos, lemma_pow2_strictly_increases,
    lemma_pow2_unfold, pow2,
};
use vstd::prelude::*;

verus! {

/// A power of two.
pub(crate) fn power(s: u32) -> (p: u128)
    requires
        s < 127,
    ensures
        p == pow2(s as nat),
        p > 0,
{
    proof {
        lemma2_to64();
        lemma_pow2_pos(s as nat);
    }
    let mut p: u128 = 1;
    let mut i: u32 = 0;
    while i < s
        invariant
            i <= s,
            s < 127,
            p == pow2(i as nat),
        decreases s - i,
    {
        proof {
            lemma_pow2_unfold((i + 1) as nat);
            lemma_pow2_adds(63, 63);
            lemma2_to64();
            lemma2_to64_rest();
            if i < 126 {
                lemma_pow2_strictly_increases(i as nat, 126);
            }
        }
        p = p * 2;
        i = i + 1;
    }
    p
}

/// Rounds `m * 2^e` units to the bits of a number.
pub(crate) fn round_shifted(m: u128, e: i32) -> (bits: u32)
    requires
        m < 0x10_0000_0000_0000_0000_0000_0000u128,
        -400 <= e <= 400,
    ensures
        bits <= INFINITE,
        bits == if nearest_ratio(m as nat, 1, e as int) < INFINITE {
            nearest_ratio(m as nat, 1, e as int)
        } else {
            INFINITE as nat
        },
{
    let ghost goal = nearest_ratio(m as nat, 1, e as int);
    let mut m = m;
    let mut e = e;
    if m == 0 {
        proof {
            lemma_nearest_zero(e as int);
        }
        return 0;
    }
    while e > 0 && m < 0x0080_0000
        invariant
            0 < m < 0x10_0000_0000_0000_0000_0000_0000u128,
            -400 <= e <= 400,
            nearest_ratio(m as nat, 1, e as int) == goal,
        decreases e + 400,
    {
        proof {
            lemma_pow2_unfold(e as nat);
            let p = pow2((e - 1) as nat);
            assert(m * (2 * p) == (m * 2) * p) by (nonlinear_arith);
        }
        m = m * 2;
        e = e - 1;
    }
    let mut k: u32 = 0;
    let mut s: u32 = 0;
    if e > 0 {
        proof {
            lemma_nearest_binades(m as nat, 1, e as nat);
            lemma2_to64();
        }
        k = e as u32;
    } else {
        s = (-e) as u32;
        proof {
            lemma2_to64();
            assert(m * pow2(0) == m);
        }
    }
    assert(goal == k * 0x0080_0000 + nearest_bits(m as nat, pow2(s as nat)));
    if s >= 120 {
        proof {
            lemma2_to64();
            lemma2_to64_rest();
            lemma_pow2_adds(60, 60);
            if s > 120 {
                lemma_pow2_strictly_increases(120, s as nat);
            }
            lemma_fundamental_div_mod_converse(
                m as int,
                pow2(s as nat) as int,
                0,
                m as int,
            );
        }
        return 0;
    }
    let mut p: u128 = power(s);
    while m / p >= 0x0100_0000
        invariant
            0 < m < 0x10_0000_0000_0000_0000_0000_0000u128,
            s < 120,
            p == pow2(s as nat),
            p > 0,
            k <= 400 + s,
            goal == k * 0x0080_0000 + nearest_bits(m as nat, pow2(s as nat)),
        decreases 120 - s,
    {
        proof {
            lemma_pow2_unfold((s + 1) as nat);
            assert(m >= p * 0x0100_0000) by (nonlinear_arith)
                requires
                    m / p >= 0x0100_0000,
                    p > 0,
            ;
            lemma2_to64();
            lemma2_to64_rest();
            lemma_pow2_adds(59, 60);
            if s >= 119 {
                assert(pow2(119) == pow2(59) * pow2(60));
                assert(pow2(59) * pow2(60) > 0x10_0000_0000_0000_0000_0000_0000) by (nonlinear_arith)
                    requires
                        pow2(59) == 0x800_0000_0000_0000,
                        pow2(60) == 0x1000_0000_0000_0000,
                ;
            } else {
                lemma_pow2_strictly_increases(s as nat, 119);
            }
        }
        p = p * 2;
        s = s + 1;
        k = k + 1;
    }
    proof {
        assert(m < p * 0x0100_0000) by (nonlinear_arith)
            requires
                m / p < 0x0100_0000,
                p > 0,
        ;
    }
    let mut q: u128 = m / p;
    let r: u128 = m % p;
    if r > p - r || r == p - r && q % 2 == 1 {
        q = q + 1;
    }
    assert(q == nearest_even(m as nat, p as nat));
    let bits: u64 = k as u64 * 0x0080_0000 + q as u64;
    if bits < INFINITE as u64 {
        bits as u32
    } else {
        INFINITE
    }
}

/// Zero rounds to zero at every scale.
proof fn lemma_nearest_zero(e: int)
    ensures
        nearest_ratio(0, 1, e) == 0,
{
    if e < 0 {
        lemma_pow2_pos((-e) as nat);
    }
}

/// The mantissa and the exponent of a finite magnitude.
pub(crate) fn parts(bits: u32) -> (p: (u32, u32))
    requires
        bits < INFINITE,
    ensures
        units(bits as nat) == p.0 * pow2(p.1 as nat),
        p.0 < 0x0100_0000,
        p.1 <= 253,
        p.1 > 0 ==> p.0 >= 0x0080_0000,
        p.0 == 0 <==> bits == 0,
        bits == p.1 * 0x0080_0000 + p.0,
{
    let k: u32 = bits / 0x0080_0000;
    if k == 0 {
        proof {
            lemma_units_binades(bits as nat, 0);
        }
        (bits, 0)
    } else {
        let m: u32 = bits - (k - 1) * 0x0080_0000;
        proof {
            lemma_units_binades(m as nat, (k - 1) as nat);
        }
        (m, k - 1)
    }
}

/// Puts a sign on a magnitude.
pub(crate) fn with_sign(negative: bool, bits: u32) -> (r: Binary32)
    requires
        bits <= INFINITE,
    ensures
        r == signed(negative, bits as nat),
{
    if negative {
        Binary32(SIGN_BIT + bits)
    } else {
        Binary32(bits)
    }
}

} // verus!
