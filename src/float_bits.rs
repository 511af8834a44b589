//! The single-precision bit pattern of a frame index.
//!
//! A baked track stores no frame ids: each frame's id is its index, converted
//! to `f32` as Rust's `as` does (nearest value, ties to even). The conversion
//! is done here on integers, since the library carries floats as bit patterns.
use vstd::arithmetic::power2::{
    lemma2_to64, lemma_pow2_adds, lemma_pow2_pos, lemma_pow2_strictly_increases,
    lemma_pow2_unfold, pow2,
};
use vstd::arithmetic::mul::lemma_mul_strict_inequality;
use vstd::prelude::*;

verus! {

/// `floor(log2(n))` for positive `n`.
pub open spec fn log2(n: nat) -> nat
    decreases n,
{
    if n < 2 {
        0
    } else {
        1 + log2(n / 2)
    }
}

/// The IEEE-754 single-precision bit pattern of the integer `n`, rounded to
/// the nearest representable value with ties to even. The exponent field is
/// `127 + log2(n)`; the 23-bit fraction holds the bits below the leading one,
/// and a rounding carry out of the fraction moves into the exponent.
pub open spec fn index_bits(n: nat) -> nat {
    if n == 0 {
        0
    } else {
        let e = log2(n);
        if e <= 23 {
            ((127 + e) * pow2(23) + (n - pow2(e)) * pow2((23 - e) as nat)) as nat
        } else {
            let s = (e - 23) as nat;
            let q = n / pow2(s);
            let r = n % pow2(s);
            let half = pow2((s - 1) as nat);
            let m = if r > half || (r == half && q % 2 == 1) {
                q + 1
            } else {
                q
            };
            ((126 + e) * pow2(23) + m) as nat
        }
    }
}

proof fn lemma_log2_between(n: nat, e: nat)
    requires
        pow2(e) <= n < pow2(e + 1),
    ensures
        log2(n) == e,
    decreases e,
{
    lemma_pow2_unfold(e + 1);
    if e == 0 {
        lemma2_to64();
    } else {
        lemma_pow2_unfold(e);
        lemma_pow2_pos((e - 1) as nat);
        assert(pow2((e - 1) as nat) <= n / 2 < pow2(e));
        lemma_log2_between(n / 2, (e - 1) as nat);
    }
}

/// `pow2(k)` as a machine word.
fn pow2_u32(k: u32) -> (r: u32)
    requires
        k < 32,
    ensures
        r == pow2(k as nat),
{
    let mut r: u32 = 1;
    let mut i: u32 = 0;
    proof {
        lemma2_to64();
    }
    while i < k
        invariant
            i <= k < 32,
            r == pow2(i as nat),
        decreases k - i,
    {
        proof {
            lemma_pow2_unfold((i + 1) as nat);
            lemma_pow2_strictly_increases((i + 1) as nat, 32);
            lemma2_to64();
        }
        r = r * 2;
        i = i + 1;
    }
    r
}

/// The `f32` bit pattern of the frame index `n`.
pub fn index_to_f32_bits(n: u32) -> (r: u32)
    requires
        n <= i32::MAX,
    ensures
        r as nat == index_bits(n as nat),
{
    if n == 0 {
        return 0;
    }
    proof {
        lemma2_to64();
    }
    let mut e: u32 = 0;
    let mut p: u32 = 1;
    while p <= n / 2
        invariant
            0 < n <= i32::MAX,
            1 <= p <= n,
            p == pow2(e as nat),
            e <= 30,
        decreases n - p,
    {
        proof {
            lemma_pow2_unfold((e + 1) as nat);
            lemma2_to64();
        }
        p = p * 2;
        e = e + 1;
    }
    proof {
        lemma_pow2_unfold((e + 1) as nat);
        lemma_log2_between(n as nat, e as nat);
    }
    if e <= 23 {
        let m = pow2_u32(23 - e);
        proof {
            lemma_pow2_adds(e as nat, (23 - e) as nat);
            lemma_pow2_pos((23 - e) as nat);
            lemma_mul_strict_inequality((n - p) as int, p as int, m as int);
        }
        (127 + e) * 8388608 + (n - p) * m
    } else {
        let s = e - 23;
        let ps = pow2_u32(s);
        proof {
            lemma_pow2_unfold(s as nat);
            lemma_pow2_pos(s as nat);
        }
        let q = n / ps;
        let r = n % ps;
        let half = ps / 2;
        let m = if r > half || (r == half && q % 2 == 1) {
            q + 1
        } else {
            q
        };
        (126 + e) * 8388608 + m
    }
}

} // verus!
