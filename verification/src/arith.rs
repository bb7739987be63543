//! Exact integer arithmetic shared by the pipeline stages.

use vstd::prelude::*;

verus! {

/// Integer square root: the largest `r` with `r * r <= n`.
pub open spec fn isqrt(n: nat) -> nat
    decreases n,
{
    if n == 0 {
        0
    } else {
        let r = 2 * isqrt(n / 4);
        if (r + 1) * (r + 1) <= n {
            r + 1
        } else {
            r
        }
    }
}

/// `isqrt(n)` is a root that fits under `n` while the next integer does not.
pub proof fn lemma_isqrt_bounds(n: nat)
    ensures
        isqrt(n) * isqrt(n) <= n,
        n < (isqrt(n) + 1) * (isqrt(n) + 1),
    decreases n,
{
    if n != 0 {
        lemma_isqrt_bounds(n / 4);
        let h = isqrt(n / 4);
        let q = n / 4;
        let r = 2 * h;
        assert(4 * q <= n < 4 * q + 4);
        assert(r * r == 4 * (h * h)) by (nonlinear_arith)
            requires
                r == 2 * h,
        ;
        assert((r + 2) * (r + 2) == 4 * ((h + 1) * (h + 1))) by (nonlinear_arith)
            requires
                r == 2 * h,
        ;
        assert((r + 1 + 1) * (r + 1 + 1) == (r + 2) * (r + 2));
        let s = isqrt(n);
        if (r + 1) * (r + 1) <= n {
            assert(s == r + 1);
            assert(s * s == (r + 1) * (r + 1) && (s + 1) * (s + 1) == (r + 2) * (r + 2))
                by (nonlinear_arith)
                requires
                    s == r + 1,
            ;
        } else {
            assert(s == r);
            assert(s * s == r * r && (s + 1) * (s + 1) == (r + 1) * (r + 1))
                by (nonlinear_arith)
                requires
                    s == r,
            ;
        }
    } else {
        let s = isqrt(n);
        assert(s * s == 0 && (s + 1) * (s + 1) == 1) by (nonlinear_arith)
            requires
                s == 0,
        ;
    }
}

/// Only one integer satisfies the bounds of `lemma_isqrt_bounds`.
pub proof fn lemma_isqrt_unique(n: nat, r: nat)
    requires
        r * r <= n,
        n < (r + 1) * (r + 1),
    ensures
        r == isqrt(n),
{
    lemma_isqrt_bounds(n);
    let s = isqrt(n);
    if r < s {
        assert((r + 1) * (r + 1) <= s * s) by (nonlinear_arith)
            requires
                r + 1 <= s,
        ;
    } else if s < r {
        assert((s + 1) * (s + 1) <= r * r) by (nonlinear_arith)
            requires
                s + 1 <= r,
        ;
    }
}

/// The integer square root of the square of a 16-bit value is at most 65535.
pub proof fn lemma_isqrt_sample_range(n: nat)
    requires
        n <= 0xfffe_0001,
    ensures
        isqrt(n) <= 65535,
{
    assert(65535nat * 65535nat == 0xfffe_0001) by (nonlinear_arith);
    assert((65535nat + 1) * (65535nat + 1) > 0xfffe_0001) by (nonlinear_arith);
    lemma_isqrt_unique(0xfffe_0001, 65535);
    lemma_isqrt_monotone(n, 0xfffe_0001);
}

/// The integer square root grows with its argument.
pub proof fn lemma_isqrt_monotone(a: nat, b: nat)
    requires
        a <= b,
    ensures
        isqrt(a) <= isqrt(b),
{
    lemma_isqrt_bounds(a);
    lemma_isqrt_bounds(b);
    let x = isqrt(a);
    let y = isqrt(b);
    if y < x {
        assert((y + 1) * (y + 1) <= x * x) by (nonlinear_arith)
            requires
                y + 1 <= x,
        ;
    }
}

/// Computes the integer square root of `n`.
pub fn integer_sqrt(n: u64) -> (r: u32)
    ensures
        r == isqrt(n as nat),
    decreases n,
{
    if n == 0 {
        0
    } else {
        let half: u32 = integer_sqrt(n / 4);
        proof {
            lemma_isqrt_bounds((n / 4) as nat);
            let h = half as nat;
            assert(h < 0x8000_0000) by (nonlinear_arith)
                requires
                    h * h <= (n / 4) as nat,
                    (n / 4) as nat <= 0x3fff_ffff_ffff_ffff,
            ;
        }
        let r: u64 = 2 * (half as u64);
        assert((r + 1) * (r + 1) <= 0xffff_ffff_ffff_ffff) by (nonlinear_arith)
            requires
                r <= 0xffff_fffe,
        ;
        if (r + 1) * (r + 1) <= n {
            (r + 1) as u32
        } else {
            r as u32
        }
    }
}

/// Floor of `a * b / c`, with the conventions used throughout the crate for
/// the cases no division covers: a zero divisor gives 0 when the product is 0
/// and `limit` otherwise, and a quotient above `limit` gives `limit`.
pub open spec fn scaled(a: nat, b: nat, c: nat, limit: nat) -> nat {
    if c == 0 {
        if a * b == 0 {
            0
        } else {
            limit
        }
    } else if a * b / c > limit {
        limit
    } else {
        a * b / c
    }
}

/// Computes `scaled(a, b, c, u32::MAX)`.
pub fn scale_u32(a: u32, b: u32, c: u32) -> (r: u32)
    ensures
        r == scaled(a as nat, b as nat, c as nat, u32::MAX as nat),
{
    assert(a * b <= 0xffff_ffff * 0xffff_ffff) by (nonlinear_arith)
        requires
            a <= 0xffff_ffff,
            b <= 0xffff_ffff,
    ;
    let product: u64 = (a as u64) * (b as u64);
    if c == 0 {
        if product == 0 {
            0
        } else {
            u32::MAX
        }
    } else {
        let q: u64 = product / (c as u64);
        if q > u32::MAX as u64 {
            u32::MAX
        } else {
            q as u32
        }
    }
}

} // verus!
