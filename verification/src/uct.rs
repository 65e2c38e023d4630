//! Fixed-point arithmetic for UCT selection scores: a child's score is
//! its average reward plus an exploration bonus built from a square root
//! and a logarithm, all computed in unsigned fixed point with sixteen
//! fractional bits so that selection is a deterministic function of the
//! recorded statistics.

use vstd::prelude::*;
use vstd::arithmetic::power2::pow2;
use vstd::arithmetic::power2::lemma_pow2_adds;
use vstd::arithmetic::power2::lemma_pow2_strictly_increases;
use vstd::arithmetic::power2::lemma_pow2_pos;
use vstd::arithmetic::power2::lemma2_to64;
use vstd::arithmetic::div_mod::lemma_div_is_ordered;
use vstd::arithmetic::div_mod::lemma_div_denominator;
use vstd::arithmetic::div_mod::lemma_div_multiples_vanish;
use vstd::arithmetic::div_mod::lemma_multiply_divide_lt;

verus! {

/// Fixed-point scale: sixteen fractional bits.
pub const FP: u64 = 65536;

/// The natural logarithm of 2 in fixed point: round(ln 2 * FP).
pub const LN2_FP: u64 = 45426;

/// The UCT exploration constant in fixed point: round(1.4 * FP).
pub const EXPLORE_C_FP: u64 = 91750;

/// The integer square root: the largest `r` with `r * r <= x`.
pub open spec fn spec_isqrt(x: nat) -> nat
    decreases x,
{
    if x == 0 {
        0
    } else {
        let r = spec_isqrt((x - 1) as nat);
        if (r + 1) * (r + 1) <= x {
            r + 1
        } else {
            r
        }
    }
}

/// `spec_isqrt` is bracketed by the neighbouring squares.
pub proof fn lemma_isqrt_bounds(x: nat)
    ensures
        spec_isqrt(x) * spec_isqrt(x) <= x,
        x < (spec_isqrt(x) + 1) * (spec_isqrt(x) + 1),
    decreases x,
{
    if x > 0 {
        lemma_isqrt_bounds((x - 1) as nat);
        let r = spec_isqrt((x - 1) as nat);
        assert(r * r <= x - 1);
        assert(x - 1 < (r + 1) * (r + 1));
        if (r + 1) * (r + 1) <= x {
            assert(spec_isqrt(x) == r + 1);
            assert(x == (r + 1) * (r + 1));
            assert(spec_isqrt(x) * spec_isqrt(x) <= x && x < (spec_isqrt(x) + 1) * (spec_isqrt(x)
                + 1)) by (nonlinear_arith)
                requires
                    spec_isqrt(x) == r + 1,
                    x == (r + 1) * (r + 1),
            ;
        } else {
            assert(spec_isqrt(x) == r);
            assert(spec_isqrt(x) * spec_isqrt(x) <= x && x < (spec_isqrt(x) + 1) * (spec_isqrt(x)
                + 1)) by (nonlinear_arith)
                requires
                    spec_isqrt(x) == r,
                    r * r <= x,
                    x < (r + 1) * (r + 1),
            ;
        }
    } else {
        assert(spec_isqrt(0) == 0);
        assert(spec_isqrt(x) * spec_isqrt(x) <= x && x < (spec_isqrt(x) + 1) * (spec_isqrt(x)
            + 1)) by (nonlinear_arith)
            requires
                spec_isqrt(x) == 0,
                x == 0,
        ;
    }
}

/// Any value bracketed by neighbouring squares is the square root.
pub proof fn lemma_isqrt_unique(x: nat, r: nat)
    requires
        r * r <= x,
        x < (r + 1) * (r + 1),
    ensures
        r == spec_isqrt(x),
{
    lemma_isqrt_bounds(x);
    let s = spec_isqrt(x);
    if r < s {
        assert((r + 1) * (r + 1) <= s * s) by (nonlinear_arith)
            requires
                r + 1 <= s,
        ;
    }
    if s < r {
        assert((s + 1) * (s + 1) <= r * r) by (nonlinear_arith)
            requires
                s + 1 <= r,
        ;
    }
}

/// The integer square root, by binary search over the 32-bit candidates.
pub fn isqrt(x: u64) -> (r: u64)
    ensures
        r as nat == spec_isqrt(x as nat),
        (r as int) * (r as int) <= x as int,
        (x as int) < (r as int + 1) * (r as int + 1),
        r < 0x1_0000_0000,
{
    let mut lo: u64 = 0;
    let mut hi: u64 = 0x1_0000_0000;
    proof {
        assert((0x1_0000_0000 as int) * (0x1_0000_0000 as int) > x as int) by (nonlinear_arith)
            requires
                x <= 0xffff_ffff_ffff_ffff,
        ;
    }
    while lo + 1 < hi
        invariant
            lo < hi,
            hi <= 0x1_0000_0000,
            (lo as int) * (lo as int) <= x as int,
            (x as int) < (hi as int) * (hi as int),
        decreases hi - lo,
    {
        let mid = lo + (hi - lo) / 2;
        proof {
            assert((mid as int) * (mid as int) < 0x1_0000_0000_0000_0000) by (nonlinear_arith)
                requires
                    mid < 0x1_0000_0000,
            ;
        }
        if mid * mid <= x {
            lo = mid;
        } else {
            hi = mid;
        }
    }
    proof {
        lemma_isqrt_unique(x as nat, lo as nat);
    }
    lo
}

/// The position of the highest set bit: the integer part of log2.
pub open spec fn spec_msb(x: nat) -> nat
    decreases x,
{
    if x <= 1 {
        0
    } else {
        1 + spec_msb(x / 2)
    }
}

/// The highest set bit brackets the value by powers of two.
pub proof fn lemma_msb_bounds(x: nat)
    requires
        x >= 1,
    ensures
        pow2(spec_msb(x)) <= x,
        x < pow2(spec_msb(x) + 1),
    decreases x,
{
    lemma2_to64();
    if x > 1 {
        lemma_msb_bounds(x / 2);
        let m = spec_msb(x / 2);
        lemma_pow2_adds(m, 1);
        lemma_pow2_adds(m + 1, 1);
    }
}

/// A 64-bit value's highest bit is at most bit 63.
pub proof fn lemma_msb_64(x: u64)
    requires
        x >= 1,
    ensures
        spec_msb(x as nat) <= 63,
{
    lemma_msb_bounds(x as nat);
    let m = spec_msb(x as nat);
    if m > 63 {
        if m > 64 {
            lemma_pow2_strictly_increases(64, m);
        }
        assert(pow2(64) == 0x1_0000_0000_0000_0000) by {
            lemma2_to64();
        }
        assert(pow2(64) <= pow2(m));
        assert(false);
    }
}

/// `x` halved `d` times.
pub open spec fn spec_scale_down(x: nat, d: nat) -> nat
    decreases d,
{
    if d == 0 {
        x
    } else {
        spec_scale_down(x, (d - 1) as nat) / 2
    }
}

/// `x` doubled `d` times.
pub open spec fn spec_scale_up(x: nat, d: nat) -> nat
    decreases d,
{
    if d == 0 {
        x
    } else {
        spec_scale_up(x, (d - 1) as nat) * 2
    }
}

/// Halving `d` times is dividing by the `d`-th power of two.
pub proof fn lemma_scale_down_pow2(x: nat, d: nat)
    ensures
        spec_scale_down(x, d) == x / pow2(d),
    decreases d,
{
    lemma2_to64();
    if d > 0 {
        lemma_scale_down_pow2(x, (d - 1) as nat);
        lemma_pow2_pos((d - 1) as nat);
        lemma_div_denominator(x as int, pow2((d - 1) as nat) as int, 2);
        lemma_pow2_adds((d - 1) as nat, 1);
        assert(pow2(d) == pow2((d - 1) as nat) * 2);
        assert(spec_scale_down(x, d) == spec_scale_down(x, (d - 1) as nat) / 2);
        assert(spec_scale_down(x, (d - 1) as nat) == x / pow2((d - 1) as nat));
        assert((x / pow2((d - 1) as nat)) as int / 2 == x as int / (pow2((d - 1) as nat) * 2) as int);
        assert(spec_scale_down(x, d) == x / pow2(d));
    } else {
        assert(pow2(0nat) == 1);
        assert(spec_scale_down(x, 0) == x);
        assert(x / 1 == x) by (nonlinear_arith);
    }
}

/// Doubling `d` times is multiplying by the `d`-th power of two.
pub proof fn lemma_scale_up_pow2(x: nat, d: nat)
    ensures
        spec_scale_up(x, d) == x * pow2(d),
    decreases d,
{
    lemma2_to64();
    if d == 0 {
        assert(x * 1 == x) by (nonlinear_arith);
    } else {
        lemma_scale_up_pow2(x, (d - 1) as nat);
        lemma_pow2_adds((d - 1) as nat, 1);
        assert(x * (pow2((d - 1) as nat) * 2) == (x * pow2((d - 1) as nat)) * 2)
            by (nonlinear_arith);
    }
}

/// Doubling more times never shrinks the value.
pub proof fn lemma_scale_up_mono(x: nat, a: nat, b: nat)
    requires
        a <= b,
    ensures
        spec_scale_up(x, a) <= spec_scale_up(x, b),
    decreases b,
{
    if a < b {
        lemma_scale_up_mono(x, a, (b - 1) as nat);
    }
}

/// The value scaled so that its highest bit lands on bit 16.
pub open spec fn spec_mantissa(x: nat) -> nat {
    let k = spec_msb(x);
    if k >= 16 {
        spec_scale_down(x, (k - 16) as nat)
    } else {
        spec_scale_up(x, (16 - k) as nat)
    }
}

/// The mantissa fits in seventeen bits.
pub proof fn lemma_mantissa_bound(x: nat)
    requires
        x >= 1,
    ensures
        spec_mantissa(x) < 131072,
{
    lemma_msb_bounds(x);
    lemma2_to64();
    let k = spec_msb(x);
    if k >= 16 {
        lemma_scale_down_pow2(x, (k - 16) as nat);
        lemma_pow2_adds((k - 16) as nat, 17);
        lemma_pow2_pos((k - 16) as nat);
        lemma_multiply_divide_lt(x as int, pow2((k - 16) as nat) as int, pow2(17) as int);
    } else {
        lemma_scale_up_pow2(x, (16 - k) as nat);
        lemma_pow2_adds(k + 1, (16 - k) as nat);
        lemma_pow2_pos((16 - k) as nat);
        assert(x * pow2((16 - k) as nat) < pow2(k + 1) * pow2((16 - k) as nat)) by (nonlinear_arith)
            requires
                x < pow2(k + 1),
                pow2((16 - k) as nat) > 0,
        ;
    }
}

/// The fractional bits of log2 of a seventeen-bit mantissa, produced most
/// significant first by repeated squaring.
pub open spec fn spec_frac(m: nat, steps: nat) -> nat
    decreases steps,
{
    if steps == 0 {
        0
    } else {
        let m2 = (m * m) / 65536;
        if m2 >= 131072 {
            pow2((steps - 1) as nat) + spec_frac(m2 / 2, (steps - 1) as nat)
        } else {
            spec_frac(m2, (steps - 1) as nat)
        }
    }
}

/// The fraction stays below one unit of the integer part.
pub proof fn lemma_frac_bound(m: nat, steps: nat)
    ensures
        spec_frac(m, steps) < pow2(steps),
    decreases steps,
{
    lemma_pow2_pos(steps);
    if steps > 0 {
        let m2 = (m * m) / 65536;
        lemma_pow2_adds((steps - 1) as nat, 1);
        lemma2_to64();
        if m2 >= 131072 {
            lemma_frac_bound(m2 / 2, (steps - 1) as nat);
        } else {
            lemma_frac_bound(m2, (steps - 1) as nat);
            lemma_pow2_strictly_increases((steps - 1) as nat, steps);
        }
    }
}

/// log2 in fixed point: the bit position of the leading one, with sixteen
/// fractional bits refined from the mantissa.  Zero maps to zero.
pub open spec fn spec_log2_fp(x: nat) -> nat {
    if x == 0 {
        0
    } else {
        spec_msb(x) * 65536 + spec_frac(spec_mantissa(x), 16)
    }
}

/// log2 in fixed point, computed exactly as `spec_log2_fp` describes.
pub fn log2_fp(x: u64) -> (r: u64)
    requires
        x >= 1,
    ensures
        r as nat == spec_log2_fp(x as nat),
        r < 64 * 65536,
{
    proof {
        lemma_msb_64(x);
        lemma_mantissa_bound(x as nat);
    }
    // integer part: strip bits until only the leading one is left
    let mut k: u64 = 0;
    let mut t: u64 = x;
    while t >= 2
        invariant
            1 <= t <= x,
            spec_msb(x as nat) == k + spec_msb(t as nat),
            spec_msb(x as nat) <= 63,
        decreases t,
    {
        proof {
            assert(spec_msb(t as nat) == 1 + spec_msb((t / 2) as nat));
        }
        t = t / 2;
        k = k + 1;
    }
    proof {
        assert(spec_msb(1nat) == 0);
        assert(k == spec_msb(x as nat));
    }
    // mantissa: scale the value until its leading one lands on bit 16
    let mut m: u64 = x;
    if k >= 16 {
        let ghost dd = (k - 16) as nat;
        let mut d: u64 = k - 16;
        while d > 0
            invariant
                d as nat <= dd,
                m as nat == spec_scale_down(x as nat, (dd - d) as nat),
            decreases d,
        {
            proof {
                assert(spec_scale_down(x as nat, (dd - d + 1) as nat) == spec_scale_down(
                    x as nat,
                    (dd - d) as nat,
                ) / 2);
            }
            m = m / 2;
            d = d - 1;
        }
        assert(m as nat == spec_mantissa(x as nat));
    } else {
        let ghost dd = (16 - k) as nat;
        let mut d: u64 = 16 - k;
        while d > 0
            invariant
                d as nat <= dd,
                m as nat == spec_scale_up(x as nat, (dd - d) as nat),
                spec_scale_up(x as nat, dd) < 131072,
            decreases d,
        {
            proof {
                assert(spec_scale_up(x as nat, (dd - d + 1) as nat) == spec_scale_up(
                    x as nat,
                    (dd - d) as nat,
                ) * 2);
                lemma_scale_up_mono(x as nat, (dd - d + 1) as nat, dd);
            }
            m = m * 2;
            d = d - 1;
        }
        assert(m as nat == spec_mantissa(x as nat));
    }
    assert(m < 131072);
    // fraction: square the mantissa to shift out one bit of log2 at a time
    let ghost m0 = m as nat;
    let mut frac: u64 = 0;
    let mut w: u64 = 32768;
    let mut i: u64 = 16;
    proof {
        lemma_frac_bound(m0, 16);
        lemma2_to64();
    }
    while i > 0
        invariant
            i <= 16,
            i >= 1 ==> w as nat == pow2((i - 1) as nat),
            m < 131072,
            frac + spec_frac(m as nat, i as nat) == spec_frac(m0, 16),
            spec_frac(m0, 16) < 65536,
        decreases i,
    {
        let ghost mold = m as nat;
        let ghost iold = i as nat;
        proof {
            assert((m as int) * (m as int) < 0x4_0000_0000) by (nonlinear_arith)
                requires
                    m < 131072,
            ;
        }
        let m2 = m * m / FP;
        if m2 >= 2 * FP {
            frac = frac + w;
            m = m2 / 2;
        } else {
            m = m2;
        }
        proof {
            lemma2_to64();
            assert(spec_frac(mold, iold) == if (mold * mold) / 65536 >= 131072 {
                pow2((iold - 1) as nat) + spec_frac((mold * mold) / 65536 / 2, (iold - 1) as nat)
            } else {
                spec_frac((mold * mold) / 65536, (iold - 1) as nat)
            });
            if i >= 2 {
                lemma_pow2_adds((i - 2) as nat, 1);
            }
        }
        w = w / 2;
        i = i - 1;
    }
    proof {
        assert(spec_frac(m as nat, 0) == 0);
    }
    k * FP + frac
}

/// The natural logarithm in fixed point, from log2.
pub open spec fn spec_ln_fp(n: u64) -> int {
    ((spec_log2_fp(n as nat) * 45426) / 65536) as int
}

/// The UCT priority of a child, in fixed point: the child's average reward
/// plus an exploration bonus that grows with the parent's visits and
/// shrinks with the child's.  Rewards are in half-points, so the average is
/// `wins / (2 * plays)`.
pub open spec fn spec_uct_fp(wins: u64, plays: u64, parent_plays: u64, c_fp: u64) -> int
    recommends
        plays >= 1,
{
    let exploit = (wins * 65536) / (2 * plays);
    let explore = (c_fp * spec_isqrt((2 * spec_ln_fp(parent_plays) * 65536 / (plays as int)) as nat))
        / 65536;
    exploit + explore
}

/// The UCT priority, computed exactly as `spec_uct_fp` describes.
pub fn uct_fp(wins: u64, plays: u64, parent_plays: u64, c_fp: u64) -> (r: u64)
    requires
        1 <= plays,
        plays <= parent_plays,
        parent_plays <= 0x1_0000_0000,
        wins <= 2 * plays,
        c_fp <= 1048576,
    ensures
        r == spec_uct_fp(wins, plays, parent_plays, c_fp),
        r < 0x20_0000_0000,
{
    proof {
        lemma_div_is_ordered((wins * 65536) as int, ((2 * plays) * 65536) as int, (2 * plays) as int);
        lemma_div_multiples_vanish(65536, (2 * plays) as int);
    }
    let exploit = wins * FP / (2 * plays);
    let l2 = log2_fp(parent_plays);
    proof {
        lemma_div_is_ordered((l2 * 45426) as int, 0xffff_ffff_ffff as int, 65536);
    }
    let lnn = l2 * LN2_FP / FP;
    let t = 2 * lnn * FP / plays;
    let s = isqrt(t);
    proof {
        assert((c_fp as int) * (s as int) <= 1048576 * 0x1_0000_0000) by (nonlinear_arith)
            requires
                c_fp <= 1048576,
                s < 0x1_0000_0000,
        ;
    }
    proof {
        lemma_div_is_ordered((c_fp * s) as int, 0x10_0000_0000_0000 as int, 65536);
    }
    let explore = c_fp * s / FP;
    exploit + explore
}

} // verus!
