//! Level and group planning: how many halvings a slice stack needs until
//! both in-plane dimensions fall at or below the size threshold, the
//! power-of-two group size reducible through all levels in one pass, the
//! output count of each level, and the geometric time weights that
//! calibrate progress reporting.

use vstd::prelude::*;

verus! {

use vstd::arithmetic::power2::pow2;
use vstd::arithmetic::power2::lemma2_to64;
use vstd::arithmetic::power2::lemma_pow2_unfold;
use vstd::arithmetic::power2::lemma_pow2_pos;

/// Dimensions at or below this threshold need no further reduction.
pub const SIZE_LIMIT: u32 = 500;

/// Number of halvings of `w` by `h` until both are at or below 500.
pub open spec fn spec_levels_needed(w: nat, h: nat) -> nat
    decreases w + h,
{
    if w <= 500 && h <= 500 {
        0
    } else {
        1 + spec_levels_needed(w / 2, h / 2)
    }
}

/// `levels_needed` is at most `k` once both dimensions are below
/// `501 * 2^k`.
pub proof fn lemma_levels_needed_bound(w: nat, h: nat, k: nat)
    requires
        w < 501 * pow2(k),
        h < 501 * pow2(k),
    ensures
        spec_levels_needed(w, h) <= k,
    decreases k,
{
    if w <= 500 && h <= 500 {
    } else {
        if k == 0 {
            lemma2_to64();
        } else {
            lemma_pow2_unfold(k);
            lemma_levels_needed_bound(w / 2, h / 2, (k - 1) as nat);
        }
    }
}

/// Any `u32` dimensions need at most 24 halvings.
pub proof fn lemma_levels_needed_max(w: u32, h: u32)
    ensures
        spec_levels_needed(w as nat, h as nat) <= 24,
{
    lemma2_to64();
    lemma_levels_needed_bound(w as nat, h as nat, 24);
}

/// How many times both dimensions must be halved until each is at or
/// below 500; zero exactly when the first slice is already small enough.
pub fn levels_needed(w0: u32, h0: u32) -> (r: usize)
    ensures
        r == spec_levels_needed(w0 as nat, h0 as nat),
        r <= 24,
        (r == 0) <==> (w0 <= SIZE_LIMIT && h0 <= SIZE_LIMIT),
{
    proof {
        lemma_levels_needed_max(w0, h0);
    }
    let mut w: u32 = w0;
    let mut h: u32 = h0;
    let mut lv: usize = 0;
    while w > SIZE_LIMIT || h > SIZE_LIMIT
        invariant
            spec_levels_needed(w0 as nat, h0 as nat)
                == lv + spec_levels_needed(w as nat, h as nat),
            lv <= spec_levels_needed(w0 as nat, h0 as nat),
            spec_levels_needed(w0 as nat, h0 as nat) <= 24,
        decreases w + h,
    {
        w = w / 2;
        h = h / 2;
        lv = lv + 1;
    }
    lv
}

/// The group size: `2^levels` consecutive slices reduce through all
/// planned levels in one in-memory pass.
pub fn group_size_for(levels: usize) -> (r: usize)
    requires
        levels <= 24,
    ensures
        r == pow2(levels as nat),
        1 <= r <= 0x1000000,
{
    proof {
        lemma2_to64();
    }
    let mut r: usize = 1;
    let mut i: usize = 0;
    while i < levels
        invariant
            i <= levels <= 24,
            r == pow2(i as nat),
            r <= 0x1000000,
        decreases levels - i,
    {
        proof {
            lemma2_to64();
            lemma_pow2_unfold((i + 1) as nat);
            lemma_pow2_strictly_increases_or_eq((i + 1) as nat, 24);
        }
        r = r * 2;
        i = i + 1;
    }
    r
}

proof fn lemma_pow2_strictly_increases_or_eq(a: nat, b: nat)
    requires
        a <= b,
    ensures
        pow2(a) <= pow2(b),
    decreases b - a,
{
    if a < b {
        lemma_pow2_unfold(b);
        lemma_pow2_pos((b - 1) as nat);
        lemma_pow2_strictly_increases_or_eq(a, (b - 1) as nat);
    }
}

/// Outputs of pyramid level `l` for `n` level-0 slices:
/// `ceil(n / 2^l)`.
pub open spec fn spec_outputs(n: nat, l: nat) -> nat {
    (((n + pow2(l) - 1) as int) / (pow2(l) as int)) as nat
}

/// Outputs of one group of `k` slices at `l` halvings below it:
/// also a rounded-up quotient, since iterated rounded halving of a
/// count is division with rounding up.
pub open spec fn spec_ceil_half(k: nat) -> nat {
    (k + 1) / 2
}

/// `ceil(ceil(k / 2^l) / 2) == ceil(k / 2^(l + 1))`: halving the output
/// count of a level, rounding up, gives the next level's output count.
pub proof fn lemma_ceil_half_step(k: nat, l: nat)
    ensures
        spec_ceil_half(spec_outputs(k, l)) == spec_outputs(k, l + 1),
{
    let p = pow2(l) as int;
    lemma_pow2_pos(l);
    lemma_pow2_unfold(l + 1);
    assert(pow2(l + 1) == 2 * p);
    let q = (k + p - 1) / p;
    assert(k + p - 1 == p * q + ((k + p - 1) % p)) by {
        vstd::arithmetic::div_mod::lemma_fundamental_div_mod(k + p - 1, p);
    }
    let r = (k + p - 1) % p;
    assert(0 <= r < p);
    assert((q + 1) / 2 == (k + 2 * p - 1) / (2 * p)) by (nonlinear_arith)
        requires
            k + p - 1 == p * q + r,
            0 <= r < p,
            0 < p,
            0 <= k,
    ;
}

/// Ceiling division in executable form, for `n` at most `2^32 - 1`
/// slices (a machine limit of the progress accounting).
pub fn outputs_in_level(n: usize, l: usize) -> (r: usize)
    requires
        n <= 0xFFFF_FFFF,
        l <= 24,
    ensures
        r == spec_outputs(n as nat, l as nat),
        r <= n,
        n >= 1 ==> r >= 1,
{
    proof {
        lemma2_to64();
    }
    let p: u64 = pow2_u64(l);
    let num: u64 = n as u64 + p - 1;
    let r64: u64 = num / p;
    proof {
        lemma_pow2_pos(l as nat);
        assert(r64 <= n && (n >= 1 ==> r64 >= 1)) by (nonlinear_arith)
            requires
                r64 == ((n + p - 1) as int) / (p as int),
                1 <= p,
                0 <= n,
        ;
    }
    r64 as usize
}

/// `2^l` as a machine integer, for small `l`.
pub fn pow2_u64(l: usize) -> (r: u64)
    requires
        l <= 24,
    ensures
        r == pow2(l as nat),
        1 <= r <= 0x1000000,
{
    proof {
        lemma2_to64();
    }
    let mut r: u64 = 1;
    let mut i: usize = 0;
    while i < l
        invariant
            i <= l <= 24,
            r == pow2(i as nat),
            r <= 0x1000000,
        decreases l - i,
    {
        proof {
            lemma2_to64();
            lemma_pow2_unfold((i + 1) as nat);
            lemma_pow2_strictly_increases_or_eq((i + 1) as nat, 24);
        }
        r = r * 2;
        i = i + 1;
    }
    r
}

/// `8^k`: the assumed cost ratio between consecutive pyramid levels.
pub open spec fn pow8(k: nat) -> nat
    decreases k,
{
    if k == 0 {
        1
    } else {
        8 * pow8((k - 1) as nat)
    }
}

pub proof fn lemma_pow8_pos(a: nat)
    ensures
        1 <= pow8(a),
    decreases a,
{
    if a > 0 {
        lemma_pow8_pos((a - 1) as nat);
    }
}

pub proof fn lemma_pow8_le(a: nat, b: nat)
    requires
        a <= b,
    ensures
        pow8(a) <= pow8(b),
        1 <= pow8(a),
    decreases b - a,
{
    lemma_pow8_pos(a);
    if a < b {
        lemma_pow8_le(a, (b - 1) as nat);
        assert(pow8(b) == 8 * pow8((b - 1) as nat));
    }
}

/// `8^24` still fits comfortably in 128 bits.
pub proof fn lemma_pow8_bound()
    ensures
        pow8(24) == 0x1000000000000000000,
{
    reveal_with_fuel(pow8, 25);
}

/// The scaled time weight of level `l` out of `levels`: `8^(levels - l)`.
/// Level 1 carries the largest weight; each deeper level is assumed to
/// cost an eighth of the one before it.
pub open spec fn spec_level_weight(levels: nat, l: nat) -> nat {
    pow8((levels - l) as nat)
}

/// Sum of the scaled per-level weights of levels `1..=levels` out of
/// `total_levels`, written as the sum of `8^j` for `j < levels`.
pub open spec fn spec_weight_sum(levels: nat) -> nat
    decreases levels,
{
    if levels == 0 {
        0
    } else {
        spec_weight_sum((levels - 1) as nat) + pow8((levels - 1) as nat)
    }
}

pub proof fn lemma_weight_sum_bound(levels: nat)
    requires
        levels <= 24,
    ensures
        spec_weight_sum(levels) < pow8(levels),
        levels >= 1 ==> spec_weight_sum(levels) >= 1,
    decreases levels,
{
    if levels == 0 {
    } else {
        lemma_weight_sum_bound((levels - 1) as nat);
        lemma_pow8_le((levels - 1) as nat, (levels - 1) as nat);
        assert(pow8(levels) == 8 * pow8((levels - 1) as nat));
    }
}

/// `8^(levels - l)` in executable form.
pub fn level_weight(levels: usize, l: usize) -> (r: u128)
    requires
        1 <= l <= levels <= 24,
    ensures
        r == spec_level_weight(levels as nat, l as nat),
        1 <= r,
        r <= 0x1000000000000000000,
{
    let mut r: u128 = 1;
    let mut i: usize = 0;
    let k: usize = levels - l;
    proof {
        lemma_pow8_bound();
        lemma_pow8_le(k as nat, 24);
    }
    while i < k
        invariant
            i <= k <= 24,
            r == pow8(i as nat),
            r <= 0x1000000000000000000,
        decreases k - i,
    {
        proof {
            lemma_pow8_bound();
            lemma_pow8_le((i + 1) as nat, 24);
            assert(pow8((i + 1) as nat) == 8 * pow8(i as nat));
        }
        r = r * 8;
        i = i + 1;
    }
    proof {
        lemma_pow8_le(k as nat, 24);
        lemma_pow8_le(0, k as nat);
    }
    r
}

/// The total weight of all planned levels.
pub fn weight_total(levels: usize) -> (r: u128)
    requires
        1 <= levels <= 24,
    ensures
        r == spec_weight_sum(levels as nat),
        1 <= r,
        r <= 0x1000000000000000000,
{
    let mut r: u128 = 0;
    let mut i: usize = 0;
    proof {
        lemma_weight_sum_bound(levels as nat);
        lemma_pow8_bound();
        lemma_pow8_le(levels as nat, 24);
    }
    while i < levels
        invariant
            i <= levels <= 24,
            r == spec_weight_sum(i as nat),
            r < pow8(i as nat),
        decreases levels - i,
    {
        proof {
            lemma_pow8_bound();
            lemma_pow8_le(i as nat, 24);
            assert(pow8((i + 1) as nat) == 8 * pow8(i as nat));
            lemma_pow8_le((i + 1) as nat, 24);
        }
        let w: u128 = pow8_u128(i);
        r = r + w;
        i = i + 1;
    }
    proof {
        lemma_weight_sum_bound(levels as nat);
    }
    r
}

/// `8^k` in executable form.
pub fn pow8_u128(k: usize) -> (r: u128)
    requires
        k <= 24,
    ensures
        r == pow8(k as nat),
        1 <= r <= 0x1000000000000000000,
{
    let mut r: u128 = 1;
    let mut i: usize = 0;
    proof {
        lemma_pow8_bound();
        lemma_pow8_le(k as nat, 24);
        lemma_pow8_le(0, k as nat);
    }
    while i < k
        invariant
            i <= k <= 24,
            r == pow8(i as nat),
            r <= 0x1000000000000000000,
        decreases k - i,
    {
        proof {
            lemma_pow8_bound();
            lemma_pow8_le((i + 1) as nat, 24);
            assert(pow8((i + 1) as nat) == 8 * pow8(i as nat));
        }
        r = r * 8;
        i = i + 1;
    }
    r
}

} // verus!
