//! Pure numeric transforms of the pyramid: the 2x2 box-filter spatial
//! downscale and the pairwise (axial) merge, each with round-half-up
//! semantics, for 8-bit and 16-bit grayscale buffers.

use vstd::prelude::*;

verus! {

use vstd::arithmetic::div_mod::lemma_fundamental_div_mod;
use vstd::arithmetic::div_mod::lemma_fundamental_div_mod_converse;
use vstd::arithmetic::mul::lemma_mul_inequality;

/// Rounded mean of a 2x2 block: half rounds up.
pub open spec fn down_px(a: int, b: int, c: int, d: int) -> int {
    (a + b + c + d + 2) / 4
}

/// Rounded mean of an adjacent pair: half rounds up.
pub open spec fn merge_px(x: int, y: int) -> int {
    (x + y + 1) / 2
}

/// The 2x2 source block of output cell (y, x) in a row-major buffer of row
/// length `sw`, fed through `down_px`.
pub open spec fn down_at8(s: Seq<u8>, sw: int, y: int, x: int) -> int {
    down_px(
        s[2 * y * sw + 2 * x] as int,
        s[2 * y * sw + 2 * x + 1] as int,
        s[(2 * y + 1) * sw + 2 * x] as int,
        s[(2 * y + 1) * sw + 2 * x + 1] as int,
    )
}

pub open spec fn down_at16(s: Seq<u16>, sw: int, y: int, x: int) -> int {
    down_px(
        s[2 * y * sw + 2 * x] as int,
        s[2 * y * sw + 2 * x + 1] as int,
        s[(2 * y + 1) * sw + 2 * x] as int,
        s[(2 * y + 1) * sw + 2 * x + 1] as int,
    )
}

/// The spatial downscale of a `sw` by `sh` row-major 8-bit buffer:
/// a `sw / 2` by `sh / 2` buffer of rounded 2x2 block means.
pub open spec fn spec_downscale8(s: Seq<u8>, sw: int, sh: int) -> Seq<u8> {
    Seq::new(
        ((sw / 2) * (sh / 2)) as nat,
        |i: int| down_at8(s, sw, i / (sw / 2), i % (sw / 2)) as u8,
    )
}

pub open spec fn spec_downscale16(s: Seq<u16>, sw: int, sh: int) -> Seq<u16> {
    Seq::new(
        ((sw / 2) * (sh / 2)) as nat,
        |i: int| down_at16(s, sw, i / (sw / 2), i % (sw / 2)) as u16,
    )
}

/// The pairwise merge of two equal-sized 8-bit buffers: the rounded mean,
/// element by element.
pub open spec fn spec_merge8(a: Seq<u8>, b: Seq<u8>) -> Seq<u8> {
    Seq::new(a.len(), |i: int| merge_px(a[i] as int, b[i] as int) as u8)
}

pub open spec fn spec_merge16(a: Seq<u16>, b: Seq<u16>) -> Seq<u16> {
    Seq::new(a.len(), |i: int| merge_px(a[i] as int, b[i] as int) as u16)
}

/// Merging a value with itself gives it back: `(2x + 1) / 2 == x`.
pub proof fn lemma_merge_idempotent(x: int)
    requires
        0 <= x,
    ensures
        merge_px(x, x) == x,
{
}

/// Merging a buffer with itself gives the buffer back.
pub proof fn lemma_merge_seq_idempotent8(a: Seq<u8>)
    ensures
        spec_merge8(a, a) == a,
{
    assert(spec_merge8(a, a) =~= a);
}

pub proof fn lemma_merge_seq_idempotent16(a: Seq<u16>)
    ensures
        spec_merge16(a, a) == a,
{
    assert(spec_merge16(a, a) =~= a);
}

/// The rounded 2x2 mean of in-range pixels is itself in range, and is the
/// exact integer quotient `(a + b + c + d + 2) / 4`, computed without
/// overflow in a wider accumulator.
pub proof fn lemma_down_px_range(a: int, b: int, c: int, d: int, max: int)
    requires
        0 <= a <= max,
        0 <= b <= max,
        0 <= c <= max,
        0 <= d <= max,
        0 < max,
    ensures
        0 <= down_px(a, b, c, d) <= max,
{
    assert(a + b + c + d + 2 <= 4 * max + 2);
    assert((4 * max + 2) / 4 == max);
}

pub proof fn lemma_merge_px_range(x: int, y: int, max: int)
    requires
        0 <= x <= max,
        0 <= y <= max,
        0 < max,
    ensures
        0 <= merge_px(x, y) <= max,
{
    assert((2 * max + 1) / 2 == max);
}

/// 2x2 box-filter downscale of an 8-bit grayscale buffer, halving both
/// dimensions; each output pixel is the rounded mean of its source block.
pub fn downscale_half_u8(src: &Vec<u8>, sw: usize, sh: usize) -> (dst: Vec<u8>)
    requires
        src@.len() == sw * sh,
    ensures
        dst@ == spec_downscale8(src@, sw as int, sh as int),
        dst@.len() == (sw as int / 2) * (sh as int / 2),
{
    let dw: usize = sw / 2;
    let dh: usize = sh / 2;
    let srclen: usize = src.len();
    proof {
        lemma_fundamental_div_mod(sw as int, 2);
        lemma_fundamental_div_mod(sh as int, 2);
        lemma_mul_inequality(dw as int, sw as int, dh as int);
        lemma_mul_inequality(dh as int, sh as int, sw as int);
        assert(dw * dh <= sw * sh) by (nonlinear_arith)
            requires
                2 * dw <= sw,
                2 * dh <= sh,
                0 <= dw,
                0 <= dh,
        ;
    }
    let ghost target: Seq<u8> = spec_downscale8(src@, sw as int, sh as int);
    let mut dst: Vec<u8> = Vec::new();
    let mut y: usize = 0;
    while y < dh
        invariant
            src@.len() == sw * sh,
            srclen == sw * sh,
            dw == sw as int / 2,
            dh == sh as int / 2,
            2 * dw <= sw,
            2 * dh <= sh,
            y <= dh,
            target == spec_downscale8(src@, sw as int, sh as int),
            dst@.len() == y * dw,
            dst@ == target.take(y * dw),
        decreases dh - y,
    {
        let mut x: usize = 0;
        while x < dw
            invariant
                src@.len() == sw * sh,
                srclen == sw * sh,
                dw == sw as int / 2,
                dh == sh as int / 2,
                2 * dw <= sw,
                2 * dh <= sh,
                y < dh,
                x <= dw,
                target == spec_downscale8(src@, sw as int, sh as int),
                dst@.len() == y * dw + x,
                dst@ == target.take(y * dw + x),
            decreases dw - x,
        {
            proof {
                assert((2 * y + 1) * sw + 2 * x + 1 < sw * sh) by (nonlinear_arith)
                    requires
                        0 <= x < dw,
                        0 <= y < dh,
                        2 * dw <= sw,
                        2 * dh <= sh,
                        0 <= sw,
                        0 <= sh,
                ;
                assert(y * dw + x < dw * dh) by (nonlinear_arith)
                    requires
                        0 <= x < dw,
                        0 <= y < dh,
                ;
                assert(2 * y * sw + 2 * x + 1 < (2 * y + 1) * sw) by (nonlinear_arith)
                    requires
                        0 <= y,
                        0 <= x < dw,
                        2 * dw <= sw,
                ;
            }
            let base0: usize = (2 * y) * sw + 2 * x;
            let base1: usize = (2 * y + 1) * sw + 2 * x;
            let a: u32 = src[base0] as u32;
            let b: u32 = src[base0 + 1] as u32;
            let c: u32 = src[base1] as u32;
            let d: u32 = src[base1 + 1] as u32;
            let px: u32 = (a + b + c + d + 2) / 4;
            proof {
                lemma_down_px_range(a as int, b as int, c as int, d as int, 255);
                lemma_fundamental_div_mod_converse(
                    (y * dw + x) as int, dw as int, y as int, x as int);
                assert(target[y * dw + x] == px as u8);
                assert(target.take(y * dw + x + 1)
                    =~= target.take(y * dw + x).push(px as u8));
            }
            dst.push(px as u8);
            x = x + 1;
        }
        y = y + 1;
        proof {
            assert(y * dw == (y - 1) * dw + dw) by (nonlinear_arith);
        }
    }
    proof {
        assert(dh * dw == dw * dh) by (nonlinear_arith);
        assert(dst@ =~= target);
    }
    dst
}

/// 2x2 box-filter downscale of a 16-bit grayscale buffer.
pub fn downscale_half_u16(src: &Vec<u16>, sw: usize, sh: usize) -> (dst: Vec<u16>)
    requires
        src@.len() == sw * sh,
    ensures
        dst@ == spec_downscale16(src@, sw as int, sh as int),
        dst@.len() == (sw as int / 2) * (sh as int / 2),
{
    let dw: usize = sw / 2;
    let dh: usize = sh / 2;
    let srclen: usize = src.len();
    proof {
        lemma_fundamental_div_mod(sw as int, 2);
        lemma_fundamental_div_mod(sh as int, 2);
        lemma_mul_inequality(dw as int, sw as int, dh as int);
        lemma_mul_inequality(dh as int, sh as int, sw as int);
        assert(dw * dh <= sw * sh) by (nonlinear_arith)
            requires
                2 * dw <= sw,
                2 * dh <= sh,
                0 <= dw,
                0 <= dh,
        ;
    }
    let ghost target: Seq<u16> = spec_downscale16(src@, sw as int, sh as int);
    let mut dst: Vec<u16> = Vec::new();
    let mut y: usize = 0;
    while y < dh
        invariant
            src@.len() == sw * sh,
            srclen == sw * sh,
            dw == sw as int / 2,
            dh == sh as int / 2,
            2 * dw <= sw,
            2 * dh <= sh,
            y <= dh,
            target == spec_downscale16(src@, sw as int, sh as int),
            dst@.len() == y * dw,
            dst@ == target.take(y * dw),
        decreases dh - y,
    {
        let mut x: usize = 0;
        while x < dw
            invariant
                src@.len() == sw * sh,
                srclen == sw * sh,
                dw == sw as int / 2,
                dh == sh as int / 2,
                2 * dw <= sw,
                2 * dh <= sh,
                y < dh,
                x <= dw,
                target == spec_downscale16(src@, sw as int, sh as int),
                dst@.len() == y * dw + x,
                dst@ == target.take(y * dw + x),
            decreases dw - x,
        {
            proof {
                assert((2 * y + 1) * sw + 2 * x + 1 < sw * sh) by (nonlinear_arith)
                    requires
                        0 <= x < dw,
                        0 <= y < dh,
                        2 * dw <= sw,
                        2 * dh <= sh,
                        0 <= sw,
                        0 <= sh,
                ;
                assert(y * dw + x < dw * dh) by (nonlinear_arith)
                    requires
                        0 <= x < dw,
                        0 <= y < dh,
                ;
                assert(2 * y * sw + 2 * x + 1 < (2 * y + 1) * sw) by (nonlinear_arith)
                    requires
                        0 <= y,
                        0 <= x < dw,
                        2 * dw <= sw,
                ;
            }
            let base0: usize = (2 * y) * sw + 2 * x;
            let base1: usize = (2 * y + 1) * sw + 2 * x;
            let a: u32 = src[base0] as u32;
            let b: u32 = src[base0 + 1] as u32;
            let c: u32 = src[base1] as u32;
            let d: u32 = src[base1 + 1] as u32;
            let px: u32 = (a + b + c + d + 2) / 4;
            proof {
                lemma_down_px_range(a as int, b as int, c as int, d as int, 65535);
                lemma_fundamental_div_mod_converse(
                    (y * dw + x) as int, dw as int, y as int, x as int);
                assert(target[y * dw + x] == px as u16);
                assert(target.take(y * dw + x + 1)
                    =~= target.take(y * dw + x).push(px as u16));
            }
            dst.push(px as u16);
            x = x + 1;
        }
        y = y + 1;
        proof {
            assert(y * dw == (y - 1) * dw + dw) by (nonlinear_arith);
        }
    }
    proof {
        assert(dh * dw == dw * dh) by (nonlinear_arith);
        assert(dst@ =~= target);
    }
    dst
}

/// Pairwise (axial) merge of two equal-sized 8-bit buffers: the rounded
/// mean of corresponding pixels, half rounding up.
pub fn avg_two_u8(a: &Vec<u8>, b: &Vec<u8>) -> (dst: Vec<u8>)
    requires
        a@.len() == b@.len(),
    ensures
        dst@ == spec_merge8(a@, b@),
        dst@.len() == a@.len(),
{
    let ghost target: Seq<u8> = spec_merge8(a@, b@);
    let mut dst: Vec<u8> = Vec::new();
    let mut i: usize = 0;
    while i < a.len()
        invariant
            a@.len() == b@.len(),
            i <= a@.len(),
            target == spec_merge8(a@, b@),
            dst@ == target.take(i as int),
        decreases a@.len() - i,
    {
        let px: u16 = (a[i] as u16 + b[i] as u16 + 1) / 2;
        proof {
            lemma_merge_px_range(a@[i as int] as int, b@[i as int] as int, 255);
            assert(target.take(i + 1) =~= target.take(i as int).push(px as u8));
        }
        dst.push(px as u8);
        i = i + 1;
    }
    proof {
        assert(dst@ =~= target);
    }
    dst
}

/// Pairwise (axial) merge of two equal-sized 16-bit buffers.
pub fn avg_two_u16(a: &Vec<u16>, b: &Vec<u16>) -> (dst: Vec<u16>)
    requires
        a@.len() == b@.len(),
    ensures
        dst@ == spec_merge16(a@, b@),
        dst@.len() == a@.len(),
{
    let ghost target: Seq<u16> = spec_merge16(a@, b@);
    let mut dst: Vec<u16> = Vec::new();
    let mut i: usize = 0;
    while i < a.len()
        invariant
            a@.len() == b@.len(),
            i <= a@.len(),
            target == spec_merge16(a@, b@),
            dst@ == target.take(i as int),
        decreases a@.len() - i,
    {
        let px: u32 = (a[i] as u32 + b[i] as u32 + 1) / 2;
        proof {
            lemma_merge_px_range(a@[i as int] as int, b@[i as int] as int, 65535);
            assert(target.take(i + 1) =~= target.take(i as int).push(px as u16));
        }
        dst.push(px as u16);
        i = i + 1;
    }
    proof {
        assert(dst@ =~= target);
    }
    dst
}

} // verus!
