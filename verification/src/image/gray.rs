//! Colour to gray conversion with 14-bit fixed-point coefficients:
//! `gray = (R*4899 + G*9617 + B*1868 + (1 << 13)) >> 14`
//! (R = 0.299, G = 0.587, B = 0.114).

use vstd::prelude::*;
use super::{GrayImage, Plane};

verus! {

pub const R_COEF: u32 = 4899;
pub const G_COEF: u32 = 9617;
pub const B_COEF: u32 = 1868;
pub const SHIFT: u32 = 14;

/// The gray level of an RGB triple.
pub open spec fn gray_of(r: u8, g: u8, b: u8) -> int {
    (r * 4899 + g * 9617 + b * 1868 + 8192) / 16384
}

proof fn lemma_shift14(v: u32)
    ensures
        v >> 14u32 == v / 16384,
{
    assert(v >> 14u32 == v / 16384) by (bit_vector);
}

/// Gray level of one pixel.
pub fn to_gray(r: u8, g: u8, b: u8) -> (v: u8)
    ensures
        v == gray_of(r, g, b),
{
    assert(1u32 << 13u32 == 8192) by (bit_vector);
    let half: u32 = 1u32 << (SHIFT - 1);
    let s: u32 = r as u32 * R_COEF + g as u32 * G_COEF + b as u32 * B_COEF + half;
    proof {
        lemma_shift14(s);
    }
    (s >> SHIFT) as u8
}

/// Gray image of interleaved pixels of `k` channels whose first three are R, G, B.
pub open spec fn gray_of_interleaved(px: Seq<u8>, k: int, n: int) -> Seq<u8> {
    Seq::new(n as nat, |i: int| gray_of(px[k * i], px[k * i + 1], px[k * i + 2]) as u8)
}

fn interleaved_to_gray(px: &[u8], k: usize, w: usize, h: usize) -> (img: GrayImage)
    requires
        3 <= k <= 4,
        px.len() == w * h * k,
    ensures
        img.w == w,
        img.h == h,
        img.wf(),
        img.data@ == gray_of_interleaved(px@, k as int, w * h),
{
    assert(w * h <= w * h * k) by (nonlinear_arith)
        requires 3 <= k;
    let n = w * h;
    let mut data: Vec<u8> = Vec::with_capacity(n);
    let mut i: usize = 0;
    while i < n
        invariant
            3 <= k <= 4,
            n == w * h,
            px.len() == n * k,
            i <= n,
            data@ == gray_of_interleaved(px@, k as int, i as int),
        decreases n - i,
    {
        assert(k * i + 3 <= n * k) by (nonlinear_arith)
            requires i < n, 3 <= k;
        let base = k * i;
        let v = to_gray(px[base], px[base + 1], px[base + 2]);
        data.push(v);
        i = i + 1;
        assert(data@ =~= gray_of_interleaved(px@, k as int, i as int));
    }
    Plane { w, h, data }
}

/// Interleaved RGB to gray.
pub fn rgb_to_gray(rgb: &[u8], w: usize, h: usize) -> (img: GrayImage)
    requires
        rgb.len() == w * h * 3,
    ensures
        img.w == w,
        img.h == h,
        img.wf(),
        img.data@ == gray_of_interleaved(rgb@, 3, w * h),
{
    interleaved_to_gray(rgb, 3, w, h)
}

/// Interleaved RGBA to gray (alpha ignored).
pub fn rgba_to_gray(rgba: &[u8], w: usize, h: usize) -> (img: GrayImage)
    requires
        rgba.len() == w * h * 4,
    ensures
        img.w == w,
        img.h == h,
        img.wf(),
        img.data@ == gray_of_interleaved(rgba@, 4, w * h),
{
    interleaved_to_gray(rgba, 4, w, h)
}

} // verus!
