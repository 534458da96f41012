//! Pyramid down-scaling to `(w / 2, h / 2)`. For even dimensions this is the
//! rounded 2x2 box average `(a + b + c + d + 2) >> 2`. Odd dimensions need
//! bilinear resampling, which works in floating point and is done by the
//! caller; the functions here say when that is needed.

use vstd::prelude::*;
use super::{GrayImage, Plane, lemma_pixel_index};

verus! {

/// The rounded average of the 2x2 block of `src` that down-scaled pixel
/// `(x, y)` covers.
pub open spec fn box_avg(src: GrayImage, x: int, y: int) -> int {
    (src.pix(2 * x, 2 * y) + src.pix(2 * x + 1, 2 * y) + src.pix(2 * x, 2 * y + 1)
        + src.pix(2 * x + 1, 2 * y + 1) + 2) / 4
}

/// The box average for element `j` of a down-scaled plane of width `dw`.
pub open spec fn box_avg_at(src: GrayImage, dw: int, j: int) -> int {
    box_avg(src, j % dw, j / dw)
}

/// Whether both dimensions of `src` are even, so that the 2x2 box path applies.
pub open spec fn has_even_dims(src: GrayImage) -> bool {
    src.w % 2 == 0 && src.h % 2 == 0
}

proof fn lemma_shift2(v: u16)
    ensures
        v >> 2u16 == v / 4,
{
    assert(v >> 2u16 == v / 4) by (bit_vector);
}

proof fn lemma_flat_coords(j: int, dw: int, dh: int)
    requires
        0 <= j < dw * dh,
        0 < dw,
    ensures
        0 <= j % dw < dw,
        0 <= j / dw < dh,
{
    assert(0 <= j / dw < dh) by (nonlinear_arith)
        requires 0 <= j < dw * dh, 0 < dw;
}

fn box2x2(src: &GrayImage, dst: &mut GrayImage)
    requires
        src.wf(),
        old(dst).wf(),
        src.w == 2 * old(dst).w,
        src.h == 2 * old(dst).h,
    ensures
        final(dst).w == old(dst).w,
        final(dst).h == old(dst).h,
        final(dst).wf(),
        forall|j: int|
            0 <= j < final(dst).w * final(dst).h ==> final(dst).data@[j] as int == box_avg_at(
                *src,
                final(dst).w as int,
                j,
            ),
{
    let dw = dst.w;
    let dh = dst.h;
    let n = dw * dh;
    let mut j: usize = 0;
    while j < n
        invariant
            src.wf(),
            dst.wf(),
            dst.w == dw,
            dst.h == dh,
            n == dw * dh,
            src.w == 2 * dw,
            src.h == 2 * dh,
            j <= n,
            forall|k: int| 0 <= k < j ==> dst.data@[k] as int == box_avg_at(*src, dw as int, k),
        decreases n - j,
    {
        proof {
            lemma_flat_coords(j as int, dw as int, dh as int);
        }
        let x = j % dw;
        let y = j / dw;
        let s: u16 = src.at(2 * x, 2 * y) as u16 + src.at(2 * x + 1, 2 * y) as u16 + src.at(
            2 * x,
            2 * y + 1,
        ) as u16 + src.at(2 * x + 1, 2 * y + 1) as u16;
        proof {
            lemma_shift2((s + 2) as u16);
        }
        let v = ((s + 2) >> 2) as u8;
        dst.data.set(j, v);
        j = j + 1;
    }
}

/// Down-scale `src` into `dst`, resizing `dst` to `(src.w / 2, src.h / 2)`
/// (zero-filled) when its dimensions differ. For even dimensions `dst` gets
/// the 2x2 box averages and the result is `true`; otherwise `dst` is only
/// sized and the result is `false`: the caller resamples bilinearly.
pub fn downscale2_into(src: &GrayImage, dst: &mut GrayImage) -> (boxed: bool)
    requires
        src.wf(),
        old(dst).wf(),
    ensures
        boxed == has_even_dims(*src),
        final(dst).w == src.w / 2,
        final(dst).h == src.h / 2,
        final(dst).wf(),
        !boxed && old(dst).w == src.w / 2 && old(dst).h == src.h / 2 ==> final(dst).data@
            == old(dst).data@,
        !boxed && !(old(dst).w == src.w / 2 && old(dst).h == src.h / 2) ==> (forall|j: int|
            0 <= j < final(dst).data@.len() ==> final(dst).data@[j] == 0u8),
        boxed ==> forall|j: int|
            0 <= j < final(dst).w * final(dst).h ==> final(dst).data@[j] as int == box_avg_at(
                *src,
                final(dst).w as int,
                j,
            ),
{
    let dw = src.w / 2;
    let dh = src.h / 2;
    if dst.w != dw || dst.h != dh {
        assert(dw * dh <= src.w * src.h) by (nonlinear_arith)
            requires dw == src.w / 2, dh == src.h / 2;
        dst.reset(dw, dh, 0);
    }
    if src.w == 2 * dw && src.h == 2 * dh {
        box2x2(src, dst);
        true
    } else {
        false
    }
}

/// Down-scale to `(src.w / 2, src.h / 2)` by 2x2 box averages when both
/// dimensions are even; `None` when they are not (bilinear resampling, done
/// by the caller, is needed then).
pub fn downscale2(src: &GrayImage) -> (out: Option<GrayImage>)
    requires
        src.wf(),
    ensures
        out.is_some() == has_even_dims(*src),
        out matches Some(d) ==> {
            &&& d.w == src.w / 2
            &&& d.h == src.h / 2
            &&& d.wf()
            &&& forall|j: int|
                0 <= j < d.w * d.h ==> d.data@[j] as int == box_avg_at(*src, d.w as int, j)
        },
{
    let dw = src.w / 2;
    let dh = src.h / 2;
    assert(dw * dh <= src.w * src.h) by (nonlinear_arith)
        requires dw == src.w / 2, dh == src.h / 2;
    let mut dst: GrayImage = Plane::new(dw, dh);
    if downscale2_into(src, &mut dst) {
        Some(dst)
    } else {
        None
    }
}

/// Each down-scaled pixel `(x, y)` is the rounded mean `(a + b + c + d + 2)
/// / 4` of the four distinct source pixels `(2x, 2y)`, `(2x + 1, 2y)`,
/// `(2x, 2y + 1)` and `(2x + 1, 2y + 1)` of its block. So it is unchanged
/// when two pixels of the block trade values, and a block with one pixel at
/// 255 and three at 0 gives 64, whichever pixel is set.
pub proof fn lemma_box_is_rounded_block_mean(src: GrayImage, dw: int, j: int)
    requires
        dw > 0,
        j >= 0,
    ensures
        ({
            let x = j % dw;
            let y = j / dw;
            let a = src.data@[(2 * y) * src.w + 2 * x] as int;
            let b = src.data@[(2 * y) * src.w + 2 * x + 1] as int;
            let c = src.data@[(2 * y + 1) * src.w + 2 * x] as int;
            let d = src.data@[(2 * y + 1) * src.w + 2 * x + 1] as int;
            &&& box_avg_at(src, dw, j) == (a + b + c + d + 2) / 4
            &&& (a == 255 && b == 0 && c == 0 && d == 0 ==> box_avg_at(src, dw, j) == 64)
            &&& (a == 0 && b == 255 && c == 0 && d == 0 ==> box_avg_at(src, dw, j) == 64)
            &&& (a == 0 && b == 0 && c == 255 && d == 0 ==> box_avg_at(src, dw, j) == 64)
            &&& (a == 0 && b == 0 && c == 0 && d == 255 ==> box_avg_at(src, dw, j) == 64)
        }),
{
}

} // verus!
