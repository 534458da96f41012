//! Two-pass LUT thinning of a binary (0/255) edge map. Each pass rewrites
//! every interior pixel that is set with a table entry indexed by its 3x3
//! neighbourhood; the one-pixel border of the output is never written. The
//! intermediate buffer's border is defined as 0.

use vstd::prelude::*;
use crate::image::Plane;

verus! {

/// 1 when the pixel is set (255), else 0.
pub open spec fn on(p: Plane<u8>, x: int, y: int) -> int {
    if p.pix(x, y) == 255 {
        1
    } else {
        0
    }
}

/// Table index of the 3x3 neighbourhood of `(x, y)`: bit 0/1/2 for the left
/// column (top to bottom), 3/4/5 for the centre column, 6/7/8 for the right.
pub open spec fn lut_index(p: Plane<u8>, x: int, y: int) -> int {
    on(p, x - 1, y - 1) + on(p, x, y - 1) * 8 + on(p, x + 1, y - 1) * 64 + on(p, x - 1, y) * 2
        + on(p, x, y) * 16 + on(p, x + 1, y) * 128 + on(p, x - 1, y + 1) * 4 + on(p, x, y + 1)
        * 32 + on(p, x + 1, y + 1) * 256
}

/// Interior pixel of a `w x h` plane.
pub open spec fn is_interior(w: int, h: int, x: int, y: int) -> bool {
    1 <= x < w - 1 && 1 <= y < h - 1
}

/// Value one pass writes at interior pixel `(x, y)`.
pub open spec fn pass_value(inp: Plane<u8>, lut: Seq<u8>, x: int, y: int) -> u8 {
    if inp.pix(x, y) == 0 {
        0
    } else {
        lut[lut_index(inp, x, y)]
    }
}

/// Result of one pass over `inp` written into `out`: interior pixels get
/// [`pass_value`], border pixels keep `out`'s values.
pub open spec fn pass_result(inp: Plane<u8>, out: Seq<u8>, lut: Seq<u8>) -> Seq<u8> {
    Seq::new(
        out.len(),
        |j: int|
            if is_interior(inp.w as int, inp.h as int, j % inp.w as int, j / inp.w as int) {
                pass_value(inp, lut, j % inp.w as int, j / inp.w as int)
            } else {
                out[j]
            },
    )
}

fn on_exec(p: &Plane<u8>, x: usize, y: usize) -> (v: usize)
    requires
        p.wf(),
        x < p.w,
        y < p.h,
    ensures
        v == on(*p, x as int, y as int),
{
    if p.at(x, y) == 255 {
        1
    } else {
        0
    }
}

/// One thinning pass from `inp` into `out` (same dimensions).
pub fn image_iter(inp: &Plane<u8>, out: &mut Plane<u8>, lut: &[u8; 512])
    requires
        inp.wf(),
        old(out).wf(),
        old(out).w == inp.w,
        old(out).h == inp.h,
    ensures
        final(out).w == inp.w,
        final(out).h == inp.h,
        final(out).wf(),
        final(out).data@ == pass_result(*inp, old(out).data@, lut@),
{
    let w = inp.w;
    let h = inp.h;
    let n = w * h;
    let mut j: usize = 0;
    while j < n
        invariant
            inp.wf(),
            out.wf(),
            w == inp.w,
            h == inp.h,
            out.w == w,
            out.h == h,
            n == w * h,
            old(out).data@.len() == n,
            j <= n,
            forall|k: int| j <= k < n ==> out.data@[k] == old(out).data@[k],
            forall|k: int|
                0 <= k < j ==> out.data@[k] == pass_result(*inp, old(out).data@, lut@)[k],
        decreases n - j,
    {
        assert(w > 0) by (nonlinear_arith)
            requires j < n, n == w * h;
        let x = j % w;
        let y = j / w;
        proof {
            assert(y < h) by (nonlinear_arith)
                requires j < n, n == w * h, y == j / w, w > 0;
        }
        if 1 <= x && x + 1 < w && 1 <= y && y + 1 < h {
            let v = if inp.at(x, y) == 0 {
                0u8
            } else {
                let ind = on_exec(inp, x - 1, y - 1) + on_exec(inp, x, y - 1) * 8 + on_exec(
                    inp,
                    x + 1,
                    y - 1,
                ) * 64 + on_exec(inp, x - 1, y) * 2 + on_exec(inp, x, y) * 16 + on_exec(
                    inp,
                    x + 1,
                    y,
                ) * 128 + on_exec(inp, x - 1, y + 1) * 4 + on_exec(inp, x, y + 1) * 32 + on_exec(
                    inp,
                    x + 1,
                    y + 1,
                ) * 256;
                lut[ind]
            };
            out.data.set(j, v);
            assert(out.data@[j as int] == pass_result(*inp, old(out).data@, lut@)[j as int]);
        } else {
            assert(out.data@[j as int] == pass_result(*inp, old(out).data@, lut@)[j as int]);
        }
        j = j + 1;
    }
    proof {
        assert(out.data@ =~= pass_result(*inp, old(out).data@, lut@));
    }
}

/// Thin `inout` in place (two passes through `temp`). Afterwards `temp`
/// holds the first pass (border 0) and `inout` the second pass over it, its
/// border unchanged.
pub fn thin(inout: &mut Plane<u8>, temp: &mut Plane<u8>, lut1: &[u8; 512], lut2: &[u8; 512])
    requires
        old(inout).wf(),
        old(temp).wf(),
    ensures
        final(temp).w == old(inout).w,
        final(temp).h == old(inout).h,
        final(temp).data@ == pass_result(
            *old(inout),
            Seq::new((old(inout).w * old(inout).h) as nat, |j: int| 0u8),
            lut1@,
        ),
        final(inout).w == old(inout).w,
        final(inout).h == old(inout).h,
        final(inout).data@ == pass_result(*final(temp), old(inout).data@, lut2@),
{
    if temp.w != inout.w || temp.h != inout.h {
        temp.reset(inout.w, inout.h, 0);
    } else {
        temp.fill(0);
    }
    proof {
        assert(temp.data@ =~= Seq::new((old(inout).w * old(inout).h) as nat, |j: int| 0u8));
    }
    image_iter(inout, temp, lut1);
    image_iter(temp, inout, lut2);
}


/// A thinning pass never changes the border of its output plane, and sets
/// every unset interior input pixel to 0.
pub proof fn lemma_pass_keeps_border(inp: Plane<u8>, out: Seq<u8>, lut: Seq<u8>, j: int)
    requires
        0 <= j < out.len(),
        inp.w > 0,
    ensures
        !is_interior(inp.w as int, inp.h as int, j % inp.w as int, j / inp.w as int) ==> pass_result(inp, out, lut)[j] == out[j],
        is_interior(inp.w as int, inp.h as int, j % inp.w as int, j / inp.w as int) && inp.pix(j % inp.w as int, j / inp.w as int) == 0
            ==> pass_result(inp, out, lut)[j] == 0,
{
}

/// The table entry a pass reads for an interior pixel that is not 0 is
/// the sum of `2^b` over the set (255) pixels of its 3x3 window, with
/// upper-left = 1, left = 2, lower-left = 4, up = 8, centre = 16,
/// down = 32, upper-right = 64, right = 128, lower-right = 256. So a set
/// centre whose only set neighbour is its upper-left one reads entry 17.
pub proof fn lemma_pass_reads_window_bits(inp: Plane<u8>, out: Seq<u8>, lut: Seq<u8>, x: int, y: int)
    requires
        1 <= x < inp.w - 1,
        1 <= y < inp.h - 1,
        out.len() == inp.w * inp.h,
        inp.pix(x, y) != 0,
    ensures
        pass_result(inp, out, lut)[y * inp.w + x] == lut[
            (if inp.pix(x - 1, y - 1) == 255 { 1int } else { 0 })
            + (if inp.pix(x - 1, y) == 255 { 2int } else { 0 })
            + (if inp.pix(x - 1, y + 1) == 255 { 4int } else { 0 })
            + (if inp.pix(x, y - 1) == 255 { 8int } else { 0 })
            + (if inp.pix(x, y) == 255 { 16int } else { 0 })
            + (if inp.pix(x, y + 1) == 255 { 32int } else { 0 })
            + (if inp.pix(x + 1, y - 1) == 255 { 64int } else { 0 })
            + (if inp.pix(x + 1, y) == 255 { 128int } else { 0 })
            + (if inp.pix(x + 1, y + 1) == 255 { 256int } else { 0 })
        ],
{
    let w = inp.w as int;
    let j = y * w + x;
    vstd::arithmetic::div_mod::lemma_fundamental_div_mod_converse(j, w, y, x);
    assert(0 <= j < w * inp.h) by (nonlinear_arith)
        requires 1 <= x < w - 1, 1 <= y < inp.h - 1, j == y * w + x;
}

} // verus!
