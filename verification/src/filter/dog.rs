//! Data of the 9x9 derivative-of-Gaussian gradient filter and its border
//! rule. The kernel `K` for the x derivative is `f32` data, given here by its
//! IEEE-754 bit patterns (the convolution itself runs in floating point).
//! It is antisymmetric across its centre column and symmetric across its
//! centre row; the kernel for the y derivative is its transpose.

use vstd::prelude::*;

verus! {

/// Bit patterns of the `f32` entries of the 9x9 x-derivative kernel, row `r`
/// then column `c`.
pub const KERNEL_DX_BITS: [[u32; 9]; 9] = [
    [0xb419d9ac, 0xb66ed1db, 0xb7f273a2, 0xb887d2fa, 0x00000000, 0x3887d2fa, 0x37f273a2, 0x366ed1db, 0x3419d9ac],
    [0xb69f3692, 0xb8f724fe, 0xba7ae72d, 0xbb0c8f05, 0x00000000, 0x3b0c8f05, 0x3a7ae72d, 0x38f724fe, 0x369f3692],
    [0xb87273a2, 0xbabc2d62, 0xbc3f09ff, 0xbcd60b5e, 0x00000000, 0x3cd60b5e, 0x3c3f09ff, 0x3abc2d62, 0x387273a2],
    [0xb987d2fa, 0xbbd2d688, 0xbd560b5e, 0xbdefd1f3, 0x00000000, 0x3defd1f3, 0x3d560b5e, 0x3bd2d688, 0x3987d2fa],
    [0xb9dfefa7, 0xbc2dce7a, 0xbdb07325, 0xbe45b2c1, 0x00000000, 0x3e45b2c1, 0x3db07325, 0x3c2dce7a, 0x39dfefa7],
    [0xb987d2fa, 0xbbd2d688, 0xbd560b5e, 0xbdefd1f3, 0x00000000, 0x3defd1f3, 0x3d560b5e, 0x3bd2d688, 0x3987d2fa],
    [0xb87273a2, 0xbabc2d62, 0xbc3f09ff, 0xbcd60b5e, 0x00000000, 0x3cd60b5e, 0x3c3f09ff, 0x3abc2d62, 0x387273a2],
    [0xb69f3692, 0xb8f724fe, 0xba7ae72d, 0xbb0c8f05, 0x00000000, 0x3b0c8f05, 0x3a7ae72d, 0x38f724fe, 0x369f3692],
    [0xb419d9ac, 0xb66ed1db, 0xb7f273a2, 0xb887d2fa, 0x00000000, 0x3887d2fa, 0x37f273a2, 0x366ed1db, 0x3419d9ac],
];

/// Half width of the kernel.
pub const HALF: usize = 4;

/// Replicate-border index: `i` clamped to `0..n`.
pub fn clamp_idx(i: isize, n: usize) -> (r: usize)
    requires
        i < 0 || n > 0,
    ensures
        r == if i < 0 {
            0
        } else if i >= n {
            n - 1
        } else {
            i as int
        },
{
    if i < 0 {
        0
    } else if i as usize >= n {
        n - 1
    } else {
        i as usize
    }
}

} // verus!
