//! The recoded OpenCV-1.x Canny detector: non-maxima suppression of the
//! gradient magnitude followed by hysteresis, operating on `i16` derivative
//! planes. The gradient magnitudes (`round(sqrt(dx^2 + dy^2))`, computed in
//! floating point) are an input plane.
//!
//! Coordinates in the specifications are those of a map padded by one pixel
//! on every side: image pixel `(x, y)` is map cell `(y + 1, x + 1)`, stored at
//! index `(y + 1) * (w + 2) + x + 1`.

use vstd::prelude::*;
use vstd::arithmetic::div_mod::{lemma_fundamental_div_mod, lemma_fundamental_div_mod_converse};
use crate::image::{I16Plane, Plane};

verus! {

/// `(int)(tan(22.5deg) * (1 << 15) + 0.5)`.
pub const TG22: i32 = 13573;

/// Map cell values.
pub const CANDIDATE: u8 = 0;
pub const NOT_EDGE: u8 = 1;
pub const EDGE: u8 = 2;

/// Scratch buffers reused across calls.
#[derive(Debug)]
pub struct CannyWorkspace {
    /// `(w + 2) * (h + 2)` map: 0 = candidate, 1 = not an edge, 2 = edge.
    map: Vec<u8>,
    /// Edge cells whose neighbours are still to be visited.
    stack: Vec<usize>,
}

impl CannyWorkspace {
    /// Both buffers are empty (nothing allocated for a plane yet).
    pub closed spec fn is_unused(&self) -> bool {
        self.map@.len() == 0 && self.stack@.len() == 0
    }
}

impl Default for CannyWorkspace {
    /// A workspace with empty buffers.
    fn default() -> (ws: Self)
        ensures
            ws.is_unused(),
    {
        CannyWorkspace { map: Vec::new(), stack: Vec::new() }
    }
}

/// Gradient magnitude at padded cell `(r1, c1)`, zero outside the image.
pub open spec fn mag_pad(mag: Plane<i32>, r1: int, c1: int) -> int {
    if 1 <= r1 <= mag.h && 1 <= c1 <= mag.w {
        mag.pix(c1 - 1, r1 - 1) as int
    } else {
        0
    }
}

/// Two's-complement wrap of a value below `2^32` into `i32`.
pub open spec fn wrap_i32(v: int) -> int {
    if v > 0x7fff_ffff {
        v - 0x1_0000_0000
    } else {
        v
    }
}

pub open spec fn iabs(v: int) -> int {
    if v < 0 {
        -v
    } else {
        v
    }
}

/// Non-maxima test of padded cell `(r1, c1)` along the quantised gradient
/// direction (horizontal, vertical or one of the diagonals).
pub open spec fn is_local_max(dx: I16Plane, dy: I16Plane, mag: Plane<i32>, r1: int, c1: int) -> bool {
    let x = dx.pix(c1 - 1, r1 - 1) as int;
    let y = dy.pix(c1 - 1, r1 - 1) as int;
    let ax = iabs(x);
    let ay = iabs(y);
    let m = mag_pad(mag, r1, c1);
    let s: int = if (x < 0) != (y < 0) {
        -1
    } else {
        1
    };
    if ay * 32768 < ax * 13573 {
        m > mag_pad(mag, r1, c1 - 1) && m >= mag_pad(mag, r1, c1 + 1)
    } else if ay * 32768 > wrap_i32(ax * 13573 + ax * 65536) {
        m > mag_pad(mag, r1 - 1, c1) && m >= mag_pad(mag, r1 + 1, c1)
    } else {
        m > mag_pad(mag, r1 - 1, c1 - s) && m > mag_pad(mag, r1 + 1, c1 + s)
    }
}

/// A pixel above the low threshold that is a local maximum.
pub open spec fn is_candidate(
    dx: I16Plane,
    dy: I16Plane,
    mag: Plane<i32>,
    low: i32,
    r1: int,
    c1: int,
) -> bool {
    mag_pad(mag, r1, c1) > low && is_local_max(dx, dy, mag, r1, c1)
}

/// Class of padded cell `(r1, c1)` after non-maxima suppression: border
/// cells and non-candidates are 1; a candidate above the high threshold is
/// a seed (2) unless the row already has a seed since its last 1 or the cell
/// above is a seed; other candidates are 0.
pub open spec fn nms_class(
    dx: I16Plane,
    dy: I16Plane,
    mag: Plane<i32>,
    low: i32,
    high: i32,
    r1: nat,
    c1: nat,
) -> u8
    decreases r1, c1, 1nat,
{
    if r1 == 0 || c1 == 0 || r1 > dx.h || c1 > dx.w {
        1
    } else if !is_candidate(dx, dy, mag, low, r1 as int, c1 as int) {
        1
    } else if mag_pad(mag, r1 as int, c1 as int) > high && !nms_prev_flag(
        dx,
        dy,
        mag,
        low,
        high,
        r1,
        c1,
    ) && nms_class(dx, dy, mag, low, high, (r1 - 1) as nat, c1) != 2 {
        2
    } else {
        0
    }
}

/// Whether a seed was set in row `r1` left of column `c1` with no 1 since.
pub open spec fn nms_prev_flag(
    dx: I16Plane,
    dy: I16Plane,
    mag: Plane<i32>,
    low: i32,
    high: i32,
    r1: nat,
    c1: nat,
) -> bool
    decreases r1, c1, 0nat,
{
    if c1 <= 1 {
        false
    } else {
        let k = nms_class(dx, dy, mag, low, high, r1, (c1 - 1) as nat);
        if k == 2 {
            true
        } else if k == 1 {
            false
        } else {
            nms_prev_flag(dx, dy, mag, low, high, r1, (c1 - 1) as nat)
        }
    }
}

/// The padded map after non-maxima suppression.
pub open spec fn nms_map(
    dx: I16Plane,
    dy: I16Plane,
    mag: Plane<i32>,
    low: i32,
    high: i32,
) -> Seq<u8> {
    let ww = dx.w + 2;
    Seq::new(
        (ww * (dx.h + 2)) as nat,
        |p: int| nms_class(dx, dy, mag, low, high, (p / ww) as nat, (p % ww) as nat),
    )
}

/// 8-neighbourhood of map indices in a map of width `ww`.
pub open spec fn adjacent(ww: int, p: int, q: int) -> bool {
    let d = q - p;
    d == 1 || d == -1 || d == ww || d == -ww || d == ww + 1 || d == ww - 1 || d == -ww + 1 || d
        == -ww - 1
}

/// A chain of 8-connected cells that starts at a seed (2) and runs through
/// seeds and candidates (0) only.
pub open spec fn is_path(m0: Seq<u8>, ww: int, path: Seq<int>) -> bool {
    &&& path.len() > 0
    &&& 0 <= path[0] < m0.len()
    &&& m0[path[0]] == 2
    &&& forall|i: int|
        0 <= i < path.len() ==> 0 <= #[trigger] path[i] < m0.len() && (m0[path[i]] == 0
            || m0[path[i]] == 2)
    &&& forall|i: int| 0 <= i < path.len() - 1 ==> adjacent(ww, #[trigger] path[i], path[i + 1])
}

/// Cell `p` is connected to a seed through seeds and candidates.
pub open spec fn reach(m0: Seq<u8>, ww: int, p: int) -> bool {
    exists|path: Seq<int>| #[trigger] is_path(m0, ww, path) && path.last() == p
}

/// Whether Canny marks image pixel `(x, y)` as an edge: its map cell is
/// connected to a seed through seeds and candidates.
pub open spec fn canny_edge(
    dx: I16Plane,
    dy: I16Plane,
    mag: Plane<i32>,
    low: i32,
    high: i32,
    x: int,
    y: int,
) -> bool {
    reach(nms_map(dx, dy, mag, low, high), dx.w + 2, (y + 1) * (dx.w + 2) + x + 1)
}

/// Padded cell `(r1, c1)` sits at index `r1 * ww + c1`.
proof fn lemma_cell_index(ww: int, r1: int, c1: int)
    requires
        0 <= c1 < ww,
        0 <= r1,
    ensures
        (r1 * ww + c1) / ww == r1,
        (r1 * ww + c1) % ww == c1,
{
    lemma_fundamental_div_mod_converse(r1 * ww + c1, ww, r1, c1);
}

fn mag_pad_exec(mag: &Plane<i32>, r1: usize, c1: usize) -> (v: i32)
    requires
        mag.wf(),
    ensures
        v == mag_pad(*mag, r1 as int, c1 as int),
{
    if r1 == 0 || c1 == 0 || r1 > mag.h || c1 > mag.w {
        0
    } else {
        mag.at(c1 - 1, r1 - 1)
    }
}

/// Class of interior cell `(r1, c1)` given the row's seed flag and the class
/// of the cell above.
fn nms_class_exec(
    dx: &I16Plane,
    dy: &I16Plane,
    mag: &Plane<i32>,
    low: i32,
    high: i32,
    r1: usize,
    c1: usize,
    prev: bool,
    above: u8,
) -> (k: u8)
    requires
        dx.wf(),
        dy.wf(),
        mag.wf(),
        dy.w == dx.w,
        dy.h == dx.h,
        mag.w == dx.w,
        mag.h == dx.h,
        1 <= r1 <= dx.h,
        1 <= c1 <= dx.w,
        dx.h + 2 <= usize::MAX,
        dx.w + 2 <= usize::MAX,
        prev == nms_prev_flag(*dx, *dy, *mag, low, high, r1 as nat, c1 as nat),
        above == nms_class(*dx, *dy, *mag, low, high, (r1 - 1) as nat, c1 as nat),
    ensures
        k == nms_class(*dx, *dy, *mag, low, high, r1 as nat, c1 as nat),
{
    let x = dx.at(c1 - 1, r1 - 1) as i32;
    let y = dy.at(c1 - 1, r1 - 1) as i32;
    let m = mag_pad_exec(mag, r1, c1);
    if m <= low {
        return NOT_EDGE;
    }
    let neg = (x < 0) != (y < 0);
    let ax: i32 = if x < 0 {
        -x
    } else {
        x
    };
    let ay: i32 = if y < 0 {
        -y
    } else {
        y
    };
    let tg22x: i32 = ax * TG22;
    let t: i64 = ax as i64 * 79109;
    let tg67x: i64 = if t > 0x7fff_ffff {
        t - 0x1_0000_0000
    } else {
        t
    };
    let yy: i32 = ay * 32768;
    let local_max = if yy < tg22x {
        m > mag_pad_exec(mag, r1, c1 - 1) && m >= mag_pad_exec(mag, r1, c1 + 1)
    } else if yy as i64 > tg67x {
        m > mag_pad_exec(mag, r1 - 1, c1) && m >= mag_pad_exec(mag, r1 + 1, c1)
    } else if neg {
        m > mag_pad_exec(mag, r1 - 1, c1 + 1) && m > mag_pad_exec(mag, r1 + 1, c1 - 1)
    } else {
        m > mag_pad_exec(mag, r1 - 1, c1 - 1) && m > mag_pad_exec(mag, r1 + 1, c1 + 1)
    };
    if !local_max {
        NOT_EDGE
    } else if m > high && !prev && above != EDGE {
        EDGE
    } else {
        CANDIDATE
    }
}


/// The map holds the first `map.len()` cells of the non-maxima-suppressed
/// map, and the stack holds exactly the positions of its seeds.
pub open spec fn nms_prefix(
    dx: I16Plane,
    dy: I16Plane,
    mag: Plane<i32>,
    low: i32,
    high: i32,
    map: Seq<u8>,
    stack: Seq<usize>,
) -> bool {
    let ww = dx.w + 2;
    &&& forall|k: int|
        0 <= k < map.len() ==> #[trigger] map[k] == nms_class(
            dx,
            dy,
            mag,
            low,
            high,
            (k / ww) as nat,
            (k % ww) as nat,
        )
    &&& forall|i: int| 0 <= i < stack.len() ==> #[trigger] stack[i] < map.len() && map[stack[i] as int] == 2
    &&& forall|k: int| 0 <= k < map.len() && #[trigger] map[k] == 2 ==> stack.contains(k as usize)
}

proof fn lemma_grid_bound(ww: int, hh: int, r1: int, c1: int)
    requires
        0 <= r1 < hh,
        0 <= c1 < ww,
    ensures
        0 <= r1 * ww + c1 < ww * hh,
        r1 * ww + c1 + 1 <= ww * hh,
        (r1 + 1) * ww == r1 * ww + ww,
{
    assert(r1 * ww + c1 < ww * hh) by (nonlinear_arith)
        requires 0 <= r1 < hh, 0 <= c1 < ww;
    assert(0 <= r1 * ww) by (nonlinear_arith)
        requires 0 <= r1 < hh, 0 <= c1 < ww;
    assert((r1 + 1) * ww == r1 * ww + ww) by (nonlinear_arith);
}

/// Append padded cell `(r1, c1)` with class `k` to the map, recording seeds.
fn push_cell(
    map: &mut Vec<u8>,
    stack: &mut Vec<usize>,
    k: u8,
    Ghost(dx): Ghost<I16Plane>,
    Ghost(dy): Ghost<I16Plane>,
    Ghost(mag): Ghost<Plane<i32>>,
    Ghost(low): Ghost<i32>,
    Ghost(high): Ghost<i32>,
    Ghost(r1): Ghost<nat>,
    Ghost(c1): Ghost<nat>,
)
    requires
        nms_prefix(dx, dy, mag, low, high, old(map)@, old(stack)@),
        c1 < dx.w + 2,
        old(map)@.len() == r1 * (dx.w + 2) + c1,
        old(map)@.len() < usize::MAX,
        k == nms_class(dx, dy, mag, low, high, r1, c1),
    ensures
        nms_prefix(dx, dy, mag, low, high, final(map)@, final(stack)@),
        final(map)@ == old(map)@.push(k),
{
    let ghost ww = dx.w + 2;
    let pos = map.len();
    proof {
        lemma_cell_index(ww as int, r1 as int, c1 as int);
    }
    map.push(k);
    if k == EDGE {
        stack.push(pos);
        assert(stack@.last() == pos);
    }
    proof {
        assert forall|kk: int| 0 <= kk < map@.len() && #[trigger] map@[kk] == 2 implies stack@.contains(
            kk as usize,
        ) by {
            if kk < pos {
                assert(old(stack)@.contains(kk as usize));
                let j = choose|j: int| 0 <= j < old(stack)@.len() && old(stack)@[j] == kk as usize;
                assert(stack@[j] == kk as usize);
            } else {
                assert(stack@[stack@.len() - 1] == kk as usize);
            }
        }
    }
}

/// Non-maxima suppression: build the padded class map and the seed stack.
fn build_nms_map(
    dx: &I16Plane,
    dy: &I16Plane,
    mag: &Plane<i32>,
    low: i32,
    high: i32,
    map: &mut Vec<u8>,
    stack: &mut Vec<usize>,
)
    requires
        dx.wf(),
        dy.wf(),
        mag.wf(),
        dy.w == dx.w,
        dy.h == dx.h,
        mag.w == dx.w,
        mag.h == dx.h,
        (dx.w + 2) * (dx.h + 2) <= usize::MAX,
    ensures
        final(map)@ == nms_map(*dx, *dy, *mag, low, high),
        nms_prefix(*dx, *dy, *mag, low, high, final(map)@, final(stack)@),
{
    let w = dx.w;
    let h = dx.h;
    assert(dx.w + 2 <= usize::MAX && dx.h + 2 <= usize::MAX) by (nonlinear_arith)
        requires (dx.w + 2) * (dx.h + 2) <= usize::MAX;
    let ww = w + 2;
    let ghost hh = h + 2;
    map.clear();
    stack.clear();
    proof {
        lemma_grid_bound(ww as int, hh as int, 0, 0);
    }
    // top border row
    let mut c1: usize = 0;
    while c1 < ww
        invariant
            ww == dx.w + 2,
            hh == dx.h + 2,
            ww * hh <= usize::MAX,
            c1 <= ww,
            map@.len() == c1,
            nms_prefix(*dx, *dy, *mag, low, high, map@, stack@),
        decreases ww - c1,
    {
        proof {
            lemma_grid_bound(ww as int, hh as int, 0, c1 as int);
        }
        push_cell(map, stack, NOT_EDGE, Ghost(*dx), Ghost(*dy), Ghost(*mag), Ghost(low), Ghost(high), Ghost(0), Ghost(c1 as nat));
        c1 = c1 + 1;
    }
    let mut r1: usize = 1;
    while r1 <= h
        invariant
            ww == dx.w + 2,
            hh == dx.h + 2,
            w == dx.w,
            h == dx.h,
            dx.wf(),
            dy.wf(),
            mag.wf(),
            dy.w == dx.w,
            dy.h == dx.h,
            mag.w == dx.w,
            mag.h == dx.h,
            ww * hh <= usize::MAX,
            h + 2 <= usize::MAX,
            1 <= r1 <= h + 1,
            map@.len() == r1 * ww,
            nms_prefix(*dx, *dy, *mag, low, high, map@, stack@),
        decreases h + 1 - r1,
    {
        proof {
            lemma_grid_bound(ww as int, hh as int, r1 as int, 0);
        }
        push_cell(map, stack, NOT_EDGE, Ghost(*dx), Ghost(*dy), Ghost(*mag), Ghost(low), Ghost(high), Ghost(r1 as nat), Ghost(0));
        let mut prev = false;
        let mut c1: usize = 1;
        while c1 <= w
            invariant
                ww == dx.w + 2,
                hh == dx.h + 2,
                w == dx.w,
                h == dx.h,
                dx.wf(),
                dy.wf(),
                mag.wf(),
                dy.w == dx.w,
                dy.h == dx.h,
                mag.w == dx.w,
                mag.h == dx.h,
                ww * hh <= usize::MAX,
                h + 2 <= usize::MAX,
                1 <= r1 <= h,
                1 <= c1 <= w + 1,
                map@.len() == r1 * ww + c1,
                prev == nms_prev_flag(*dx, *dy, *mag, low, high, r1 as nat, c1 as nat),
                nms_prefix(*dx, *dy, *mag, low, high, map@, stack@),
            decreases w + 1 - c1,
        {
            proof {
                lemma_grid_bound(ww as int, hh as int, r1 as int, c1 as int);
                lemma_grid_bound(ww as int, hh as int, r1 as int - 1, c1 as int);
                lemma_cell_index(ww as int, r1 as int - 1, c1 as int);
            }
            let above = map[(r1 - 1) * ww + c1];
            let k = nms_class_exec(dx, dy, mag, low, high, r1, c1, prev, above);
            push_cell(map, stack, k, Ghost(*dx), Ghost(*dy), Ghost(*mag), Ghost(low), Ghost(high), Ghost(r1 as nat), Ghost(c1 as nat));
            if k == EDGE {
                prev = true;
            } else if k == NOT_EDGE {
                prev = false;
            }
            c1 = c1 + 1;
        }
        proof {
            lemma_grid_bound(ww as int, hh as int, r1 as int, w as int + 1);
        }
        push_cell(map, stack, NOT_EDGE, Ghost(*dx), Ghost(*dy), Ghost(*mag), Ghost(low), Ghost(high), Ghost(r1 as nat), Ghost((w + 1) as nat));
        r1 = r1 + 1;
    }
    // bottom border row
    let mut c1: usize = 0;
    while c1 < ww
        invariant
            ww == dx.w + 2,
            hh == dx.h + 2,
            h == dx.h,
            ww * hh <= usize::MAX,
            c1 <= ww,
            map@.len() == (h + 1) * ww + c1,
            nms_prefix(*dx, *dy, *mag, low, high, map@, stack@),
        decreases ww - c1,
    {
        proof {
            lemma_grid_bound(ww as int, hh as int, h as int + 1, c1 as int);
        }
        push_cell(map, stack, NOT_EDGE, Ghost(*dx), Ghost(*dy), Ghost(*mag), Ghost(low), Ghost(high), Ghost((h + 1) as nat), Ghost(c1 as nat));
        c1 = c1 + 1;
    }
    proof {
        lemma_grid_bound(ww as int, hh as int, h as int + 1, ww as int - 1);
        assert((h + 1) * ww + ww == ww * hh) by (nonlinear_arith)
            requires hh == h + 2;
        assert(map@ =~= nms_map(*dx, *dy, *mag, low, high));
    }
}


/// Number of candidate (0) cells.
pub open spec fn zeros(s: Seq<u8>) -> nat
    decreases s.len(),
{
    if s.len() == 0 {
        0
    } else {
        zeros(s.drop_last()) + if s.last() == 0 {
            1nat
        } else {
            0nat
        }
    }
}

proof fn lemma_zeros_update(s: Seq<u8>, i: int, v: u8)
    requires
        0 <= i < s.len(),
        s[i] == 0,
        v != 0,
    ensures
        zeros(s.update(i, v)) + 1 == zeros(s),
    decreases s.len(),
{
    let t = s.update(i, v);
    if i == s.len() - 1 {
        assert(t.drop_last() =~= s.drop_last());
    } else {
        assert(t.drop_last() =~= s.drop_last().update(i, v));
        lemma_zeros_update(s.drop_last(), i, v);
    }
}

/// Every cell that is not 1 lies in the interior, with all 8 neighbours
/// inside the map.
pub open spec fn map_shape(m0: Seq<u8>, ww: int) -> bool {
    &&& forall|k: int| 0 <= k < m0.len() && #[trigger] m0[k] != 1 ==> ww + 1 <= k && k + ww + 1 < m0.len()
}

/// All 8 neighbours of cell `k` are settled (not 0).
pub open spec fn closed(m: Seq<u8>, ww: int, k: int) -> bool {
    forall|q: int| 0 <= q < m.len() && adjacent(ww, k, q) ==> #[trigger] m[q] != 0
}

/// Hysteresis invariant over the initial map `m0`, the current map `m` and
/// the stack `st`; the closure of cell `skip` is not required.
pub open spec fn hyst_inv(m0: Seq<u8>, m: Seq<u8>, st: Seq<usize>, ww: int, skip: int) -> bool {
    &&& m.len() == m0.len()
    &&& forall|k: int|
        0 <= k < m.len() ==> (#[trigger] m[k] == 0 || m[k] == 1 || m[k] == 2) && (m0[k] == 0
            || m0[k] == 1 || m0[k] == 2) && ((m[k] == 1) == (m0[k] == 1)) && (m0[k] == 2 ==> m[k]
            == 2)
    &&& forall|i: int| 0 <= i < st.len() ==> #[trigger] st[i] < m.len() && m[st[i] as int] == 2
    &&& forall|k: int|
        0 <= k < m.len() && #[trigger] m[k] == 2 && !st.contains(k as usize) && k != skip
            ==> closed(m, ww, k)
    &&& forall|k: int| 0 <= k < m.len() && #[trigger] m[k] == 2 ==> reach(m0, ww, k)
}

proof fn lemma_nms_map_shape(
    dx: I16Plane,
    dy: I16Plane,
    mag: Plane<i32>,
    low: i32,
    high: i32,
)
    ensures
        map_shape(nms_map(dx, dy, mag, low, high), dx.w + 2),
{
    let m0 = nms_map(dx, dy, mag, low, high);
    let ww = dx.w + 2;
    let hh = dx.h + 2;
    assert forall|k: int| 0 <= k < m0.len() && #[trigger] m0[k] != 1 implies ww + 1 <= k && k + ww
        + 1 < m0.len() by {
        lemma_fundamental_div_mod(k, ww);
        let r1 = k / ww;
        let c1 = k % ww;
        assert(1 <= r1 <= dx.h && 1 <= c1 <= dx.w);
        assert(ww + 1 <= k && k + ww + 1 < ww * hh) by (nonlinear_arith)
            requires
                k == ww * r1 + c1,
                1 <= r1 <= hh - 2,
                1 <= c1 <= ww - 2,
        ;
    }
}

/// Visit neighbour `q` of the edge cell `p`: a candidate becomes an edge
/// and is pushed.
fn visit(
    map: &mut Vec<u8>,
    stack: &mut Vec<usize>,
    q: usize,
    Ghost(m0): Ghost<Seq<u8>>,
    Ghost(ww): Ghost<int>,
    Ghost(p): Ghost<int>,
)
    requires
        hyst_inv(m0, old(map)@, old(stack)@, ww, p),
        0 <= p < old(map)@.len(),
        old(map)@[p] == 2,
        adjacent(ww, p, q as int),
        q < old(map)@.len(),
    ensures
        hyst_inv(m0, final(map)@, final(stack)@, ww, p),
        final(map)@[q as int] != 0,
        final(map)@.len() == old(map)@.len(),
        forall|k: int|
            0 <= k < old(map)@.len() && #[trigger] old(map)@[k] != 0 ==> final(map)@[k] == old(
                map,
            )@[k],
        9 * zeros(final(map)@) + final(stack)@.len() <= 9 * zeros(old(map)@) + old(stack)@.len(),
{
    if map[q] == CANDIDATE {
        let ghost om = map@;
        let ghost ost = stack@;
        map.set(q, EDGE);
        stack.push(q);
        proof {
            lemma_zeros_update(om, q as int, 2);
            assert(m0[q as int] == 0);
            let path = choose|path: Seq<int>| #[trigger] is_path(m0, ww, path) && path.last() == p;
            let np = path.push(q as int);
            assert(np[np.len() - 2] == p);
            assert(is_path(m0, ww, np));
            assert(np.last() == q as int);
            assert(stack@[stack@.len() - 1] == q);
            assert forall|i: int| 0 <= i < stack@.len() implies #[trigger] stack@[i] < map@.len()
                && map@[stack@[i] as int] == 2 by {
                if i < ost.len() {
                    assert(stack@[i] == ost[i]);
                }
            }
            assert forall|k: int|
                0 <= k < map@.len() && #[trigger] map@[k] == 2 && !stack@.contains(k as usize) && k
                    != p implies closed(map@, ww, k) by {
                assert(k != q as int);
                if ost.contains(k as usize) {
                    let j = choose|j: int| 0 <= j < ost.len() && ost[j] == k as usize;
                    assert(stack@[j] == k as usize);
                }
                assert(closed(om, ww, k));
                assert forall|qq: int| 0 <= qq < map@.len() && adjacent(ww, k, qq) implies #[trigger] map@[qq] != 0 by {
                    assert(om[qq] != 0);
                }
            }
            assert forall|k: int| 0 <= k < map@.len() && #[trigger] map@[k] == 2 implies reach(
                m0,
                ww,
                k,
            ) by {
                if k != q as int {
                    assert(om[k] == 2);
                }
            }
        }
    }
}

proof fn lemma_path_all_edges(m0: Seq<u8>, m: Seq<u8>, ww: int, path: Seq<int>)
    requires
        is_path(m0, ww, path),
        hyst_inv(m0, m, seq![], ww, -1),
    ensures
        forall|i: int| 0 <= i < path.len() ==> m[#[trigger] path[i]] == 2,
    decreases path.len(),
{
    if path.len() > 1 {
        let pre = path.drop_last();
        assert(is_path(m0, ww, pre)) by {
            assert forall|i: int| 0 <= i < pre.len() implies 0 <= #[trigger] pre[i] < m0.len() && (m0[pre[i]] == 0
                || m0[pre[i]] == 2) by {
                assert(pre[i] == path[i]);
            }
            assert forall|i: int| 0 <= i < pre.len() - 1 implies adjacent(ww, #[trigger] pre[i], pre[i + 1]) by {
                assert(pre[i] == path[i]);
                assert(pre[i + 1] == path[i + 1]);
            }
        }
        lemma_path_all_edges(m0, m, ww, pre);
        let n = path.len() - 1;
        assert(m[pre[n - 1]] == 2);
        assert(pre[n - 1] == path[n - 1]);
        assert(path[n - 1] == path[n - 1]);
        assert(adjacent(ww, path[n - 1], path[n]));
        assert(!seq![].contains(path[n - 1] as usize));
        assert(closed(m, ww, path[n - 1]));
        assert(m[path[n]] != 0);
        assert(0 <= path[n] < m0.len());
        assert forall|i: int| 0 <= i < path.len() implies m[#[trigger] path[i]] == 2 by {
            if i < n {
                assert(pre[i] == path[i]);
            }
        }
    } else {
        assert(m0[path[0]] == 2);
    }
}

/// Hysteresis: grow the edges from the seeds through 8-connected candidates.
fn hysteresis(map: &mut Vec<u8>, stack: &mut Vec<usize>, ww: usize, Ghost(m0): Ghost<Seq<u8>>)
    requires
        old(map)@ == m0,
        map_shape(m0, ww as int),
        forall|i: int| 0 <= i < old(stack)@.len() ==> #[trigger] old(stack)@[i] < m0.len() && m0[old(stack)@[i] as int] == 2,
        forall|k: int| 0 <= k < m0.len() && #[trigger] m0[k] == 2 ==> old(stack)@.contains(k as usize),
        forall|k: int| 0 <= k < m0.len() ==> #[trigger] m0[k] == 0 || m0[k] == 1 || m0[k] == 2,
    ensures
        final(map)@.len() == m0.len(),
        forall|k: int| 0 <= k < m0.len() ==> (#[trigger] final(map)@[k] == 2) == reach(m0, ww as int, k),
{
    let ghost w = ww as int;
    proof {
        assert forall|k: int| 0 <= k < map@.len() && #[trigger] map@[k] == 2 implies reach(m0, w, k) by {
            let path = seq![k];
            assert(is_path(m0, w, path));
        }
    }
    while stack.len() > 0
        invariant
            w == ww as int,
            map.len() == m0.len(),
            map_shape(m0, w),
            hyst_inv(m0, map@, stack@, w, -1),
        decreases 9 * zeros(map@) + stack@.len(),
    {
        let ghost before = 9 * zeros(map@) + stack@.len();
        let ghost ost = stack@;
        let p = stack.pop().unwrap();
        let ghost pi = p as int;
        proof {
            assert(ost[ost.len() - 1] == p);
            assert(stack@ =~= ost.drop_last());
            assert(map@[pi] == 2);
            assert forall|i: int| 0 <= i < stack@.len() implies #[trigger] stack@[i] < map@.len()
                && map@[stack@[i] as int] == 2 by {
                assert(stack@[i] == ost[i]);
            }
            assert forall|k: int|
                0 <= k < map@.len() && #[trigger] map@[k] == 2 && !stack@.contains(k as usize) && k
                    != pi implies closed(map@, w, k) by {
                if ost.contains(k as usize) {
                    let j = choose|j: int| 0 <= j < ost.len() && ost[j] == k as usize;
                    if j < ost.len() - 1 {
                        assert(stack@[j] == k as usize);
                        assert(stack@.contains(k as usize));
                    } else {
                        assert(k == pi);
                    }
                } else {
                    assert(hyst_inv(m0, map@, ost, w, -1));
                    assert(map@[k] == 2 && !ost.contains(k as usize) && k != -1);
                }
            }
            assert(m0[pi] != 1);
        }
        visit(map, stack, p - 1, Ghost(m0), Ghost(w), Ghost(pi));
        visit(map, stack, p + 1, Ghost(m0), Ghost(w), Ghost(pi));
        visit(map, stack, p - ww - 1, Ghost(m0), Ghost(w), Ghost(pi));
        visit(map, stack, p - ww, Ghost(m0), Ghost(w), Ghost(pi));
        visit(map, stack, p - ww + 1, Ghost(m0), Ghost(w), Ghost(pi));
        visit(map, stack, p + ww - 1, Ghost(m0), Ghost(w), Ghost(pi));
        visit(map, stack, p + ww, Ghost(m0), Ghost(w), Ghost(pi));
        visit(map, stack, p + ww + 1, Ghost(m0), Ghost(w), Ghost(pi));
        proof {
            assert forall|q: int| 0 <= q < map@.len() && adjacent(w, pi, q) implies #[trigger] map@[q] != 0 by {
            }
            assert(closed(map@, w, pi));
        }
    }
    proof {
        assert forall|k: int| 0 <= k < m0.len() implies (#[trigger] map@[k] == 2) == reach(m0, w, k) by {
            if reach(m0, w, k) {
                let path = choose|path: Seq<int>| #[trigger] is_path(m0, w, path) && path.last() == k;
                assert(stack@ =~= seq![]);
                lemma_path_all_edges(m0, map@, w, path);
                assert(map@[path[path.len() - 1]] == 2);
            }
        }
    }
}


/// Full Canny: `edges` gets the dimensions of `dx` and, at every pixel, 255
/// where [`canny_edge`] holds and 0 elsewhere. `mag` holds the gradient
/// magnitudes of the pixels (`round(sqrt(dx^2 + dy^2))`).
pub fn recoded_canny(
    dx: &I16Plane,
    dy: &I16Plane,
    mag: &Plane<i32>,
    low: i32,
    high: i32,
    edges: &mut Plane<u8>,
    ws: &mut CannyWorkspace,
)
    requires
        dx.wf(),
        dy.wf(),
        mag.wf(),
        dy.w == dx.w,
        dy.h == dx.h,
        mag.w == dx.w,
        mag.h == dx.h,
        (dx.w + 2) * (dx.h + 2) <= usize::MAX,
    ensures
        final(edges).w == dx.w,
        final(edges).h == dx.h,
        final(edges).wf(),
        forall|x: int, y: int|
            0 <= x < dx.w && 0 <= y < dx.h ==> #[trigger] final(edges).pix(x, y) == if canny_edge(
                *dx,
                *dy,
                *mag,
                low,
                high,
                x,
                y,
            ) {
                255u8
            } else {
                0u8
            },
{
    let w = dx.w;
    let h = dx.h;
    edges.reset(w, h, 0);
    if w == 0 || h == 0 {
        return;
    }
    assert(dx.w + 2 <= usize::MAX && dx.h + 2 <= usize::MAX) by (nonlinear_arith)
        requires (dx.w + 2) * (dx.h + 2) <= usize::MAX;
    let ww = w + 2;
    let ghost m0 = nms_map(*dx, *dy, *mag, low, high);
    build_nms_map(dx, dy, mag, low, high, &mut ws.map, &mut ws.stack);
    proof {
        lemma_nms_map_shape(*dx, *dy, *mag, low, high);
        assert forall|k: int| 0 <= k < m0.len() implies #[trigger] m0[k] == 0 || m0[k] == 1 || m0[k] == 2 by {
        }
    }
    hysteresis(&mut ws.map, &mut ws.stack, ww, Ghost(m0));
    let n = w * h;
    let mut j: usize = 0;
    while j < n
        invariant
            w == dx.w,
            h == dx.h,
            ww == w + 2,
            n == w * h,
            0 < w,
            edges.w == w,
            edges.h == h,
            edges.wf(),
            ws.map.len() == m0.len(),
            m0.len() == ww * (h + 2),
            m0 == nms_map(*dx, *dy, *mag, low, high),
            forall|k: int| 0 <= k < m0.len() ==> (#[trigger] ws.map@[k] == 2) == reach(m0, ww as int, k),
            j <= n,
            forall|k: int|
                0 <= k < j ==> #[trigger] edges.data@[k] == if reach(
                    m0,
                    ww as int,
                    (k / w as int + 1) * ww + k % w as int + 1,
                ) {
                    255u8
                } else {
                    0u8
                },
        decreases n - j,
    {
        let x = j % w;
        let y = j / w;
        proof {
            assert(y < h) by (nonlinear_arith)
                requires j < n, n == w * h, y == j / w, 0 < w;
            lemma_grid_bound(ww as int, h as int + 2, y as int + 1, x as int + 1);
        }
        let v = ws.map[(y + 1) * ww + x + 1];
        edges.data.set(j, if v == EDGE {
            255u8
        } else {
            0u8
        });
        j = j + 1;
    }
    proof {
        assert forall|x: int, y: int| 0 <= x < dx.w && 0 <= y < dx.h implies #[trigger] edges.pix(x, y)
            == if canny_edge(*dx, *dy, *mag, low, high, x, y) {
            255u8
        } else {
            0u8
        } by {
            lemma_cell_index(w as int, y, x);
            crate::image::lemma_pixel_index(x, y, w as int, h as int);
        }
    }
}


/// Every Canny edge pixel is a candidate: above the low threshold and a
/// local maximum of the gradient magnitude.
pub proof fn lemma_edge_is_candidate(
    dx: I16Plane,
    dy: I16Plane,
    mag: Plane<i32>,
    low: i32,
    high: i32,
    x: int,
    y: int,
)
    requires
        0 <= x < dx.w,
        0 <= y < dx.h,
        canny_edge(dx, dy, mag, low, high, x, y),
    ensures
        is_candidate(dx, dy, mag, low, y + 1, x + 1),
        mag_pad(mag, y + 1, x + 1) > low,
{
    let ww = dx.w + 2;
    let m0 = nms_map(dx, dy, mag, low, high);
    let p = (y + 1) * ww + x + 1;
    let path = choose|path: Seq<int>| #[trigger] is_path(m0, ww, path) && path.last() == p;
    assert(path[path.len() - 1] == p);
    lemma_cell_index(ww, y + 1, x + 1);
    assert(m0[p] == 0 || m0[p] == 2);
}

/// Every seed (a pixel that non-maxima suppression marks 2) is a Canny edge
/// pixel.
pub proof fn lemma_seed_is_edge(
    dx: I16Plane,
    dy: I16Plane,
    mag: Plane<i32>,
    low: i32,
    high: i32,
    x: int,
    y: int,
)
    requires
        0 <= x < dx.w,
        0 <= y < dx.h,
        nms_class(dx, dy, mag, low, high, (y + 1) as nat, (x + 1) as nat) == 2,
    ensures
        canny_edge(dx, dy, mag, low, high, x, y),
{
    let ww = dx.w + 2;
    let m0 = nms_map(dx, dy, mag, low, high);
    let p = (y + 1) * ww + x + 1;
    lemma_cell_index(ww, y + 1, x + 1);
    lemma_grid_bound(ww, dx.h + 2, y + 1, x + 1);
    let path = seq![p];
    assert(m0[p] == 2);
    assert(is_path(m0, ww, path));
}

/// A pixel whose gradient magnitude does not exceed the low threshold is
/// never a Canny edge.
pub proof fn lemma_weak_pixel_is_not_edge(
    dx: I16Plane,
    dy: I16Plane,
    mag: Plane<i32>,
    low: i32,
    high: i32,
    x: int,
    y: int,
)
    requires
        0 <= x < dx.w,
        0 <= y < dx.h,
        mag_pad(mag, y + 1, x + 1) <= low,
    ensures
        !canny_edge(dx, dy, mag, low, high, x, y),
{
    if canny_edge(dx, dy, mag, low, high, x, y) {
        lemma_edge_is_candidate(dx, dy, mag, low, high, x, y);
    }
}

/// Hysteresis spreads along kept pixels: a pixel that non-maxima
/// suppression keeps (class 0 or 2) and that touches a Canny edge pixel in
/// its 8-neighbourhood is itself a Canny edge pixel.
pub proof fn lemma_edge_spreads_to_neighbours(
    dx: I16Plane,
    dy: I16Plane,
    mag: Plane<i32>,
    low: i32,
    high: i32,
    x: int,
    y: int,
    x2: int,
    y2: int,
)
    requires
        0 <= x < dx.w,
        0 <= y < dx.h,
        0 <= x2 < dx.w,
        0 <= y2 < dx.h,
        -1 <= x2 - x <= 1,
        -1 <= y2 - y <= 1,
        canny_edge(dx, dy, mag, low, high, x, y),
        nms_class(dx, dy, mag, low, high, (y2 + 1) as nat, (x2 + 1) as nat) != 1,
    ensures
        canny_edge(dx, dy, mag, low, high, x2, y2),
{
    let ww = dx.w + 2;
    let m0 = nms_map(dx, dy, mag, low, high);
    let p = (y + 1) * ww + x + 1;
    let q = (y2 + 1) * ww + x2 + 1;
    if q != p {
        lemma_cell_index(ww, y2 + 1, x2 + 1);
        lemma_grid_bound(ww, dx.h + 2, y2 + 1, x2 + 1);
        assert(q - p == (y2 - y) * ww + (x2 - x)) by (nonlinear_arith)
            requires p == (y + 1) * ww + x + 1, q == (y2 + 1) * ww + x2 + 1;
        assert((y2 - y) * ww == ww || (y2 - y) * ww == -ww || (y2 - y) * ww == 0) by (nonlinear_arith)
            requires -1 <= y2 - y <= 1;
        if x2 == x {
            assert(y2 != y);
        }
        assert(adjacent(ww, p, q));
        assert(m0[q] == nms_class(dx, dy, mag, low, high, (y2 + 1) as nat, (x2 + 1) as nat));
        lemma_reach_extend(m0, ww, p, q);
    }
}

/// A path to `p` extends to an adjacent kept cell `q`.
proof fn lemma_reach_extend(m0: Seq<u8>, ww: int, p: int, q: int)
    requires
        reach(m0, ww, p),
        adjacent(ww, p, q),
        0 <= q < m0.len(),
        m0[q] == 0 || m0[q] == 2,
    ensures
        reach(m0, ww, q),
{
    let path = choose|path: Seq<int>| #[trigger] is_path(m0, ww, path) && path.last() == p;
    let np = path.push(q);
    assert forall|i: int| 0 <= i < np.len() - 1 implies adjacent(ww, #[trigger] np[i], np[i + 1]) by {
        if i < np.len() - 2 {
            assert(np[i] == path[i] && np[i + 1] == path[i + 1]);
        } else {
            assert(np[i] == path.last());
        }
    }
    assert forall|i: int| 0 <= i < np.len() implies 0 <= #[trigger] np[i] < m0.len() && (m0[np[i]] == 0
        || m0[np[i]] == 2) by {
        if i < np.len() - 1 {
            assert(np[i] == path[i]);
        }
    }
    assert(is_path(m0, ww, np));
    assert(np.last() == q);
}

/// A kept cell is reachable along its row from a reachable cell to its left
/// when every cell in between is kept.
proof fn lemma_reach_along_row(m0: Seq<u8>, ww: int, base: int, k: int, c: int)
    requires
        k <= c,
        reach(m0, ww, base + k),
        forall|j: int| k < j <= c ==> 0 <= #[trigger] (base + j) < m0.len() && (m0[base + j] == 0
            || m0[base + j] == 2),
    ensures
        reach(m0, ww, base + c),
    decreases c - k,
{
    if k < c {
        assert(0 <= base + (k + 1) < m0.len());
        lemma_reach_extend(m0, ww, base + k, base + k + 1);
        lemma_reach_along_row(m0, ww, base, k + 1, c);
    }
}

/// Where the row flag comes from: a seed to the left with only kept cells
/// between it and `c1`.
proof fn lemma_prev_flag_source(
    dx: I16Plane,
    dy: I16Plane,
    mag: Plane<i32>,
    low: i32,
    high: i32,
    r1: nat,
    c1: nat,
) -> (k: nat)
    requires
        nms_prev_flag(dx, dy, mag, low, high, r1, c1),
    ensures
        1 <= k < c1,
        nms_class(dx, dy, mag, low, high, r1, k) == 2,
        forall|j: nat| k < j < c1 ==> #[trigger] nms_class(dx, dy, mag, low, high, r1, j) != 1,
    decreases c1,
{
    let kk = nms_class(dx, dy, mag, low, high, r1, (c1 - 1) as nat);
    if kk == 2 {
        (c1 - 1) as nat
    } else {
        let k = lemma_prev_flag_source(dx, dy, mag, low, high, r1, (c1 - 1) as nat);
        assert forall|j: nat| k < j < c1 implies #[trigger] nms_class(dx, dy, mag, low, high, r1, j) != 1 by {
            if j < c1 - 1 {
            } else {
                assert(j == c1 - 1);
            }
        }
        k
    }
}

/// Kept cells under the higher thresholds are kept under the lower ones.
proof fn lemma_kept_monotone(
    dx: I16Plane,
    dy: I16Plane,
    mag: Plane<i32>,
    low1: i32,
    high1: i32,
    low2: i32,
    high2: i32,
    r1: nat,
    c1: nat,
)
    requires
        low1 <= low2,
        nms_class(dx, dy, mag, low2, high2, r1, c1) != 1,
    ensures
        nms_class(dx, dy, mag, low1, high1, r1, c1) != 1,
        nms_class(dx, dy, mag, low1, high1, r1, c1) == 0 || nms_class(dx, dy, mag, low1, high1, r1, c1)
            == 2,
{
}

/// A candidate above the high threshold is a Canny cell: it is a seed, or
/// the row's earlier seed or the seed above reaches it.
proof fn lemma_strong_candidate_reached(
    dx: I16Plane,
    dy: I16Plane,
    mag: Plane<i32>,
    low: i32,
    high: i32,
    r1: int,
    c1: int,
)
    requires
        1 <= r1 <= dx.h,
        1 <= c1 <= dx.w,
        is_candidate(dx, dy, mag, low, r1, c1),
        mag_pad(mag, r1, c1) > high,
    ensures
        reach(nms_map(dx, dy, mag, low, high), dx.w + 2, r1 * (dx.w + 2) + c1),
{
    let ww = dx.w + 2;
    let m1 = nms_map(dx, dy, mag, low, high);
    let p = r1 * ww + c1;
    let cls = nms_class(dx, dy, mag, low, high, r1 as nat, c1 as nat);
    lemma_cell_index(ww, r1, c1);
    lemma_grid_bound(ww, dx.h + 2, r1, c1);
    assert(m1[p] == cls);
    assert(cls == 0 || cls == 2);
    if cls == 2 {
        assert(is_path(m1, ww, seq![p]));
    } else if nms_class(dx, dy, mag, low, high, (r1 - 1) as nat, c1 as nat) == 2 {
        let q = (r1 - 1) * ww + c1;
        lemma_cell_index(ww, r1 - 1, c1);
        lemma_grid_bound(ww, dx.h + 2, r1 - 1, c1);
        assert(q == p - ww) by (nonlinear_arith)
            requires q == (r1 - 1) * ww + c1, p == r1 * ww + c1;
        assert(m1[q] == 2);
        assert(is_path(m1, ww, seq![q]));
        lemma_reach_extend(m1, ww, q, p);
    } else {
        assert(nms_prev_flag(dx, dy, mag, low, high, r1 as nat, c1 as nat));
        let k = lemma_prev_flag_source(dx, dy, mag, low, high, r1 as nat, c1 as nat);
        let base = r1 * ww;
        lemma_cell_index(ww, r1, k as int);
        lemma_grid_bound(ww, dx.h + 2, r1, k as int);
        assert(m1[base + k] == 2);
        assert(is_path(m1, ww, seq![base + k]));
        assert forall|j: int| k < j <= c1 implies 0 <= #[trigger] (base + j) < m1.len() && (m1[base + j] == 0
            || m1[base + j] == 2) by {
            lemma_cell_index(ww, r1, j);
            lemma_grid_bound(ww, dx.h + 2, r1, j);
            assert(m1[base + j] == nms_class(dx, dy, mag, low, high, r1 as nat, j as nat));
            if j < c1 {
                assert(nms_class(dx, dy, mag, low, high, r1 as nat, j as nat) != 1);
            }
        }
        lemma_reach_along_row(m1, ww, base, k as int, c1);
    }
}

/// A seed under the higher thresholds is a Canny cell under the lower ones.
proof fn lemma_seed_reached(
    dx: I16Plane,
    dy: I16Plane,
    mag: Plane<i32>,
    low1: i32,
    high1: i32,
    low2: i32,
    high2: i32,
    r1: int,
    c1: int,
)
    requires
        low1 <= low2,
        high1 <= high2,
        0 <= r1,
        0 <= c1,
        nms_class(dx, dy, mag, low2, high2, r1 as nat, c1 as nat) == 2,
    ensures
        reach(nms_map(dx, dy, mag, low1, high1), dx.w + 2, r1 * (dx.w + 2) + c1),
{
    lemma_strong_candidate_reached(dx, dy, mag, low1, high1, r1, c1);
}

/// Diagonal gradients are suppressed across the edge, not along it: a pixel
/// whose gradient lies in a diagonal sector (`13573 * |dx| <= 32768 * |dy|
/// <= 79109 * |dx|`, within `i32`), whose magnitude exceeds the high
/// threshold and strictly exceeds its two neighbours across the edge (upper
/// left and lower right when `dx` and `dy` have the same sign, upper right
/// and lower left otherwise; outside the plane counts as 0) is a Canny edge
/// pixel, whatever its two neighbours along the edge hold.
pub proof fn lemma_diagonal_maximum_is_edge(
    dx: I16Plane,
    dy: I16Plane,
    mag: Plane<i32>,
    low: i32,
    high: i32,
    x: int,
    y: int,
)
    requires
        0 <= x < dx.w,
        0 <= y < dx.h,
        low <= high,
        ({
            let gx = dx.pix(x, y) as int;
            let gy = dy.pix(x, y) as int;
            let ax = if gx < 0 { -gx } else { gx };
            let ay = if gy < 0 { -gy } else { gy };
            ax * 13573 <= ay * 32768 && ay * 32768 <= ax * 79109 && ax * 79109 <= 0x7fff_ffff
        }),
        mag_pad(mag, y + 1, x + 1) > high,
        (dx.pix(x, y) < 0) == (dy.pix(x, y) < 0) ==> mag_pad(mag, y + 1, x + 1) > mag_pad(mag, y, x)
            && mag_pad(mag, y + 1, x + 1) > mag_pad(mag, y + 2, x + 2),
        (dx.pix(x, y) < 0) != (dy.pix(x, y) < 0) ==> mag_pad(mag, y + 1, x + 1) > mag_pad(
            mag,
            y,
            x + 2,
        ) && mag_pad(mag, y + 1, x + 1) > mag_pad(mag, y + 2, x),
    ensures
        canny_edge(dx, dy, mag, low, high, x, y),
{
    let gx = dx.pix(x, y) as int;
    let gy = dy.pix(x, y) as int;
    assert(iabs(gx) == if gx < 0 { -gx } else { gx });
    assert(iabs(gy) == if gy < 0 { -gy } else { gy });
    let ax = iabs(gx);
    assert(wrap_i32(ax * 13573 + ax * 65536) == ax * 79109);
    assert(is_local_max(dx, dy, mag, y + 1, x + 1));
    assert(is_candidate(dx, dy, mag, low, y + 1, x + 1));
    lemma_strong_candidate_reached(dx, dy, mag, low, high, y + 1, x + 1);
}

/// Raising either Canny threshold never adds an edge pixel: every edge
/// pixel under thresholds `(low2, high2)` is an edge pixel under any
/// `(low1, high1)` with `low1 <= low2` and `high1 <= high2`.
pub proof fn lemma_raising_thresholds_never_adds_edges(
    dx: I16Plane,
    dy: I16Plane,
    mag: Plane<i32>,
    low1: i32,
    high1: i32,
    low2: i32,
    high2: i32,
    x: int,
    y: int,
)
    requires
        low1 <= low2,
        high1 <= high2,
        0 <= x < dx.w,
        0 <= y < dx.h,
        canny_edge(dx, dy, mag, low2, high2, x, y),
    ensures
        canny_edge(dx, dy, mag, low1, high1, x, y),
{
    let ww = dx.w + 2;
    let m1 = nms_map(dx, dy, mag, low1, high1);
    let m2 = nms_map(dx, dy, mag, low2, high2);
    let p = (y + 1) * ww + x + 1;
    let path = choose|path: Seq<int>| #[trigger] is_path(m2, ww, path) && path.last() == p;
    assert forall|i: int| 0 <= i < path.len() implies #[trigger] reach(m1, ww, path[i]) by {
        lemma_path_prefix_reached(dx, dy, mag, low1, high1, low2, high2, path, i);
    }
    assert(path[path.len() - 1] == p);
    assert(reach(m1, ww, path[path.len() - 1]));
}

proof fn lemma_path_prefix_reached(
    dx: I16Plane,
    dy: I16Plane,
    mag: Plane<i32>,
    low1: i32,
    high1: i32,
    low2: i32,
    high2: i32,
    path: Seq<int>,
    i: int,
)
    requires
        low1 <= low2,
        high1 <= high2,
        is_path(nms_map(dx, dy, mag, low2, high2), dx.w + 2, path),
        0 <= i < path.len(),
    ensures
        reach(nms_map(dx, dy, mag, low1, high1), dx.w + 2, path[i]),
    decreases i,
{
    let ww = dx.w + 2;
    let m1 = nms_map(dx, dy, mag, low1, high1);
    let m2 = nms_map(dx, dy, mag, low2, high2);
    let q = path[i];
    let r = q / ww;
    let c = q % ww;
    assert(0 <= q < m2.len());
    assert(m2.len() == m1.len());
    assert(0 <= r && 0 <= c < ww) by {
        assert(ww > 0);
    }
    assert(q == r * ww + c) by {
        vstd::arithmetic::div_mod::lemma_fundamental_div_mod(q, ww);
    }
    assert(m2[q] == nms_class(dx, dy, mag, low2, high2, r as nat, c as nat));
    assert(m1[q] == nms_class(dx, dy, mag, low1, high1, r as nat, c as nat));
    if i == 0 {
        lemma_seed_reached(dx, dy, mag, low1, high1, low2, high2, r, c);
    } else {
        lemma_path_prefix_reached(dx, dy, mag, low1, high1, low2, high2, path, i - 1);
        assert(adjacent(ww, path[i - 1], path[i]));
        lemma_kept_monotone(dx, dy, mag, low1, high1, low2, high2, r as nat, c as nat);
        lemma_reach_extend(m1, ww, path[i - 1], q);
    }
}

} // verus!
