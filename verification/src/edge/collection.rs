//! The edge-point collection: the points of a level, a map from pixels to
//! points, the links along the gradient, the voter lists (CSR) and per-point
//! flags.

use vstd::prelude::*;
use super::point::EdgePoint;
use crate::image::lemma_pixel_index;

verus! {

/// Index of a point in the collection; [`NO_EDGE`] for none.
pub type EdgeIdx = i32;

/// No point.
pub const NO_EDGE: EdgeIdx = -1;

/// Voters of point `i` among `(chosen, voter)` pairs, in pair order.
pub open spec fn voters_of(pairs: Seq<(EdgeIdx, EdgeIdx)>, i: int) -> Seq<EdgeIdx>
    decreases pairs.len(),
{
    if pairs.len() == 0 {
        seq![]
    } else {
        voters_of(pairs.drop_last(), i) + if pairs.last().0 == i {
            seq![pairs.last().1]
        } else {
            seq![]
        }
    }
}

/// Number of pairs whose chosen point is below `i`.
pub open spec fn count_below(pairs: Seq<(EdgeIdx, EdgeIdx)>, i: int) -> nat
    decreases pairs.len(),
{
    if pairs.len() == 0 {
        0
    } else {
        count_below(pairs.drop_last(), i) + if pairs.last().0 < i {
            1nat
        } else {
            0nat
        }
    }
}

proof fn lemma_count_below_step(pairs: Seq<(EdgeIdx, EdgeIdx)>, i: int)
    ensures
        count_below(pairs, i + 1) == count_below(pairs, i) + voters_of(pairs, i).len(),
    decreases pairs.len(),
{
    if pairs.len() > 0 {
        lemma_count_below_step(pairs.drop_last(), i);
    }
}

proof fn lemma_count_below_mono(pairs: Seq<(EdgeIdx, EdgeIdx)>, i: int, j: int)
    requires
        i <= j,
    ensures
        count_below(pairs, i) <= count_below(pairs, j),
    decreases pairs.len(),
{
    if pairs.len() > 0 {
        lemma_count_below_mono(pairs.drop_last(), i, j);
    }
}

proof fn lemma_count_below_bounds(pairs: Seq<(EdgeIdx, EdgeIdx)>, n: int)
    requires
        forall|t: int| 0 <= t < pairs.len() ==> 0 <= #[trigger] pairs[t].0 < n,
    ensures
        count_below(pairs, 0) == 0,
        count_below(pairs, n) == pairs.len(),
    decreases pairs.len(),
{
    if pairs.len() > 0 {
        let pre = pairs.drop_last();
        assert forall|t: int| 0 <= t < pre.len() implies 0 <= #[trigger] pre[t].0 < n by {
            assert(pre[t] == pairs[t]);
        }
        lemma_count_below_bounds(pre, n);
        assert(pairs[pairs.len() - 1] == pairs.last());
    }
}

proof fn lemma_count_below_le_len(pairs: Seq<(EdgeIdx, EdgeIdx)>, i: int)
    ensures
        count_below(pairs, i) <= pairs.len(),
    decreases pairs.len(),
{
    if pairs.len() > 0 {
        lemma_count_below_le_len(pairs.drop_last(), i);
    }
}

proof fn lemma_voters_len(pairs: Seq<(EdgeIdx, EdgeIdx)>, i: int)
    ensures
        voters_of(pairs, i).len() <= pairs.len(),
    decreases pairs.len(),
{
    if pairs.len() > 0 {
        lemma_voters_len(pairs.drop_last(), i);
    }
}

proof fn lemma_voters_of_take(pairs: Seq<(EdgeIdx, EdgeIdx)>, t: int, i: int)
    requires
        0 <= t < pairs.len(),
    ensures
        voters_of(pairs.take(t + 1), i) == voters_of(pairs.take(t), i) + if pairs[t].0 == i {
            seq![pairs[t].1]
        } else {
            seq![]
        },
{
    assert(pairs.take(t + 1).drop_last() =~= pairs.take(t));
}

/// The voters of `i` among the first `t` pairs are a prefix of all its voters.
proof fn lemma_voters_of_prefix(pairs: Seq<(EdgeIdx, EdgeIdx)>, t: int, i: int)
    requires
        0 <= t <= pairs.len(),
    ensures
        voters_of(pairs.take(t), i).len() <= voters_of(pairs, i).len(),
        forall|j: int|
            0 <= j < voters_of(pairs.take(t), i).len() ==> #[trigger] voters_of(pairs.take(t), i)[j]
                == voters_of(pairs, i)[j],
    decreases pairs.len() - t,
{
    if t == pairs.len() {
        assert(pairs.take(t) =~= pairs);
    } else {
        lemma_voters_of_take(pairs, t, i);
        lemma_voters_of_prefix(pairs, t + 1, i);
        assert forall|j: int|
            0 <= j < voters_of(pairs.take(t), i).len() implies #[trigger] voters_of(pairs.take(t), i)[j]
                == voters_of(pairs, i)[j] by {
            assert(voters_of(pairs.take(t), i)[j] == voters_of(pairs.take(t + 1), i)[j]);
        }
    }
}

/// The edge points of one level and their per-point state.
#[derive(Clone, Debug, Default)]
pub struct EdgePointCollection {
    /// Dimensions of the edge map (the level image).
    pub map_w: usize,
    pub map_h: usize,
    /// Bounds used by the walks; the full-resolution image size, so that
    /// walks at coarser levels are bounded by it while map lookups outside
    /// the level image find no point.
    pub bound_w: usize,
    pub bound_h: usize,
    /// `map_w * map_h`, [`NO_EDGE`] where there is no point.
    pub edge_map: Vec<EdgeIdx>,
    pub points: Vec<EdgePoint>,
    /// `[before, after]` per point.
    pub links: Vec<[EdgeIdx; 2]>,
    /// CSR offsets (`n + 1`) into `voters`.
    pub voters_off: Vec<u32>,
    pub voters: Vec<EdgeIdx>,
    pub is_max: Vec<i32>,
    pub n_segment_out: Vec<i32>,
    /// Per-run bit mask of each point.
    pub processed: Vec<u64>,
    /// Per-point "linked into a segment" flags (bit-set).
    pub processed_in: Vec<u64>,
    /// Per-point auxiliary flags (bit-set).
    pub processed_aux: Vec<u64>,
}

/// Bit `i` of a bit-set stored in 64-bit words.
pub open spec fn bit_of(words: Seq<u64>, i: int) -> bool {
    (words[i / 64] >> ((i % 64) as u64)) & 1u64 == 1u64
}

proof fn lemma_set_bit(w: u64, b: u64, c: u64)
    requires
        b < 64,
        c < 64,
    ensures
        ((w | (1u64 << b)) >> c) & 1u64 == if c == b {
            1u64
        } else {
            (w >> c) & 1u64
        },
        ((w & !(1u64 << b)) >> c) & 1u64 == if c == b {
            0u64
        } else {
            (w >> c) & 1u64
        },
{
    assert(((w | (1u64 << b)) >> c) & 1u64 == if c == b {
        1u64
    } else {
        (w >> c) & 1u64
    }) by (bit_vector)
        requires
            b < 64,
            c < 64,
    ;
    assert(((w & !(1u64 << b)) >> c) & 1u64 == if c == b {
        0u64
    } else {
        (w >> c) & 1u64
    }) by (bit_vector)
        requires
            b < 64,
            c < 64,
    ;
}

proof fn lemma_zero_bit(c: u64)
    requires
        c < 64,
    ensures
        (0u64 >> c) & 1u64 == 0u64,
{
    assert((0u64 >> c) & 1u64 == 0u64) by (bit_vector);
}

impl EdgePointCollection {
    /// Per-point arrays have one entry per point and the map covers the level.
    pub open spec fn wf(&self) -> bool {
        &&& self.edge_map.len() == self.map_w * self.map_h
        &&& self.links@.len() == self.points@.len()
        &&& self.is_max@.len() == self.points@.len()
        &&& self.n_segment_out@.len() == self.points@.len()
        &&& self.processed@.len() == self.points@.len()
        &&& self.points@.len() <= i32::MAX
    }

    /// The point at pixel `(x, y)` of the map, or [`NO_EDGE`] outside it.
    pub open spec fn edge_at(&self, x: int, y: int) -> EdgeIdx {
        if x < 0 || y < 0 || x >= self.map_w || y >= self.map_h {
            NO_EDGE
        } else {
            self.edge_map@[y * self.map_w + x]
        }
    }

    /// Offset `k` of the voter lists.
    pub open spec fn off(&self, k: int) -> int {
        self.voters_off@[k] as int
    }

    /// The voter lists are in place: `n + 1` non-decreasing offsets within
    /// `voters`.
    pub open spec fn voters_wf(&self) -> bool {
        &&& self.voters_off@.len() == self.points@.len() + 1
        &&& forall|i: int, j: int| 0 <= i <= j <= self.points@.len() ==> self.off(i) <= self.off(j)
        &&& self.off(self.points@.len() as int) <= self.voters@.len()
    }

    /// Voters of point `i`.
    pub open spec fn voters_seq(&self, i: int) -> Seq<EdgeIdx> {
        self.voters@.subrange(self.off(i), self.off(i + 1))
    }

    /// The two bit-sets cover every point.
    pub open spec fn flags_ready(&self) -> bool {
        &&& self.processed_in@.len() * 64 >= self.points@.len()
        &&& self.processed_aux@.len() * 64 >= self.points@.len()
    }

    /// `processed_in` flag of point `i`.
    pub open spec fn processed_in_flag(&self, i: int) -> bool {
        bit_of(self.processed_in@, i)
    }

    /// `processed_aux` flag of point `i`.
    pub open spec fn processed_aux_flag(&self, i: int) -> bool {
        bit_of(self.processed_aux@, i)
    }

    /// An empty collection over a `map_w x map_h` map with walk bounds
    /// `bound_w x bound_h`.
    pub fn new(map_w: usize, map_h: usize, bound_w: usize, bound_h: usize) -> (c: Self)
        requires
            map_w * map_h <= usize::MAX,
        ensures
            c.wf(),
            c.map_w == map_w,
            c.map_h == map_h,
            c.bound_w == bound_w,
            c.bound_h == bound_h,
            c.edge_map@ == Seq::new((map_w * map_h) as nat, |k: int| NO_EDGE),
            c.points@.len() == 0,
            c.voters_off@.len() == 0,
            c.voters@.len() == 0,
    {
        EdgePointCollection {
            map_w,
            map_h,
            bound_w,
            bound_h,
            edge_map: crate::image::vec_filled(map_w * map_h, NO_EDGE),
            points: Vec::new(),
            links: Vec::new(),
            voters_off: Vec::new(),
            voters: Vec::new(),
            is_max: Vec::new(),
            n_segment_out: Vec::new(),
            processed: Vec::new(),
            processed_in: Vec::new(),
            processed_aux: Vec::new(),
        }
    }

    /// Empty the collection and set its map and walk bounds.
    pub fn reset(&mut self, map_w: usize, map_h: usize, bound_w: usize, bound_h: usize)
        requires
            map_w * map_h <= usize::MAX,
        ensures
            final(self).wf(),
            final(self).map_w == map_w,
            final(self).map_h == map_h,
            final(self).bound_w == bound_w,
            final(self).bound_h == bound_h,
            final(self).edge_map@ == Seq::new((map_w * map_h) as nat, |k: int| NO_EDGE),
            final(self).points@.len() == 0,
            final(self).voters_off@.len() == 0,
            final(self).voters@.len() == 0,
    {
        *self = Self::new(map_w, map_h, bound_w, bound_h);
    }

    /// Number of points.
    pub fn len(&self) -> (n: usize)
        ensures
            n == self.points@.len(),
    {
        self.points.len()
    }

    /// Whether there is no point.
    pub fn is_empty(&self) -> (b: bool)
        ensures
            b == (self.points@.len() == 0),
    {
        self.points.len() == 0
    }

    /// Add a point at `(x, y)` with gradient `(dx, dy)`; returns its index.
    pub fn add_point(&mut self, x: usize, y: usize, dx: i16, dy: i16) -> (idx: EdgeIdx)
        requires
            old(self).wf(),
            x < old(self).map_w,
            y < old(self).map_h,
            old(self).points@.len() < i32::MAX,
        ensures
            final(self).wf(),
            idx == old(self).points@.len(),
            final(self).points@ == old(self).points@.push(
                EdgePoint { x: (x as i32) as i16, y: (y as i32) as i16, dx, dy },
            ),
            final(self).edge_map@ == old(self).edge_map@.update(y * old(self).map_w + x, idx),
            final(self).links@ == old(self).links@.push([NO_EDGE, NO_EDGE]),
            final(self).is_max@ == old(self).is_max@.push(-1i32),
            final(self).n_segment_out@ == old(self).n_segment_out@.push(-1i32),
            final(self).processed@ == old(self).processed@.push(0u64),
            final(self).map_w == old(self).map_w,
            final(self).map_h == old(self).map_h,
            final(self).bound_w == old(self).bound_w,
            final(self).bound_h == old(self).bound_h,
            final(self).voters_off@ == old(self).voters_off@,
            final(self).voters@ == old(self).voters@,
    {
        proof {
            lemma_pixel_index(x as int, y as int, self.map_w as int, self.map_h as int);
        }
        let imap = y * self.map_w + x;
        let idx = self.points.len() as EdgeIdx;
        self.edge_map.set(imap, idx);
        self.points.push(EdgePoint::new(x as i32, y as i32, dx, dy));
        self.links.push([NO_EDGE, NO_EDGE]);
        self.is_max.push(-1);
        self.n_segment_out.push(-1);
        self.processed.push(0);
        idx
    }

    /// Size the two per-point flag sets once all points were added; every
    /// flag is cleared.
    pub fn finish_points(&mut self)
        requires
            old(self).wf(),
        ensures
            final(self).wf(),
            final(self).flags_ready(),
            forall|i: int| 0 <= i < final(self).points@.len() ==> !final(self).processed_in_flag(i) && !final(self).processed_aux_flag(i),
            final(self).points@ == old(self).points@,
            final(self).edge_map@ == old(self).edge_map@,
            final(self).links@ == old(self).links@,
            final(self).is_max@ == old(self).is_max@,
            final(self).n_segment_out@ == old(self).n_segment_out@,
            final(self).processed@ == old(self).processed@,
            final(self).voters_off@ == old(self).voters_off@,
            final(self).voters@ == old(self).voters@,
            final(self).map_w == old(self).map_w,
            final(self).map_h == old(self).map_h,
            final(self).bound_w == old(self).bound_w,
            final(self).bound_h == old(self).bound_h,
    {
        let n = self.points.len();
        let words = n / 64 + if n % 64 == 0 {
            0
        } else {
            1
        };
        self.processed_in = crate::image::vec_filled(words, 0u64);
        self.processed_aux = crate::image::vec_filled(words, 0u64);
        proof {
            assert forall|i: int| 0 <= i < self.points@.len() implies !self.processed_in_flag(i) && !self.processed_aux_flag(i) by {
                lemma_zero_bit((i % 64) as u64);
            }
        }
    }

    /// Point index at `(x, y)`, or [`NO_EDGE`] outside the map.
    pub fn at(&self, x: i32, y: i32) -> (e: EdgeIdx)
        requires
            self.wf(),
        ensures
            e == self.edge_at(x as int, y as int),
    {
        if x < 0 || y < 0 || x as usize >= self.map_w || y as usize >= self.map_h {
            return NO_EDGE;
        }
        proof {
            lemma_pixel_index(x as int, y as int, self.map_w as int, self.map_h as int);
        }
        self.edge_map[y as usize * self.map_w + x as usize]
    }

    /// Whether `(x, y)` is inside the walk bounds.
    pub fn in_bounds(&self, x: i32, y: i32) -> (b: bool)
        ensures
            b == (0 <= x < self.bound_w && 0 <= y < self.bound_h),
    {
        x >= 0 && y >= 0 && (x as usize) < self.bound_w && (y as usize) < self.bound_h
    }

    /// Point `i`.
    pub fn point(&self, i: EdgeIdx) -> (p: &EdgePoint)
        requires
            0 <= i < self.points@.len(),
        ensures
            *p == self.points@[i as int],
    {
        &self.points[i as usize]
    }

    /// The point before `i` along its gradient.
    pub fn before(&self, i: EdgeIdx) -> (e: EdgeIdx)
        requires
            self.wf(),
            0 <= i < self.points@.len(),
        ensures
            e == self.links@[i as int][0],
    {
        self.links[i as usize][0]
    }

    /// The point after `i` along its gradient.
    pub fn after(&self, i: EdgeIdx) -> (e: EdgeIdx)
        requires
            self.wf(),
            0 <= i < self.points@.len(),
        ensures
            e == self.links@[i as int][1],
    {
        self.links[i as usize][1]
    }

    /// Voters of point `i`.
    pub fn voters(&self, i: EdgeIdx) -> (v: &[EdgeIdx])
        requires
            self.voters_wf(),
            0 <= i < self.points@.len(),
        ensures
            v@ == self.voters_seq(i as int),
    {
        let i = i as usize;
        proof {
            assert(self.off(i as int) <= self.off(i + 1));
            assert(self.off(i + 1) <= self.off(self.points@.len() as int));
        }
        let a = self.voters_off[i] as usize;
        let b = self.voters_off[i + 1] as usize;
        &self.voters.as_slice()[a..b]
    }

    /// Number of voters of point `i`.
    pub fn voters_size(&self, i: EdgeIdx) -> (n: usize)
        requires
            self.voters_wf(),
            0 <= i < self.points@.len(),
        ensures
            n == self.voters_seq(i as int).len(),
    {
        let i = i as usize;
        proof {
            assert(self.off(i as int) <= self.off(i + 1));
        }
        (self.voters_off[i + 1] - self.voters_off[i]) as usize
    }

    /// Build the voter lists from `(chosen, voter)` pairs given in voting
    /// order (a stable counting sort: each list keeps the pairs' order).
    pub fn create_voter_lists(&mut self, pairs: &[(EdgeIdx, EdgeIdx)])
        requires
            old(self).wf(),
            pairs@.len() <= u32::MAX,
            forall|t: int| 0 <= t < pairs@.len() ==> 0 <= #[trigger] pairs@[t].0 < old(self).points@.len(),
        ensures
            final(self).wf(),
            final(self).voters_wf(),
            final(self).voters@.len() == pairs@.len(),
            forall|i: int| 0 <= i < final(self).points@.len() ==> #[trigger] final(self).voters_seq(i) == voters_of(pairs@, i),
            final(self).points@ == old(self).points@,
            final(self).edge_map@ == old(self).edge_map@,
            final(self).links@ == old(self).links@,
            final(self).is_max@ == old(self).is_max@,
            final(self).n_segment_out@ == old(self).n_segment_out@,
            final(self).processed@ == old(self).processed@,
            final(self).processed_in@ == old(self).processed_in@,
            final(self).processed_aux@ == old(self).processed_aux@,
            final(self).map_w == old(self).map_w,
            final(self).map_h == old(self).map_h,
            final(self).bound_w == old(self).bound_w,
            final(self).bound_h == old(self).bound_h,
    {
        let n = self.points.len();
        let m = pairs.len();
        let ghost ps = pairs@;
        let mut off: Vec<u32> = crate::image::vec_filled(n + 1, 0u32);
        // counts
        let mut t: usize = 0;
        while t < m
            invariant
                m == ps.len(),
                ps == pairs@,
                m <= u32::MAX,
                n == self.points@.len(),
                forall|tt: int| 0 <= tt < m ==> 0 <= #[trigger] ps[tt].0 < n,
                t <= m,
                off@.len() == n + 1,
                off@[0] == 0,
                forall|k: int| 0 <= k < n ==> #[trigger] off@[k + 1] == voters_of(ps.take(t as int), k).len(),
            decreases m - t,
        {
            let c = pairs[t].0 as usize;
            proof {
                lemma_voters_of_prefix(ps, t as int, c as int);
                lemma_voters_of_prefix(ps, t as int + 1, c as int);
                assert forall|k: int| 0 <= k < n implies voters_of(ps.take(t + 1), k) == voters_of(ps.take(t as int), k) + if ps[t as int].0 == k {
                    seq![ps[t as int].1]
                } else {
                    seq![]
                } by {
                    lemma_voters_of_take(ps, t as int, k);
                }
                assert(voters_of(ps.take(t + 1), c as int).len() <= ps.take(t + 1).len()) by {
                    lemma_voters_len(ps.take(t + 1), c as int);
                }
            }
            let cur = off[c + 1];
            off.set(c + 1, cur + 1);
            t = t + 1;
        }
        proof {
            assert(ps.take(m as int) =~= ps);
            lemma_count_below_bounds(ps, n as int);
            assert forall|k: int| 0 < k <= n implies #[trigger] off@[k] == voters_of(ps, k - 1).len() by {
                assert(off@[(k - 1) + 1] == voters_of(ps.take(m as int), k - 1).len());
            }
        }
        // prefix sums
        let mut i: usize = 0;
        while i < n
            invariant
                m == ps.len(),
                m <= u32::MAX,
                n == self.points@.len(),
                forall|tt: int| 0 <= tt < m ==> 0 <= #[trigger] ps[tt].0 < n,
                i <= n,
                off@.len() == n + 1,
                forall|k: int| 0 <= k <= i ==> #[trigger] off@[k] == count_below(ps, k),
                forall|k: int| i < k <= n ==> #[trigger] off@[k] == voters_of(ps, k - 1).len(),
            decreases n - i,
        {
            proof {
                lemma_count_below_step(ps, i as int);
                lemma_count_below_le_len(ps, i as int + 1);
                if i == 0 {
                    lemma_count_below_bounds(ps, n as int);
                }
            }
            let a = off[i];
            let b = off[i + 1];
            off.set(i + 1, a + b);
            i = i + 1;
        }
        proof {
            lemma_count_below_bounds(ps, n as int);
        }
        // scatter
        let mut voters: Vec<EdgeIdx> = crate::image::vec_filled(m, NO_EDGE);
        let mut cursor: Vec<u32> = Vec::with_capacity(n);
        let mut k: usize = 0;
        while k < n
            invariant
                k <= n,
                off@.len() == n + 1,
                cursor@ == off@.take(k as int),
            decreases n - k,
        {
            cursor.push(off[k]);
            k = k + 1;
            assert(cursor@ =~= off@.take(k as int));
        }
        let mut t: usize = 0;
        while t < m
            invariant
                m == ps.len(),
                ps == pairs@,
                m <= u32::MAX,
                n == self.points@.len(),
                forall|tt: int| 0 <= tt < m ==> 0 <= #[trigger] ps[tt].0 < n,
                off@.len() == n + 1,
                forall|kk: int| 0 <= kk <= n ==> #[trigger] off@[kk] == count_below(ps, kk),
                count_below(ps, n as int) == m,
                t <= m,
                voters@.len() == m,
                cursor@.len() == n,
                forall|kk: int| 0 <= kk < n ==> #[trigger] cursor@[kk] == off@[kk] + voters_of(ps.take(t as int), kk).len(),
                forall|kk: int, j: int|
                    0 <= kk < n && 0 <= j < voters_of(ps.take(t as int), kk).len() ==> voters@[off@[kk] + j]
                        == #[trigger] voters_of(ps.take(t as int), kk)[j],
            decreases m - t,
        {
            let (c, v) = pairs[t];
            let cu = c as usize;
            let ghost pre = ps.take(t as int);
            let ghost post = ps.take(t + 1);
            proof {
                assert forall|kk: int| 0 <= kk < n implies voters_of(post, kk) == voters_of(pre, kk) + if ps[t as int].0 == kk {
                    seq![ps[t as int].1]
                } else {
                    seq![]
                } by {
                    lemma_voters_of_take(ps, t as int, kk);
                }
                lemma_voters_of_prefix(ps, t as int + 1, cu as int);
                lemma_count_below_step(ps, cu as int);
                lemma_count_below_mono(ps, cu as int + 1, n as int);
                assert(off@[cu as int + 1] == count_below(ps, cu as int + 1));
                assert(off@[cu as int] == count_below(ps, cu as int));
                assert(ps[t as int] == (c, v));
            }
            let pos = cursor[cu];
            let ghost vold = voters@;
            voters.set(pos as usize, v);
            cursor.set(cu, pos + 1);
            proof {
                assert forall|kk: int, j: int|
                    0 <= kk < n && 0 <= j < voters_of(post, kk).len() implies voters@[off@[kk] + j]
                        == #[trigger] voters_of(post, kk)[j] by {
                    lemma_voters_of_prefix(ps, t as int + 1, kk);
                    lemma_count_below_step(ps, kk);
                    lemma_count_below_mono(ps, kk + 1, n as int);
                    assert(off@[kk + 1] == count_below(ps, kk + 1));
                    assert(off@[kk] == count_below(ps, kk));
                    assert(off@[n as int] == m);
                    assert(off@[kk] + j < m);
                    if kk == cu as int {
                        if j < voters_of(pre, kk).len() {
                            assert(voters_of(post, kk)[j] == voters_of(pre, kk)[j]);
                            assert(vold[off@[kk] + j] == voters_of(pre, kk)[j]);
                            assert(off@[kk] + j != pos);
                        } else {
                            assert(off@[kk] + j == pos);
                            assert(voters_of(post, kk)[j] == v);
                        }
                    } else {
                        assert(voters_of(post, kk) == voters_of(pre, kk));
                        lemma_voters_of_prefix(ps, t as int, kk);
                        lemma_count_below_step(ps, kk);
                        assert(off@[kk + 1] == count_below(ps, kk + 1));
                        assert(off@[kk] == count_below(ps, kk));
                        if kk < cu as int {
                            lemma_count_below_mono(ps, kk + 1, cu as int);
                        } else {
                            lemma_count_below_mono(ps, cu as int + 1, kk);
                        }
                        assert(vold[off@[kk] + j] == voters_of(pre, kk)[j]);
                        assert(off@[kk] + j != pos);
                    }
                }
            }
            t = t + 1;
        }
        proof {
            assert(ps.take(m as int) =~= ps);
            assert forall|i: int, j: int| 0 <= i <= j <= n implies off@[i] <= off@[j] by {
                lemma_count_below_mono(ps, i, j);
            }
        }
        self.voters_off = off;
        self.voters = voters;
        proof {
            assert forall|i: int| 0 <= i < self.points@.len() implies #[trigger] self.voters_seq(i) == voters_of(pairs@, i) by {
                lemma_count_below_step(ps, i);
                lemma_count_below_mono(ps, i + 1, n as int);
                assert(off@[n as int] == m);
                assert(off@[i] == count_below(ps, i));
                assert(off@[i + 1] == count_below(ps, i + 1));
                assert forall|j: int| 0 <= j < voters_of(ps, i).len() implies self.voters@[off@[i] + j] == voters_of(ps, i)[j] by {
                    assert(voters_of(ps.take(m as int), i)[j] == voters_of(ps, i)[j]);
                }
                assert(self.voters_seq(i) =~= voters_of(pairs@, i));
            }
        }
    }

    /// `processed_in` flag of point `i`.
    pub fn test_processed_in(&self, i: EdgeIdx) -> (b: bool)
        requires
            self.flags_ready(),
            0 <= i < self.points@.len(),
        ensures
            b == self.processed_in_flag(i as int),
    {
        let i = i as usize;
        (self.processed_in[i / 64] >> ((i % 64) as u64)) & 1 == 1
    }

    /// Set or clear the `processed_in` flag of point `i`.
    pub fn set_processed_in(&mut self, i: EdgeIdx, f: bool)
        requires
            old(self).flags_ready(),
            0 <= i < old(self).points@.len(),
        ensures
            final(self).flags_ready(),
            forall|j: int| 0 <= j < final(self).points@.len() ==> #[trigger] final(self).processed_in_flag(j) == if j == i {
                f
            } else {
                old(self).processed_in_flag(j)
            },
            final(self).processed_aux@ == old(self).processed_aux@,
            final(self).points@ == old(self).points@,
            final(self).edge_map@ == old(self).edge_map@,
            final(self).links@ == old(self).links@,
            final(self).voters_off@ == old(self).voters_off@,
            final(self).voters@ == old(self).voters@,
            final(self).is_max@ == old(self).is_max@,
            final(self).n_segment_out@ == old(self).n_segment_out@,
            final(self).processed@ == old(self).processed@,
            final(self).map_w == old(self).map_w,
            final(self).map_h == old(self).map_h,
            final(self).bound_w == old(self).bound_w,
            final(self).bound_h == old(self).bound_h,
    {
        let ii = i as usize;
        let wi = ii / 64;
        let b = (ii % 64) as u64;
        let w = self.processed_in[wi];
        let nw = if f {
            w | (1u64 << b)
        } else {
            w & !(1u64 << b)
        };
        self.processed_in.set(wi, nw);
        proof {
            assert forall|j: int| 0 <= j < self.points@.len() implies #[trigger] self.processed_in_flag(j) == if j == i {
                f
            } else {
                old(self).processed_in_flag(j)
            } by {
                lemma_set_bit(w, b, (j % 64) as u64);
            }
        }
    }

    /// `processed_aux` flag of point `i`.
    pub fn test_processed_aux(&self, i: EdgeIdx) -> (b: bool)
        requires
            self.flags_ready(),
            0 <= i < self.points@.len(),
        ensures
            b == self.processed_aux_flag(i as int),
    {
        let i = i as usize;
        (self.processed_aux[i / 64] >> ((i % 64) as u64)) & 1 == 1
    }

    /// Set or clear the `processed_aux` flag of point `i`.
    pub fn set_processed_aux(&mut self, i: EdgeIdx, f: bool)
        requires
            old(self).flags_ready(),
            0 <= i < old(self).points@.len(),
        ensures
            final(self).flags_ready(),
            forall|j: int| 0 <= j < final(self).points@.len() ==> #[trigger] final(self).processed_aux_flag(j) == if j == i {
                f
            } else {
                old(self).processed_aux_flag(j)
            },
            final(self).processed_in@ == old(self).processed_in@,
            final(self).points@ == old(self).points@,
            final(self).edge_map@ == old(self).edge_map@,
            final(self).links@ == old(self).links@,
            final(self).voters_off@ == old(self).voters_off@,
            final(self).voters@ == old(self).voters@,
            final(self).is_max@ == old(self).is_max@,
            final(self).n_segment_out@ == old(self).n_segment_out@,
            final(self).processed@ == old(self).processed@,
            final(self).map_w == old(self).map_w,
            final(self).map_h == old(self).map_h,
            final(self).bound_w == old(self).bound_w,
            final(self).bound_h == old(self).bound_h,
    {
        let ii = i as usize;
        let wi = ii / 64;
        let b = (ii % 64) as u64;
        let w = self.processed_aux[wi];
        let nw = if f {
            w | (1u64 << b)
        } else {
            w & !(1u64 << b)
        };
        self.processed_aux.set(wi, nw);
        proof {
            assert forall|j: int| 0 <= j < self.points@.len() implies #[trigger] self.processed_aux_flag(j) == if j == i {
                f
            } else {
                old(self).processed_aux_flag(j)
            } by {
                lemma_set_bit(w, b, (j % 64) as u64);
            }
        }
    }
}

/// A point added at a pixel is what the map gives back there, and every
/// other pixel keeps what it held.
pub proof fn lemma_add_point_then_at(
    before: EdgePointCollection,
    after: EdgePointCollection,
    x: int,
    y: int,
    idx: EdgeIdx,
    x2: int,
    y2: int,
)
    requires
        before.wf(),
        0 <= x < before.map_w,
        0 <= y < before.map_h,
        after.map_w == before.map_w,
        after.map_h == before.map_h,
        after.edge_map@ == before.edge_map@.update(y * before.map_w + x, idx),
    ensures
        after.edge_at(x, y) == idx,
        (x2 != x || y2 != y) ==> after.edge_at(x2, y2) == before.edge_at(x2, y2),
{
    lemma_pixel_index(x, y, before.map_w as int, before.map_h as int);
    if (x2 != x || y2 != y) && 0 <= x2 < before.map_w && 0 <= y2 < before.map_h {
        lemma_pixel_index(x2, y2, before.map_w as int, before.map_h as int);
        lemma_distinct_pixels(x, y, x2, y2, before.map_w as int);
    }
}

proof fn lemma_distinct_pixels(x: int, y: int, x2: int, y2: int, w: int)
    requires
        0 <= x < w,
        0 <= x2 < w,
        0 <= y,
        0 <= y2,
        x2 != x || y2 != y,
    ensures
        y * w + x != y2 * w + x2,
{
    if y == y2 {
    } else if y < y2 {
        assert(y * w + x < y2 * w + x2) by (nonlinear_arith)
            requires 0 <= x < w, 0 <= x2, y < y2;
    } else {
        assert(y2 * w + x2 < y * w + x) by (nonlinear_arith)
            requires 0 <= x2 < w, 0 <= x, y2 < y;
    }
}

} // verus!
