//! Edge-linking support: the visited map of a linking walk, its result, and
//! the children of a linked segment.

use vstd::prelude::*;
use std::collections::VecDeque;
use crate::edge::{EdgeIdx, EdgePointCollection};

verus! {

/// Result of a linking run: the segment, and the points to mark as
/// processed (applied by the caller in seed order).
#[derive(Clone, Debug, Default)]
pub struct LinkResult {
    pub segment: VecDeque<EdgeIdx>,
    /// Points to mark as linked.
    pub marks: Vec<EdgeIdx>,
}

/// Visited set over the pixels of a `w x h` map: an epoch-stamped array,
/// reusable across walks without clearing. Before the first
/// [`VisitedMap::begin`] every pixel counts as visited.
#[derive(Debug)]
pub struct VisitedMap {
    stamp: Vec<u32>,
    epoch: u32,
    w: usize,
}

impl View for VisitedMap {
    type V = Seq<bool>;

    /// Visited flag of each pixel, row-major.
    closed spec fn view(&self) -> Seq<bool> {
        self.stamp@.map_values(|s: u32| s == self.epoch)
    }
}

impl Clone for VisitedMap {
    /// A copy with the same width, epoch and visited pixels.
    fn clone(&self) -> (c: Self)
        ensures
            c@ == self@,
            c.wf() == self.wf(),
            c.width() == self.width(),
            c.epoch_of() == self.epoch_of(),
    {
        let stamp = self.stamp.clone();
        assert(stamp@ =~= self.stamp@);
        let c = VisitedMap { stamp, epoch: self.epoch, w: self.w };
        assert(c@ =~= self@);
        c
    }
}

impl Default for VisitedMap {
    /// A map over no pixel, before its first walk.
    fn default() -> (m: Self)
        ensures
            m.wf(),
            m.width() == 0,
            m.epoch_of() == 0,
            m@ == Seq::<bool>::empty(),
    {
        let m = VisitedMap { stamp: Vec::new(), epoch: 0, w: 0 };
        assert(m@ =~= Seq::<bool>::empty());
        m
    }
}

impl VisitedMap {
    /// No stamp is ahead of the epoch.
    pub closed spec fn wf(&self) -> bool {
        forall|i: int| 0 <= i < self.stamp@.len() ==> #[trigger] self.stamp@[i] <= self.epoch
    }

    /// Width of the map.
    pub closed spec fn width(&self) -> usize {
        self.w
    }

    /// The current epoch (0 before the first `begin`).
    pub closed spec fn epoch_of(&self) -> u32 {
        self.epoch
    }

    /// A map over `w x h` pixels, before its first walk.
    pub fn new(w: usize, h: usize) -> (m: Self)
        requires
            w * h <= usize::MAX,
        ensures
            m.wf(),
            m.width() == w,
            m.epoch_of() == 0,
            m@ == Seq::new((w * h) as nat, |i: int| true),
    {
        let m = VisitedMap { stamp: crate::image::vec_filled(w * h, 0u32), epoch: 0, w };
        assert(m@ =~= Seq::new((w * h) as nat, |i: int| true));
        m
    }

    /// Re-dimension to `w x h` (every pixel visited, epoch 0) unless the map
    /// already has that size and width.
    pub fn ensure(&mut self, w: usize, h: usize)
        requires
            old(self).wf(),
            w * h <= usize::MAX,
        ensures
            final(self).wf(),
            final(self).width() == w,
            final(self)@.len() == w * h,
            old(self)@.len() == w * h && old(self).width() == w ==> *final(self) == *old(self),
            !(old(self)@.len() == w * h && old(self).width() == w) ==> final(self)@ == Seq::new(
                (w * h) as nat,
                |i: int| true,
            ) && final(self).epoch_of() == 0,
    {
        if self.stamp.len() != w * h || self.w != w {
            self.stamp = crate::image::vec_filled(w * h, 0u32);
            self.w = w;
            self.epoch = 0;
            assert(self@ =~= Seq::new((w * h) as nat, |i: int| true));
        }
    }

    /// Start a fresh walk: no pixel is visited.
    pub fn begin(&mut self)
        requires
            old(self).wf(),
        ensures
            final(self).wf(),
            final(self).width() == old(self).width(),
            final(self).epoch_of() != 0,
            final(self)@.len() == old(self)@.len(),
            forall|i: int| 0 <= i < final(self)@.len() ==> !#[trigger] final(self)@[i],
    {
        let e = self.epoch.wrapping_add(1);
        if e == 0 {
            let len = self.stamp.len();
            let mut i: usize = 0;
            while i < len
                invariant
                    i <= len,
                    len == self.stamp@.len(),
                    self.w == old(self).w,
                    forall|k: int| 0 <= k < i ==> self.stamp@[k] == 0,
                decreases len - i,
            {
                self.stamp.set(i, 0);
                i = i + 1;
            }
            self.epoch = 1;
        } else {
            self.epoch = e;
        }
    }

    /// Mark pixel `(x, y)` visited.
    pub fn insert(&mut self, x: i32, y: i32)
        requires
            old(self).wf(),
            0 <= x,
            0 <= y,
            y * old(self).width() + x < old(self)@.len(),
        ensures
            final(self).wf(),
            final(self).width() == old(self).width(),
            final(self).epoch_of() == old(self).epoch_of(),
            final(self)@ == old(self)@.update(y * old(self).width() + x, true),
    {
        assert(self.stamp.len() == self.stamp@.len());
        assert(0 <= y * self.w) by (nonlinear_arith)
            requires 0 <= y;
        let i = y as usize * self.w + x as usize;
        self.stamp.set(i, self.epoch);
        assert(self@ =~= old(self)@.update(y * old(self).width() + x, true));
    }

    /// Whether pixel `(x, y)` is visited.
    pub fn contains(&self, x: i32, y: i32) -> (b: bool)
        requires
            0 <= x,
            0 <= y,
            y * self.width() + x < self@.len(),
        ensures
            b == self@[y * self.width() + x],
    {
        assert(self.stamp.len() == self.stamp@.len());
        assert(0 <= y * self.w) by (nonlinear_arith)
            requires 0 <= y;
        let i = y as usize * self.w + x as usize;
        self.stamp[i] == self.epoch
    }
}

/// Largest voter count over `seg`, at least `acc`.
pub open spec fn max_votes(coll: EdgePointCollection, seg: Seq<EdgeIdx>, acc: int) -> int
    decreases seg.len(),
{
    if seg.len() == 0 {
        acc
    } else {
        let v = coll.voters_seq(seg.last() as int).len() as int;
        let m = max_votes(coll, seg.drop_last(), acc);
        if v > m {
            v
        } else {
            m
        }
    }
}

/// Voters of the points of `seg` (in order) that have at least one voter
/// and at least `thr`.
pub open spec fn children_spec(coll: EdgePointCollection, seg: Seq<EdgeIdx>, thr: int) -> Seq<EdgeIdx>
    decreases seg.len(),
{
    if seg.len() == 0 {
        seq![]
    } else {
        let v = coll.voters_seq(seg.last() as int);
        children_spec(coll, seg.drop_last(), thr) + if v.len() > 0 && v.len() >= thr {
            v
        } else {
            seq![]
        }
    }
}

/// All voters of segment points whose vote count is at least
/// `max(1, largest count) / 14` (and non-zero), in segment order.
pub fn children_of(coll: &EdgePointCollection, segment: &VecDeque<EdgeIdx>) -> (children: Vec<EdgeIdx>)
    requires
        coll.voters_wf(),
        forall|k: int| 0 <= k < segment@.len() ==> 0 <= #[trigger] segment@[k] < coll.points@.len(),
    ensures
        children@ == children_spec(*coll, segment@, max_votes(*coll, segment@, 1) / 14),
{
    let n = segment.len();
    let mut vote_max: usize = 1;
    let mut k: usize = 0;
    while k < n
        invariant
            n == segment@.len(),
            k <= n,
            coll.voters_wf(),
            forall|kk: int| 0 <= kk < segment@.len() ==> 0 <= #[trigger] segment@[kk] < coll.points@.len(),
            vote_max == max_votes(*coll, segment@.take(k as int), 1),
        decreases n - k,
    {
        let e = segment[k];
        let v = coll.voters_size(e);
        proof {
            assert(segment@.take(k + 1).drop_last() =~= segment@.take(k as int));
        }
        if v > vote_max {
            vote_max = v;
        }
        k = k + 1;
    }
    proof {
        assert(segment@.take(n as int) =~= segment@);
    }
    let thr = vote_max / 14;
    let mut children: Vec<EdgeIdx> = Vec::new();
    let mut k: usize = 0;
    while k < n
        invariant
            n == segment@.len(),
            k <= n,
            coll.voters_wf(),
            forall|kk: int| 0 <= kk < segment@.len() ==> 0 <= #[trigger] segment@[kk] < coll.points@.len(),
            thr == max_votes(*coll, segment@, 1) / 14,
            children@ == children_spec(*coll, segment@.take(k as int), thr as int),
        decreases n - k,
    {
        let e = segment[k];
        let v = coll.voters(e);
        proof {
            assert(segment@.take(k + 1).drop_last() =~= segment@.take(k as int));
        }
        if v.len() != 0 && v.len() >= thr {
            let ghost before = children@;
            let mut q: usize = 0;
            while q < v.len()
                invariant
                    q <= v@.len(),
                    children@ == before + v@.take(q as int),
                decreases v@.len() - q,
            {
                children.push(v[q]);
                q = q + 1;
                assert(children@ =~= before + v@.take(q as int));
            }
            assert(v@.take(v@.len() as int) =~= v@);
        }
        k = k + 1;
    }
    proof {
        assert(segment@.take(n as int) =~= segment@);
    }
    children
}

/// The vote maximum of a segment is at least `acc` and at least the voter
/// count of every segment point, the first one included, and it is `acc`
/// or one of those counts. With `acc = 1` it is the threshold base of
/// [`children_of`]: a segment point whose voter count is below one
/// fourteenth of another point's count is skipped.
pub proof fn lemma_max_votes_is_maximum(coll: EdgePointCollection, seg: Seq<EdgeIdx>, acc: int)
    ensures
        max_votes(coll, seg, acc) >= acc,
        forall|k: int| 0 <= k < seg.len() ==> max_votes(coll, seg, acc) >= #[trigger] coll.voters_seq(seg[k] as int).len(),
        max_votes(coll, seg, acc) == acc || exists|k: int| 0 <= k < seg.len() && max_votes(coll, seg, acc)
            == #[trigger] coll.voters_seq(seg[k] as int).len(),
    decreases seg.len(),
{
    if seg.len() > 0 {
        let pre = seg.drop_last();
        lemma_max_votes_is_maximum(coll, pre, acc);
        assert forall|k: int| 0 <= k < seg.len() implies max_votes(coll, seg, acc) >= #[trigger] coll.voters_seq(seg[k] as int).len() by {
            if k < seg.len() - 1 {
                assert(seg[k] == pre[k]);
            }
        }
        let last = seg.len() - 1;
        assert(seg[last] == seg.last());
        if max_votes(coll, seg, acc) != acc && max_votes(coll, seg, acc) != coll.voters_seq(seg[last] as int).len() {
            let k = choose|k: int| 0 <= k < pre.len() && max_votes(coll, pre, acc) == #[trigger] coll.voters_seq(pre[k] as int).len();
            assert(seg[k] == pre[k]);
            assert(max_votes(coll, seg, acc) == coll.voters_seq(seg[k] as int).len());
        }
    }
}

} // verus!
