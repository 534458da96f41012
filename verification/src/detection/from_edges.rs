//! Segment labelling of the candidates of one level.

use vstd::prelude::*;
use crate::edge::{EdgeIdx, EdgePointCollection};

verus! {

/// The first label (not -1) among the points `children[k..]`.
pub open spec fn first_label(nso: Seq<i32>, children: Seq<EdgeIdx>, k: int) -> Option<i32>
    decreases children.len() - k,
{
    if k >= children.len() || k < 0 {
        None
    } else if nso[children[k] as int] != -1 {
        Some(nso[children[k] as int])
    } else {
        first_label(nso, children, k + 1)
    }
}

/// Label of a candidate's filtered children: the label of the first child
/// that already has one, else a new label (the counter, which advances).
/// Every child gets the label.
pub fn loop_two_b_label(coll: &mut EdgePointCollection, children: &[EdgeIdx], n_segment_out: &mut usize) -> (label: usize)
    requires
        old(coll).wf(),
        *old(n_segment_out) < usize::MAX,
        forall|k: int| 0 <= k < children@.len() ==> 0 <= #[trigger] children@[k] < old(coll).points@.len(),
    ensures
        label == match first_label(old(coll).n_segment_out@, children@, 0) {
            Some(v) => v as usize,
            None => *old(n_segment_out),
        },
        *final(n_segment_out) == if first_label(old(coll).n_segment_out@, children@, 0) is Some {
            *old(n_segment_out)
        } else {
            (*old(n_segment_out) + 1) as usize
        },
        final(coll).wf(),
        final(coll).n_segment_out@.len() == old(coll).n_segment_out@.len(),
        forall|c: int|
            0 <= c < final(coll).n_segment_out@.len() ==> #[trigger] final(coll).n_segment_out@[c] == if children@.contains(c as EdgeIdx) {
                label as i32
            } else {
                old(coll).n_segment_out@[c]
            },
        final(coll).points@ == old(coll).points@,
        final(coll).edge_map@ == old(coll).edge_map@,
        final(coll).links@ == old(coll).links@,
        final(coll).voters_off@ == old(coll).voters_off@,
        final(coll).voters@ == old(coll).voters@,
        final(coll).is_max@ == old(coll).is_max@,
        final(coll).processed@ == old(coll).processed@,
        final(coll).processed_in@ == old(coll).processed_in@,
        final(coll).processed_aux@ == old(coll).processed_aux@,
        final(coll).map_w == old(coll).map_w,
        final(coll).map_h == old(coll).map_h,
        final(coll).bound_w == old(coll).bound_w,
        final(coll).bound_h == old(coll).bound_h,
{
    let n = children.len();
    let ghost nso0 = coll.n_segment_out@;
    let mut common: i64 = -1;
    let mut k: usize = 0;
    while k < n
        invariant_except_break
            common == -1,
            first_label(nso0, children@, 0) == first_label(nso0, children@, k as int),
        invariant
            k <= n,
            n == children@.len(),
            coll.n_segment_out@ == nso0,
            nso0.len() == coll.points@.len(),
            forall|kk: int| 0 <= kk < children@.len() ==> 0 <= #[trigger] children@[kk] < nso0.len(),
        ensures
            coll.n_segment_out@ == nso0,
            common == -1 ==> first_label(nso0, children@, 0) is None,
            common != -1 ==> first_label(nso0, children@, 0) == Some(common as i32) && common >= i32::MIN && common <= i32::MAX,
        decreases n - k,
    {
        let p = children[k] as usize;
        if coll.n_segment_out[p] != -1 {
            common = coll.n_segment_out[p] as i64;
            break;
        }
        k = k + 1;
    }
    let label: usize = if common == -1 {
        let l = *n_segment_out;
        *n_segment_out = l + 1;
        l
    } else {
        common as usize
    };
    let mut k: usize = 0;
    while k < n
        invariant
            k <= n,
            n == children@.len(),
            coll.wf(),
            coll.n_segment_out@.len() == nso0.len(),
            forall|kk: int| 0 <= kk < children@.len() ==> 0 <= #[trigger] children@[kk] < nso0.len(),
            forall|c: int|
                0 <= c < nso0.len() ==> #[trigger] coll.n_segment_out@[c] == if children@.take(k as int).contains(c as EdgeIdx) {
                    label as i32
                } else {
                    nso0[c]
                },
            coll.points@ == old(coll).points@,
            coll.edge_map@ == old(coll).edge_map@,
            coll.links@ == old(coll).links@,
            coll.voters_off@ == old(coll).voters_off@,
            coll.voters@ == old(coll).voters@,
            coll.is_max@ == old(coll).is_max@,
            coll.processed@ == old(coll).processed@,
            coll.processed_in@ == old(coll).processed_in@,
            coll.processed_aux@ == old(coll).processed_aux@,
            coll.map_w == old(coll).map_w,
            coll.map_h == old(coll).map_h,
            coll.bound_w == old(coll).bound_w,
            coll.bound_h == old(coll).bound_h,
        decreases n - k,
    {
        let p = children[k];
        let ghost before = coll.n_segment_out@;
        coll.n_segment_out.set(p as usize, label as i32);
        proof {
            assert forall|c: int| 0 <= c < nso0.len() implies #[trigger] coll.n_segment_out@[c] == if children@.take(k + 1).contains(c as EdgeIdx) {
                label as i32
            } else {
                nso0[c]
            } by {
                let t1 = children@.take(k + 1);
                let t0 = children@.take(k as int);
                assert(t1 =~= t0.push(p));
                assert(before[c] == if t0.contains(c as EdgeIdx) {
                    label as i32
                } else {
                    nso0[c]
                });
                if c == p as int {
                    assert(t1[k as int] == p);
                }
                if t0.contains(c as EdgeIdx) {
                    let j = choose|j: int| 0 <= j < t0.len() && t0[j] == c as EdgeIdx;
                    assert(t1[j] == c as EdgeIdx);
                }
                if t1.contains(c as EdgeIdx) && !t0.contains(c as EdgeIdx) {
                    let j = choose|j: int| 0 <= j < t1.len() && t1[j] == c as EdgeIdx;
                    if j < t0.len() {
                        assert(t0[j] == c as EdgeIdx);
                    }
                }
            }
        }
        k = k + 1;
    }
    proof {
        assert(children@.take(n as int) =~= children@);
    }
    label
}

} // verus!
