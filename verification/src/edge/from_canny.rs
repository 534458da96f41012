//! Edge points from the thinned Canny map: a raster scan adding every set
//! (255) pixel with its gradient.

use vstd::prelude::*;
use super::collection::{EdgePointCollection, EdgeIdx};
use super::point::EdgePoint;
use crate::image::{I16Plane, Plane};

verus! {

/// The edge points of the first `k` pixels (row-major) of `edges`, in scan
/// order, with their gradients.
pub open spec fn edge_points(edges: Plane<u8>, dx: I16Plane, dy: I16Plane, k: int) -> Seq<EdgePoint>
    decreases k,
{
    if k <= 0 {
        seq![]
    } else {
        let j = k - 1;
        edge_points(edges, dx, dy, j) + if edges.data@[j] == 255 {
            seq![
                EdgePoint {
                    x: ((j % edges.w as int) as i32) as i16,
                    y: ((j / edges.w as int) as i32) as i16,
                    dx: dx.data@[j],
                    dy: dy.data@[j],
                },
            ]
        } else {
            seq![]
        }
    }
}

proof fn lemma_edge_points_len(edges: Plane<u8>, dx: I16Plane, dy: I16Plane, j: int, k: int)
    requires
        0 <= j <= k,
    ensures
        edge_points(edges, dx, dy, j).len() <= edge_points(edges, dx, dy, k).len(),
    decreases k - j,
{
    if j < k {
        lemma_edge_points_len(edges, dx, dy, j, k - 1);
    }
}

/// Add every set pixel of `edges` (row-major order) to the collection, then
/// size its flag sets.
pub fn edges_points_from_canny(coll: &mut EdgePointCollection, edges: &Plane<u8>, dx: &I16Plane, dy: &I16Plane)
    requires
        old(coll).wf(),
        edges.wf(),
        dx.wf(),
        dy.wf(),
        old(coll).map_w == edges.w,
        old(coll).map_h == edges.h,
        dx.w == edges.w,
        dx.h == edges.h,
        dy.w == edges.w,
        dy.h == edges.h,
        old(coll).points@.len() + edge_points(*edges, *dx, *dy, edges.w * edges.h).len() <= i32::MAX,
    ensures
        final(coll).wf(),
        final(coll).flags_ready(),
        forall|i: int| 0 <= i < final(coll).points@.len() ==> !final(coll).processed_in_flag(i) && !final(coll).processed_aux_flag(i),
        final(coll).points@ == old(coll).points@ + edge_points(*edges, *dx, *dy, edges.w * edges.h),
        forall|j: int| 0 <= j < edges.w * edges.h ==> #[trigger] final(coll).edge_map@[j] == if edges.data@[j] == 255 {
            (old(coll).points@.len() + edge_points(*edges, *dx, *dy, j).len()) as EdgeIdx
        } else {
            old(coll).edge_map@[j]
        },
        final(coll).map_w == old(coll).map_w,
        final(coll).map_h == old(coll).map_h,
        final(coll).bound_w == old(coll).bound_w,
        final(coll).bound_h == old(coll).bound_h,
{
    let w = edges.w;
    let h = edges.h;
    let n = w * h;
    let ghost n0 = coll.points@.len();
    let mut j: usize = 0;
    while j < n
        invariant
            coll.wf(),
            edges.wf(),
            dx.wf(),
            dy.wf(),
            w == edges.w,
            h == edges.h,
            n == w * h,
            coll.map_w == w,
            coll.map_h == h,
            coll.bound_w == old(coll).bound_w,
            coll.bound_h == old(coll).bound_h,
            dx.w == w,
            dx.h == h,
            dy.w == w,
            dy.h == h,
            j <= n,
            n0 == old(coll).points@.len(),
            n0 + edge_points(*edges, *dx, *dy, n as int).len() <= i32::MAX,
            coll.points@ == old(coll).points@ + edge_points(*edges, *dx, *dy, j as int),
            forall|k: int| 0 <= k < j ==> #[trigger] coll.edge_map@[k] == if edges.data@[k] == 255 {
                (n0 + edge_points(*edges, *dx, *dy, k).len()) as EdgeIdx
            } else {
                old(coll).edge_map@[k]
            },
            forall|k: int| j <= k < n ==> #[trigger] coll.edge_map@[k] == old(coll).edge_map@[k],
        decreases n - j,
    {
        assert(w > 0) by (nonlinear_arith)
            requires j < n, n == w * h;
        let x = j % w;
        let y = j / w;
        proof {
            assert(y < h) by (nonlinear_arith)
                requires j < n, n == w * h, y == j / w, w > 0;
            assert(j == y * w + x) by (nonlinear_arith)
                requires x == j % w, y == j / w, w > 0;
            lemma_edge_points_len(*edges, *dx, *dy, j as int + 1, n as int);
        }
        if edges.data[j] == 255 {
            coll.add_point(x, y, dx.data[j], dy.data[j]);
            proof {
                assert(coll.points@ =~= old(coll).points@ + edge_points(*edges, *dx, *dy, j as int + 1));
            }
        } else {
            proof {
                assert(edge_points(*edges, *dx, *dy, j as int + 1) =~= edge_points(*edges, *dx, *dy, j as int));
            }
        }
        j = j + 1;
    }
    coll.finish_points();
}

} // verus!
