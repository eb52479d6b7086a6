//! Properties of the projection, proved over its model.
use crate::filter::{filter_cols, filter_rows, filter_view, filter_views, filtered, frame_wf, Frame};
use crate::grid::{Cells3, Cells4};
use crate::projection::{grid_side, projected, unfiltered, MAX_PRECISION, OUTLIER_MARGIN};
use crate::raster::{
    axis_update, covers3, covers4, far_update, in_bounds, lemma_cell_in_range, near_update, paint,
    plane, point_update, raster_wf, rasterized, Raster, Triple,
};
use vstd::prelude::*;

verus! {

/// Every unoccupied pixel of the box holds the background colour.
pub open spec fn background_kept(image: Cells4, occupancy: Cells3, side: int) -> bool {
    forall|v: usize, r: usize, c: usize|
        v < 6 && r < side && c < side && #[trigger] occupancy[(v, r, c)] == 0 ==> {
            &&& image[(v, r, c, 0)] == 255
            &&& image[(v, r, c, 1)] == 255
            &&& image[(v, r, c, 2)] == 255
        }
}

/// From `s` to `t` no near depth grew and no far depth shrank.
pub open spec fn depths_tightened(s: Raster, t: Raster, side: int) -> bool {
    forall|a: usize, r: usize, c: usize|
        a < 3 && r < side && c < side ==> {
            &&& #[trigger] t.near[(a, r, c)] <= s.near[(a, r, c)]
            &&& t.far[(a, r, c)] >= s.far[(a, r, c)]
        }
}

proof fn lemma_covers3_insert(m: Cells3, key: (usize, usize, usize), v: u64, d0: int, d1: int, d2: int, bound: int)
    requires
        covers3(m, d0, d1, d2, bound),
        v <= bound,
    ensures
        covers3(m.insert(key, v), d0, d1, d2, bound),
{
    let t = m.insert(key, v);
    assert forall|a: usize, b: usize, c: usize| a < d0 && b < d1 && c < d2 implies #[trigger] t.dom().contains((a, b, c)) by {
        assert(m.dom().contains((a, b, c)));
    }
    assert forall|k: (usize, usize, usize)| #[trigger] t.dom().contains(k) implies t[k] <= bound by {
        if k != key {
            assert(m.dom().contains(k));
        }
    }
}

/// Painting a pixel and marking it occupied keeps the background property
/// and the buffers' shapes.
proof fn lemma_paint(img: Cells4, occ: Cells3, v: usize, k1: usize, k2: usize, c: Triple, tpu: u64, side: int)
    requires
        tpu > 0,
        covers4(img, 6, side, side, 3),
        covers3(occ, 6, side, side, 1),
    ensures
        covers4(paint(img, v, k1, k2, c, tpu), 6, side, side, 3),
        covers3(occ.insert((v, k1, k2), 1), 6, side, side, 1),
        background_kept(img, occ, side) ==> background_kept(
            paint(img, v, k1, k2, c, tpu),
            occ.insert((v, k1, k2), 1),
            side,
        ),
{
    let t = paint(img, v, k1, k2, c, tpu);
    assert forall|a: usize, b: usize, cc: usize, e: usize| a < 6 && b < side && cc < side && e < 3 implies #[trigger] t.dom().contains((a, b, cc, e)) by {
        assert(img.dom().contains((a, b, cc, e)));
    }
    lemma_covers3_insert(occ, (v, k1, k2), 1, 6, side, side, 1);
    let o = occ.insert((v, k1, k2), 1);
    if background_kept(img, occ, side) {
        assert forall|a: usize, r: usize, cc: usize|
            a < 6 && r < side && cc < side && #[trigger] o[(a, r, cc)] == 0 implies {
            &&& t[(a, r, cc, 0)] == 255
            &&& t[(a, r, cc, 1)] == 255
            &&& t[(a, r, cc, 2)] == 255
        } by {
            assert((a, r, cc) != (v, k1, k2));
            assert(occ[(a, r, cc)] == 0);
        }
    }
}

proof fn lemma_near_update(s: Raster, j: usize, k1: usize, k2: usize, d: u64, c: Triple, tpu: u64, side: usize)
    requires
        raster_wf(s, side, tpu),
        tpu > 0,
        j < 3,
        k1 < side,
        k2 < side,
        d <= side * tpu,
    ensures
        raster_wf(near_update(s, j, k1, k2, d, c, tpu), side, tpu),
        background_kept(s.image, s.occupancy, side as int) ==> background_kept(
            near_update(s, j, k1, k2, d, c, tpu).image,
            near_update(s, j, k1, k2, d, c, tpu).occupancy,
            side as int,
        ),
        depths_tightened(s, near_update(s, j, k1, k2, d, c, tpu), side as int),
{
    let t = near_update(s, j, k1, k2, d, c, tpu);
    lemma_paint(s.image, s.occupancy, (2 * j) as usize, k1, k2, c, tpu, side as int);
    lemma_covers3_insert(s.near, (j, k1, k2), d, 3, side as int, side as int, side * tpu);
    assert forall|a: usize, r: usize, cc: usize| a < 3 && r < side && cc < side implies #[trigger] t.near[(a, r, cc)] <= s.near[(a, r, cc)] && t.far[(a, r, cc)] >= s.far[(a, r, cc)] by {
        assert(s.near.dom().contains((a, r, cc)));
    }
}

proof fn lemma_far_update(s: Raster, j: usize, k1: usize, k2: usize, d: u64, c: Triple, tpu: u64, side: usize)
    requires
        raster_wf(s, side, tpu),
        tpu > 0,
        j < 3,
        k1 < side,
        k2 < side,
        d <= side * tpu,
    ensures
        raster_wf(far_update(s, j, k1, k2, d, c, tpu), side, tpu),
        background_kept(s.image, s.occupancy, side as int) ==> background_kept(
            far_update(s, j, k1, k2, d, c, tpu).image,
            far_update(s, j, k1, k2, d, c, tpu).occupancy,
            side as int,
        ),
        depths_tightened(s, far_update(s, j, k1, k2, d, c, tpu), side as int),
{
    let t = far_update(s, j, k1, k2, d, c, tpu);
    lemma_paint(s.image, s.occupancy, (2 * j + 1) as usize, k1, k2, c, tpu, side as int);
    lemma_covers3_insert(s.far, (j, k1, k2), d, 3, side as int, side as int, side * tpu);
    assert forall|a: usize, r: usize, cc: usize| a < 3 && r < side && cc < side implies #[trigger] t.near[(a, r, cc)] <= s.near[(a, r, cc)] && t.far[(a, r, cc)] >= s.far[(a, r, cc)] by {
        assert(s.far.dom().contains((a, r, cc)));
    }
}

#[verifier::spinoff_prover]
proof fn lemma_tightened_trans(s: Raster, t: Raster, u: Raster, side: int)
    requires
        depths_tightened(s, t, side),
        depths_tightened(t, u, side),
    ensures
        depths_tightened(s, u, side),
{
    assert forall|a: usize, r: usize, c: usize| a < 3 && r < side && c < side implies #[trigger] u.near[(a, r, c)] <= s.near[(a, r, c)] && u.far[(a, r, c)] >= s.far[(a, r, c)] by {
        assert(t.near[(a, r, c)] <= s.near[(a, r, c)] && t.far[(a, r, c)] >= s.far[(a, r, c)]);
        assert(u.near[(a, r, c)] <= t.near[(a, r, c)] && u.far[(a, r, c)] >= t.far[(a, r, c)]);
    }
}

proof fn lemma_axis_update(s: Raster, p: Triple, c: Triple, tpu: u64, j: usize, side: usize)
    requires
        raster_wf(s, side, tpu),
        in_bounds(p, side * tpu),
        tpu > 0,
        j < 3,
    ensures
        raster_wf(axis_update(s, p, c, tpu, j), side, tpu),
        background_kept(s.image, s.occupancy, side as int) ==> background_kept(
            axis_update(s, p, c, tpu, j).image,
            axis_update(s, p, c, tpu, j).occupancy,
            side as int,
        ),
        depths_tightened(s, axis_update(s, p, c, tpu, j), side as int),
{
    let k1 = (p[plane(j as int).0] / tpu) as usize;
    let k2 = (p[plane(j as int).1] / tpu) as usize;
    lemma_cell_in_range(p[plane(j as int).0] as int, side as int, tpu as int);
    lemma_cell_in_range(p[plane(j as int).1] as int, side as int, tpu as int);
    let d = p[j as int];
    lemma_near_update(s, j, k1, k2, d, c, tpu, side);
    let s1 = near_update(s, j, k1, k2, d, c, tpu);
    lemma_far_update(s1, j, k1, k2, d, c, tpu, side);
    lemma_tightened_trans(s, s1, far_update(s1, j, k1, k2, d, c, tpu), side as int);
}

proof fn lemma_point_update(s: Raster, p: Triple, c: Triple, side: usize, tpu: u64)
    requires
        raster_wf(s, side, tpu),
        tpu > 0,
    ensures
        raster_wf(point_update(s, p, c, side, tpu), side, tpu),
        background_kept(s.image, s.occupancy, side as int) ==> background_kept(
            point_update(s, p, c, side, tpu).image,
            point_update(s, p, c, side, tpu).occupancy,
            side as int,
        ),
        depths_tightened(s, point_update(s, p, c, side, tpu), side as int),
{
    if in_bounds(p, side * tpu) {
        let s0 = axis_update(s, p, c, tpu, 0);
        let s1 = axis_update(s0, p, c, tpu, 1);
        lemma_axis_update(s, p, c, tpu, 0, side);
        lemma_axis_update(s0, p, c, tpu, 1, side);
        lemma_axis_update(s1, p, c, tpu, 2, side);
        lemma_tightened_trans(s, s0, s1, side as int);
        lemma_tightened_trans(s, s1, axis_update(s1, p, c, tpu, 2), side as int);
    }
}

proof fn lemma_rasterized(points: Seq<Triple>, colors: Seq<Triple>, side: usize, tpu: u64)
    requires
        tpu > 0,
    ensures
        raster_wf(rasterized(points, colors, side, tpu), side, tpu),
        background_kept(
            rasterized(points, colors, side, tpu).image,
            rasterized(points, colors, side, tpu).occupancy,
            side as int,
        ),
    decreases points.len(),
{
    if points.len() > 0 {
        let n = points.len() - 1;
        lemma_rasterized(points.take(n), colors, side, tpu);
        lemma_point_update(rasterized(points.take(n), colors, side, tpu), points[n], colors[n], side, tpu);
    }
}

/// As more points are rasterized, no near depth grows and no far depth
/// shrinks, at any axis and cell.
pub proof fn depth_buffers_are_monotonic(points: Seq<Triple>, colors: Seq<Triple>, n: int, side: usize, tpu: u64)
    requires
        0 <= n < points.len(),
        tpu > 0,
    ensures
        depths_tightened(
            rasterized(points.take(n), colors, side, tpu),
            rasterized(points.take(n + 1), colors, side, tpu),
            side as int,
        ),
{
    let before = rasterized(points.take(n), colors, side, tpu);
    assert(points.take(n + 1).take(n) =~= points.take(n));
    lemma_rasterized(points.take(n), colors, side, tpu);
    lemma_point_update(before, points[n], colors[n], side, tpu);
}

/// Cell `(r, c)` lies at least `w` from every edge of a grid of side `side`.
pub open spec fn interior(r: int, c: int, side: int, w: int) -> bool {
    w <= r < side - w && w <= c < side - w
}

/// No occupancy flag of the box is higher in `f` than in `f0`.
pub open spec fn occupancy_lowered(f0: Frame, f: Frame, side: int) -> bool {
    forall|v: usize, r: usize, c: usize|
        v < 6 && r < side && c < side ==> #[trigger] f.occupancy[(v, r, c)] <= f0.occupancy[(v, r, c)]
}

/// Every pixel of the box outside the interior is the same in `f` as in `f0`.
pub open spec fn border_unchanged(f0: Frame, f: Frame, side: int, w: int) -> bool {
    forall|v: usize, r: usize, c: usize|
        v < 6 && r < side && c < side && !interior(r as int, c as int, side, w) ==> {
            &&& #[trigger] f.occupancy[(v, r, c)] == f0.occupancy[(v, r, c)]
            &&& f.image[(v, r, c, 0)] == f0.image[(v, r, c, 0)]
            &&& f.image[(v, r, c, 1)] == f0.image[(v, r, c, 1)]
            &&& f.image[(v, r, c, 2)] == f0.image[(v, r, c, 2)]
        }
}

/// What each stretch of the filter keeps: the frame's shape, the border, the
/// background property, and occupancy that never rises.
spec fn filter_step(f0: Frame, f: Frame, side: int, w: int) -> bool {
    &&& frame_wf(f, side)
    &&& occupancy_lowered(f0, f, side)
    &&& border_unchanged(f0, f, side, w)
    &&& background_kept(f0.image, f0.occupancy, side) ==> background_kept(f.image, f.occupancy, side)
}

proof fn lemma_step_refl(f: Frame, side: int, w: int)
    requires
        frame_wf(f, side),
    ensures
        filter_step(f, f, side, w),
{
}

proof fn lemma_border_trans(f0: Frame, f1: Frame, f2: Frame, side: int, w: int)
    requires
        border_unchanged(f0, f1, side, w),
        border_unchanged(f1, f2, side, w),
    ensures
        border_unchanged(f0, f2, side, w),
{
}

proof fn lemma_step_trans(f0: Frame, f1: Frame, f2: Frame, side: int, w: int)
    requires
        filter_step(f0, f1, side, w),
        filter_step(f1, f2, side, w),
    ensures
        filter_step(f0, f2, side, w),
{
    assert forall|v: usize, r: usize, c: usize| v < 6 && r < side && c < side implies #[trigger] f2.occupancy[(v, r, c)] <= f0.occupancy[(v, r, c)] by {
        assert(f1.occupancy[(v, r, c)] <= f0.occupancy[(v, r, c)]);
        assert(f2.occupancy[(v, r, c)] <= f1.occupancy[(v, r, c)]);
    }
    lemma_border_trans(f0, f1, f2, side, w);
    assert(occupancy_lowered(f0, f2, side));
    assert(border_unchanged(f0, f2, side, w));
    assert(background_kept(f0.image, f0.occupancy, side) ==> background_kept(f2.image, f2.occupancy, side));
}

proof fn lemma_filter_view(f: Frame, near: Cells3, far: Cells3, k: usize, i: int, j: int, w: int, margin: int, side: int)
    requires
        frame_wf(f, side),
        k < 6,
        w >= 0,
        side <= usize::MAX,
        interior(i, j, side, w),
    ensures
        filter_step(f, filter_view(f, near, far, k, i, j, w, margin), side, w),
{
    let g = filter_view(f, near, far, k, i, j, w, margin);
    if g != f {
        let key = (k, i as usize, j as usize);
        lemma_covers3_insert(f.occupancy, key, 0, 6, side, side, 1);
        assert forall|a: usize, b: usize, cc: usize, e: usize| a < 6 && b < side && cc < side && e < 3 implies #[trigger] g.image.dom().contains((a, b, cc, e)) by {
            assert(f.image.dom().contains((a, b, cc, e)));
        }
        assert forall|v: usize, r: usize, c: usize| v < 6 && r < side && c < side implies #[trigger] g.occupancy[(v, r, c)] <= f.occupancy[(v, r, c)] by {
            if (v, r, c) != key {
                assert(g.occupancy[(v, r, c)] == f.occupancy[(v, r, c)]);
            }
        }
        assert forall|v: usize, r: usize, c: usize|
            v < 6 && r < side && c < side && !interior(r as int, c as int, side, w) implies {
            &&& #[trigger] g.occupancy[(v, r, c)] == f.occupancy[(v, r, c)]
            &&& g.image[(v, r, c, 0)] == f.image[(v, r, c, 0)]
            &&& g.image[(v, r, c, 1)] == f.image[(v, r, c, 1)]
            &&& g.image[(v, r, c, 2)] == f.image[(v, r, c, 2)]
        } by {
            assert((v, r, c) != key);
        }
        if background_kept(f.image, f.occupancy, side) {
            assert forall|v: usize, r: usize, c: usize|
                v < 6 && r < side && c < side && #[trigger] g.occupancy[(v, r, c)] == 0 implies {
                &&& g.image[(v, r, c, 0)] == 255
                &&& g.image[(v, r, c, 1)] == 255
                &&& g.image[(v, r, c, 2)] == 255
            } by {
                if (v, r, c) != key {
                    assert(f.occupancy[(v, r, c)] == 0);
                }
            }
        }
    }
}

proof fn lemma_filter_views(f: Frame, near: Cells3, far: Cells3, i: int, j: int, n: nat, w: int, margin: int, side: int)
    requires
        frame_wf(f, side),
        n <= 6,
        w >= 0,
        side <= usize::MAX,
        interior(i, j, side, w),
    ensures
        filter_step(f, filter_views(f, near, far, i, j, n, w, margin), side, w),
    decreases n,
{
    if n == 0 {
        lemma_step_refl(f, side, w);
    } else {
        let g = filter_views(f, near, far, i, j, (n - 1) as nat, w, margin);
        lemma_filter_views(f, near, far, i, j, (n - 1) as nat, w, margin, side);
        lemma_filter_view(g, near, far, (n - 1) as usize, i, j, w, margin, side);
        lemma_step_trans(f, g, filter_view(g, near, far, (n - 1) as usize, i, j, w, margin), side, w);
    }
}

proof fn lemma_filter_cols(f: Frame, near: Cells3, far: Cells3, i: int, lo: int, n: nat, w: int, margin: int, side: int)
    requires
        frame_wf(f, side),
        0 <= w <= i < side - w,
        side <= usize::MAX,
        w <= lo,
        lo + n <= side - w,
    ensures
        filter_step(f, filter_cols(f, near, far, i, lo, n, w, margin), side, w),
    decreases n,
{
    if n == 0 {
        lemma_step_refl(f, side, w);
    } else {
        let g = filter_cols(f, near, far, i, lo, (n - 1) as nat, w, margin);
        lemma_filter_cols(f, near, far, i, lo, (n - 1) as nat, w, margin, side);
        lemma_filter_views(g, near, far, i, lo + n - 1, 6, w, margin, side);
        lemma_step_trans(f, g, filter_views(g, near, far, i, lo + n - 1, 6, w, margin), side, w);
    }
}

proof fn lemma_filter_rows(f: Frame, near: Cells3, far: Cells3, lo: int, m: nat, n: nat, w: int, margin: int, side: int)
    requires
        frame_wf(f, side),
        0 <= w <= lo,
        side <= usize::MAX,
        lo + m <= side - w,
        lo + n <= side - w,
    ensures
        filter_step(f, filter_rows(f, near, far, lo, m, n, w, margin), side, w),
    decreases m,
{
    if m == 0 {
        lemma_step_refl(f, side, w);
    } else {
        let g = filter_rows(f, near, far, lo, (m - 1) as nat, n, w, margin);
        lemma_filter_rows(f, near, far, lo, (m - 1) as nat, n, w, margin, side);
        lemma_filter_cols(g, near, far, lo + m - 1, lo, n, w, margin, side);
        lemma_step_trans(f, g, filter_cols(g, near, far, lo + m - 1, lo, n, w, margin), side, w);
    }
}

proof fn lemma_filtered(f: Frame, near: Cells3, far: Cells3, side: int, w: int, margin: int)
    requires
        frame_wf(f, side),
        side <= usize::MAX,
        w >= 0,
    ensures
        filter_step(f, filtered(f, near, far, side, w, margin), side, w),
{
    if w == 0 || side <= 2 * w {
        lemma_step_refl(f, side, w);
    } else {
        lemma_filter_rows(f, near, far, w, (side - 2 * w) as nat, (side - 2 * w) as nat, w, margin, side);
    }
}

/// The filter never alters a pixel within `w` of the grid's edge, whatever
/// the window half-width `w`.
pub proof fn filter_keeps_border(f: Frame, near: Cells3, far: Cells3, side: usize, w: int, margin: int)
    requires
        frame_wf(f, side as int),
        w >= 0,
    ensures
        border_unchanged(f, filtered(f, near, far, side as int, w, margin), side as int, w),
{
    lemma_filtered(f, near, far, side as int, w, margin);
}

/// The filter only clears occupancy flags: no flag is ever raised.
pub proof fn filter_only_clears(f: Frame, near: Cells3, far: Cells3, side: usize, w: int, margin: int)
    requires
        frame_wf(f, side as int),
        w >= 0,
    ensures
        occupancy_lowered(f, filtered(f, near, far, side as int, w, margin), side as int),
{
    lemma_filtered(f, near, far, side as int, w, margin);
}

/// Rasterization reads only the colours of the points it is given.
proof fn lemma_colors_prefix(points: Seq<Triple>, colors: Seq<Triple>, more: Seq<Triple>, side: usize, tpu: u64)
    requires
        points.len() <= colors.len(),
        points.len() <= more.len(),
        forall|i: int| 0 <= i < points.len() ==> colors[i] == more[i],
    ensures
        rasterized(points, colors, side, tpu) == rasterized(points, more, side, tpu),
    decreases points.len(),
{
    if points.len() > 0 {
        lemma_colors_prefix(points.take(points.len() - 1), colors, more, side, tpu);
    }
}

/// The cell on the plane of axis `j` that an on-grid point falls into.
pub open spec fn cell_key(p: Triple, j: usize, tpu: u64) -> (usize, usize, usize) {
    (j, (p[plane(j as int).0] / tpu) as usize, (p[plane(j as int).1] / tpu) as usize)
}

/// After a point is offered to axis `j`, its cell's near depth is at most its
/// depth and the far depth at least; offering it to another axis leaves that
/// cell's depths alone.
proof fn lemma_axis_update_depths(s: Raster, p: Triple, c: Triple, tpu: u64, j: usize, j2: usize)
    requires
        j < 3,
        j2 < 3,
    ensures
        j2 == j ==> axis_update(s, p, c, tpu, j2).near[cell_key(p, j, tpu)] <= p[j as int],
        j2 == j ==> axis_update(s, p, c, tpu, j2).far[cell_key(p, j, tpu)] >= p[j as int],
        j2 != j ==> axis_update(s, p, c, tpu, j2).near[cell_key(p, j, tpu)] == s.near[cell_key(p, j, tpu)],
        j2 != j ==> axis_update(s, p, c, tpu, j2).far[cell_key(p, j, tpu)] == s.far[cell_key(p, j, tpu)],
{
}

/// Rasterization is a depth-buffer extremum: at the cell each on-grid point
/// falls into on each axis, the near depth is at most the point's depth along
/// that axis and the far depth at least.
pub proof fn depth_buffers_bound_every_point(points: Seq<Triple>, colors: Seq<Triple>, i: int, j: usize, side: usize, tpu: u64)
    requires
        0 <= i < points.len(),
        j < 3,
        tpu > 0,
        in_bounds(points[i], side * tpu),
    ensures
        rasterized(points, colors, side, tpu).near[cell_key(points[i], j, tpu)] <= points[i][j as int],
        rasterized(points, colors, side, tpu).far[cell_key(points[i], j, tpu)] >= points[i][j as int],
    decreases points.len(),
{
    let n = points.len() - 1;
    let p = points[i];
    let key = cell_key(p, j, tpu);
    let prev = rasterized(points.take(n), colors, side, tpu);
    lemma_cell_in_range(p[plane(j as int).0] as int, side as int, tpu as int);
    lemma_cell_in_range(p[plane(j as int).1] as int, side as int, tpu as int);
    if i == n {
        let c = colors[n];
        let s0 = axis_update(prev, p, c, tpu, 0);
        let s1 = axis_update(s0, p, c, tpu, 1);
        lemma_axis_update_depths(prev, p, c, tpu, j, 0);
        lemma_axis_update_depths(s0, p, c, tpu, j, 1);
        lemma_axis_update_depths(s1, p, c, tpu, j, 2);
    } else {
        assert(points.take(n)[i] == p);
        depth_buffers_bound_every_point(points.take(n), colors, i, j, side, tpu);
        lemma_rasterized(points.take(n), colors, side, tpu);
        lemma_point_update(prev, points[n], colors[n], side, tpu);
        assert(rasterized(points, colors, side, tpu).near[key] <= prev.near[key]);
    }
}

/// A near depth below the grid's extent, or a far depth above zero, was
/// written by some point, which also marked the matching view occupied.
pub open spec fn occupancy_tracks_depth(s: Raster, side: int, limit: int) -> bool {
    &&& forall|a: usize, r: usize, c: usize|
        a < 3 && r < side && c < side && #[trigger] s.near[(a, r, c)] < limit ==> s.occupancy[(
            (2 * a) as usize,
            r,
            c,
        )] == 1
    &&& forall|a: usize, r: usize, c: usize|
        a < 3 && r < side && c < side && #[trigger] s.far[(a, r, c)] > 0 ==> s.occupancy[(
            (2 * a + 1) as usize,
            r,
            c,
        )] == 1
}

/// From `s` to `t` no occupied pixel became unoccupied.
pub open spec fn occupancy_kept(s: Raster, t: Raster) -> bool {
    forall|v: usize, r: usize, c: usize| #[trigger] s.occupancy[(v, r, c)] == 1 ==> t.occupancy[(v, r, c)] == 1
}

proof fn lemma_axis_update_occupancy(s: Raster, p: Triple, c: Triple, tpu: u64, j: usize, side: usize, limit: int)
    requires
        tpu > 0,
        limit == side * tpu,
        in_bounds(p, limit),
        occupancy_tracks_depth(s, side as int, limit),
        j < 3,
        p[j as int] < limit,
    ensures
        occupancy_tracks_depth(axis_update(s, p, c, tpu, j), side as int, limit),
        occupancy_kept(s, axis_update(s, p, c, tpu, j)),
        axis_update(s, p, c, tpu, j).occupancy[((2 * j) as usize, cell_key(p, j, tpu).1, cell_key(p, j, tpu).2)] == 1,
        axis_update(s, p, c, tpu, j).occupancy[((2 * j + 1) as usize, cell_key(p, j, tpu).1, cell_key(p, j, tpu).2)] == 1,
{
    let key = cell_key(p, j, tpu);
    lemma_cell_in_range(p[plane(j as int).0] as int, side as int, tpu as int);
    lemma_cell_in_range(p[plane(j as int).1] as int, side as int, tpu as int);
    let d = p[j as int];
    let s1 = near_update(s, j, key.1, key.2, d, c, tpu);
    let t = far_update(s1, j, key.1, key.2, d, c, tpu);
    assert(s.near[key] < limit ==> s.occupancy[((2 * j) as usize, key.1, key.2)] == 1);
    assert(s1.near[key] < limit ==> s1.occupancy[((2 * j) as usize, key.1, key.2)] == 1);
    assert(s1.far[key] > 0 ==> s1.occupancy[((2 * j + 1) as usize, key.1, key.2)] == 1) by {
        assert(s.far[key] > 0 ==> s.occupancy[((2 * j + 1) as usize, key.1, key.2)] == 1);
    }
    assert forall|a: usize, r: usize, cc: usize| a < 3 && r < side && cc < side && #[trigger] s1.near[(a, r, cc)] < limit implies s1.occupancy[((2 * a) as usize, r, cc)] == 1 by {
        if (a, r, cc) != key {
            assert(s.near[(a, r, cc)] < limit);
        }
    }
    assert forall|a: usize, r: usize, cc: usize| a < 3 && r < side && cc < side && #[trigger] s1.far[(a, r, cc)] > 0 implies s1.occupancy[((2 * a + 1) as usize, r, cc)] == 1 by {
        assert(s.far[(a, r, cc)] > 0);
    }
    assert forall|a: usize, r: usize, cc: usize| a < 3 && r < side && cc < side && #[trigger] t.near[(a, r, cc)] < limit implies t.occupancy[((2 * a) as usize, r, cc)] == 1 by {
        assert(s1.near[(a, r, cc)] < limit);
    }
    assert forall|a: usize, r: usize, cc: usize| a < 3 && r < side && cc < side && #[trigger] t.far[(a, r, cc)] > 0 implies t.occupancy[((2 * a + 1) as usize, r, cc)] == 1 by {
        if (a, r, cc) != key {
            assert(s1.far[(a, r, cc)] > 0);
        }
    }
    assert forall|v: usize, r: usize, cc: usize| #[trigger] s.occupancy[(v, r, cc)] == 1 implies t.occupancy[(v, r, cc)] == 1 by {
        assert(s1.occupancy[(v, r, cc)] == 1);
    }
}

proof fn lemma_occupancy_kept_trans(s: Raster, t: Raster, u: Raster)
    requires
        occupancy_kept(s, t),
        occupancy_kept(t, u),
    ensures
        occupancy_kept(s, u),
{
    assert forall|v: usize, r: usize, c: usize| #[trigger] s.occupancy[(v, r, c)] == 1 implies u.occupancy[(v, r, c)] == 1 by {
        assert(t.occupancy[(v, r, c)] == 1);
    }
}

proof fn lemma_point_update_occupancy(s: Raster, p: Triple, c: Triple, side: usize, tpu: u64)
    requires
        tpu > 0,
        occupancy_tracks_depth(s, side as int, side * tpu),
    ensures
        occupancy_tracks_depth(point_update(s, p, c, side, tpu), side as int, side * tpu),
        occupancy_kept(s, point_update(s, p, c, side, tpu)),
{
    if in_bounds(p, side * tpu) {
        let s0 = axis_update(s, p, c, tpu, 0);
        let s1 = axis_update(s0, p, c, tpu, 1);
        lemma_axis_update_occupancy(s, p, c, tpu, 0, side, side * tpu);
        lemma_axis_update_occupancy(s0, p, c, tpu, 1, side, side * tpu);
        lemma_axis_update_occupancy(s1, p, c, tpu, 2, side, side * tpu);
        lemma_occupancy_kept_trans(s, s0, s1);
        lemma_occupancy_kept_trans(s, s1, axis_update(s1, p, c, tpu, 2));
    }
}

proof fn lemma_rasterized_occupancy(points: Seq<Triple>, colors: Seq<Triple>, side: usize, tpu: u64)
    requires
        tpu > 0,
        side * tpu <= u64::MAX,
    ensures
        occupancy_tracks_depth(rasterized(points, colors, side, tpu), side as int, side * tpu),
    decreases points.len(),
{
    if points.len() > 0 {
        let n = points.len() - 1;
        lemma_rasterized_occupancy(points.take(n), colors, side, tpu);
        lemma_point_update_occupancy(rasterized(points.take(n), colors, side, tpu), points[n], colors[n], side, tpu);
    }
}

/// After rasterization, both views of every axis are occupied at the cell
/// that each on-grid point falls into.
pub proof fn every_point_on_grid_is_shown(points: Seq<Triple>, colors: Seq<Triple>, i: int, j: usize, side: usize, tpu: u64)
    requires
        0 <= i < points.len(),
        j < 3,
        tpu > 0,
        side * tpu <= u64::MAX,
        in_bounds(points[i], side * tpu),
    ensures
        ({
            let key = cell_key(points[i], j, tpu);
            let r = rasterized(points, colors, side, tpu);
            &&& r.occupancy[((2 * j) as usize, key.1, key.2)] == 1
            &&& r.occupancy[((2 * j + 1) as usize, key.1, key.2)] == 1
        }),
    decreases points.len(),
{
    let n = points.len() - 1;
    let p = points[i];
    let key = cell_key(p, j, tpu);
    let prev = rasterized(points.take(n), colors, side, tpu);
    lemma_rasterized_occupancy(points.take(n), colors, side, tpu);
    lemma_point_update_occupancy(prev, points[n], colors[n], side, tpu);
    if i == n {
        let c = colors[n];
        let limit = side * tpu;
        let s0 = axis_update(prev, p, c, tpu, 0);
        let s1 = axis_update(s0, p, c, tpu, 1);
        lemma_axis_update_occupancy(prev, p, c, tpu, 0, side, limit);
        lemma_axis_update_occupancy(s0, p, c, tpu, 1, side, limit);
        lemma_axis_update_occupancy(s1, p, c, tpu, 2, side, limit);
        lemma_occupancy_kept_trans(s0, s1, axis_update(s1, p, c, tpu, 2));
        lemma_occupancy_kept_trans(prev, s0, axis_update(s1, p, c, tpu, 2));
    } else {
        assert(points.take(n)[i] == p);
        every_point_on_grid_is_shown(points.take(n), colors, i, j, side, tpu);
        assert(prev.occupancy[((2 * j) as usize, key.1, key.2)] == 1);
        assert(prev.occupancy[((2 * j + 1) as usize, key.1, key.2)] == 1);
    }
}

/// Cell `(k1, k2)` of axis `j` is the same in `s` and `t`: its near and far
/// depths, and both views' pixels and occupancy there.
pub open spec fn same_axis_cell(s: Raster, t: Raster, j: usize, k1: usize, k2: usize) -> bool {
    let low = (2 * j) as usize;
    let high = (2 * j + 1) as usize;
    &&& t.near[(j, k1, k2)] == s.near[(j, k1, k2)]
    &&& t.far[(j, k1, k2)] == s.far[(j, k1, k2)]
    &&& t.occupancy[(low, k1, k2)] == s.occupancy[(low, k1, k2)]
    &&& t.occupancy[(high, k1, k2)] == s.occupancy[(high, k1, k2)]
    &&& forall|ch: usize| #[trigger] t.image[(low, k1, k2, ch)] == s.image[(low, k1, k2, ch)]
    &&& forall|ch: usize| #[trigger] t.image[(high, k1, k2, ch)] == s.image[(high, k1, k2, ch)]
}

proof fn lemma_other_axis_keeps_cell(s: Raster, p: Triple, c: Triple, tpu: u64, j: usize, j2: usize, k1: usize, k2: usize)
    requires
        tpu > 0,
        j < 3,
        j2 < 3,
        j2 != j,
    ensures
        same_axis_cell(s, axis_update(s, p, c, tpu, j2), j, k1, k2),
{
    let t = axis_update(s, p, c, tpu, j2);
    let low = (2 * j) as usize;
    let high = (2 * j + 1) as usize;
    assert((2 * j2) as usize != low && (2 * j2) as usize != high);
    assert((2 * j2 + 1) as usize != low && (2 * j2 + 1) as usize != high);
    assert forall|ch: usize| #[trigger] t.image[(low, k1, k2, ch)] == s.image[(low, k1, k2, ch)] by {}
    assert forall|ch: usize| #[trigger] t.image[(high, k1, k2, ch)] == s.image[(high, k1, k2, ch)] by {}
}

proof fn lemma_same_axis_cell_trans(s: Raster, t: Raster, u: Raster, j: usize, k1: usize, k2: usize)
    requires
        same_axis_cell(s, t, j, k1, k2),
        same_axis_cell(t, u, j, k1, k2),
    ensures
        same_axis_cell(s, u, j, k1, k2),
{
    let low = (2 * j) as usize;
    let high = (2 * j + 1) as usize;
    assert forall|ch: usize| #[trigger] u.image[(low, k1, k2, ch)] == s.image[(low, k1, k2, ch)] by {
        assert(t.image[(low, k1, k2, ch)] == s.image[(low, k1, k2, ch)]);
    }
    assert forall|ch: usize| #[trigger] u.image[(high, k1, k2, ch)] == s.image[(high, k1, k2, ch)] by {
        assert(t.image[(high, k1, k2, ch)] == s.image[(high, k1, k2, ch)]);
    }
}

/// The cell that `q` falls into, after it is offered to axis `j`.
pub open spec fn cell_after(s: Raster, t: Raster, q: Triple, c: Triple, tpu: u64, j: usize) -> bool {
    let key = cell_key(q, j, tpu);
    let d = q[j as int];
    let low = (2 * j) as usize;
    let high = (2 * j + 1) as usize;
    &&& t.near[key] == if d <= s.near[key] { d } else { s.near[key] }
    &&& t.far[key] == if d >= s.far[key] { d } else { s.far[key] }
    &&& forall|ch: usize| #![trigger t.image[(low, key.1, key.2, ch)]]
        ch < 3 ==> t.image[(low, key.1, key.2, ch)] == if d <= s.near[key] {
            c[ch as int] / tpu
        } else {
            s.image[(low, key.1, key.2, ch)]
        }
    &&& forall|ch: usize| #![trigger t.image[(high, key.1, key.2, ch)]]
        ch < 3 ==> t.image[(high, key.1, key.2, ch)] == if d >= s.far[key] {
            c[ch as int] / tpu
        } else {
            s.image[(high, key.1, key.2, ch)]
        }
}

proof fn lemma_own_axis(s: Raster, q: Triple, c: Triple, tpu: u64, j: usize)
    requires
        tpu > 0,
        j < 3,
    ensures
        cell_after(s, axis_update(s, q, c, tpu, j), q, c, tpu, j),
{
    let key = cell_key(q, j, tpu);
    let d = q[j as int];
    let low = (2 * j) as usize;
    let high = (2 * j + 1) as usize;
    let s1 = near_update(s, j, key.1, key.2, d, c, tpu);
    let t = far_update(s1, j, key.1, key.2, d, c, tpu);
    assert forall|ch: usize| #![trigger t.image[(low, key.1, key.2, ch)]] ch < 3 implies t.image[(low, key.1, key.2, ch)] == if d <= s.near[key] {
        c[ch as int] / tpu
    } else {
        s.image[(low, key.1, key.2, ch)]
    } by {
        assert(t.image[(low, key.1, key.2, ch)] == s1.image[(low, key.1, key.2, ch)]);
    }
    assert forall|ch: usize| #![trigger t.image[(high, key.1, key.2, ch)]] ch < 3 implies t.image[(high, key.1, key.2, ch)] == if d >= s.far[key] {
        c[ch as int] / tpu
    } else {
        s.image[(high, key.1, key.2, ch)]
    } by {
        assert(s1.image[(high, key.1, key.2, ch)] == s.image[(high, key.1, key.2, ch)]);
    }
}

/// A cell unchanged after the update of its own axis carries that update's
/// outcome along.
proof fn lemma_cell_after_then_same(s: Raster, t: Raster, u: Raster, q: Triple, c: Triple, tpu: u64, j: usize)
    requires
        cell_after(s, t, q, c, tpu, j),
        same_axis_cell(t, u, j, cell_key(q, j, tpu).1, cell_key(q, j, tpu).2),
    ensures
        cell_after(s, u, q, c, tpu, j),
{
    let key = cell_key(q, j, tpu);
    let low = (2 * j) as usize;
    let high = (2 * j + 1) as usize;
    assert forall|ch: usize| ch < 3 implies #[trigger] u.image[(low, key.1, key.2, ch)] == t.image[(low, key.1, key.2, ch)] by {}
    assert forall|ch: usize| ch < 3 implies #[trigger] u.image[(high, key.1, key.2, ch)] == t.image[(high, key.1, key.2, ch)] by {}
}

/// An unchanged cell before the update of its own axis: the outcome is read
/// against the earlier state.
proof fn lemma_same_then_cell_after(s: Raster, t: Raster, u: Raster, q: Triple, c: Triple, tpu: u64, j: usize)
    requires
        same_axis_cell(s, t, j, cell_key(q, j, tpu).1, cell_key(q, j, tpu).2),
        cell_after(t, u, q, c, tpu, j),
    ensures
        cell_after(s, u, q, c, tpu, j),
{
    let key = cell_key(q, j, tpu);
    let low = (2 * j) as usize;
    let high = (2 * j + 1) as usize;
    assert forall|ch: usize| ch < 3 implies #[trigger] t.image[(low, key.1, key.2, ch)] == s.image[(low, key.1, key.2, ch)] by {}
    assert forall|ch: usize| ch < 3 implies #[trigger] t.image[(high, key.1, key.2, ch)] == s.image[(high, key.1, key.2, ch)] by {}
}

/// Rasterizing one more on-grid point `q` of colour `c` changes, on each
/// axis `j`, the cell that `q` falls into as a depth buffer should: the near
/// depth becomes the smaller of the old one and `q`'s depth, and the low-side
/// view takes `q`'s colour exactly when `q` is no farther than the old near
/// depth (later points win ties); the far depth and high-side view mirror this.
/// Both views are occupied there afterwards.
pub proof fn adding_a_point_updates_its_cells(
    points: Seq<Triple>,
    colors: Seq<Triple>,
    q: Triple,
    c: Triple,
    j: usize,
    side: usize,
    tpu: u64,
)
    requires
        points.len() == colors.len(),
        j < 3,
        tpu > 0,
        side * tpu <= u64::MAX,
        in_bounds(q, side * tpu),
    ensures
        ({
            let before = rasterized(points, colors, side, tpu);
            let after = rasterized(points.push(q), colors.push(c), side, tpu);
            let key = cell_key(q, j, tpu);
            let d = q[j as int];
            let low = (2 * j) as usize;
            let high = (2 * j + 1) as usize;
            &&& after.near[key] == if d <= before.near[key] { d } else { before.near[key] }
            &&& after.far[key] == if d >= before.far[key] { d } else { before.far[key] }
            &&& forall|ch: usize| #![trigger after.image[(low, key.1, key.2, ch)]]
                ch < 3 ==> after.image[(low, key.1, key.2, ch)] == if d <= before.near[key] {
                    c[ch as int] / tpu
                } else {
                    before.image[(low, key.1, key.2, ch)]
                }
            &&& forall|ch: usize| #![trigger after.image[(high, key.1, key.2, ch)]]
                ch < 3 ==> after.image[(high, key.1, key.2, ch)] == if d >= before.far[key] {
                    c[ch as int] / tpu
                } else {
                    before.image[(high, key.1, key.2, ch)]
                }
            &&& after.occupancy[(low, key.1, key.2)] == 1
            &&& after.occupancy[(high, key.1, key.2)] == 1
        }),
{
    let ps = points.push(q);
    let cs = colors.push(c);
    let n = points.len() as int;
    assert(ps.take(n) =~= points);
    lemma_colors_prefix(points, colors, cs, side, tpu);
    let before = rasterized(points, colors, side, tpu);
    let key = cell_key(q, j, tpu);
    let s0 = axis_update(before, q, c, tpu, 0);
    let s1 = axis_update(s0, q, c, tpu, 1);
    let s2 = axis_update(s1, q, c, tpu, 2);
    assert(rasterized(ps, cs, side, tpu) == s2);
    every_point_on_grid_is_shown(ps, cs, n, j, side, tpu);
    if j == 0 {
        lemma_own_axis(before, q, c, tpu, 0);
        lemma_other_axis_keeps_cell(s0, q, c, tpu, 0, 1, key.1, key.2);
        lemma_other_axis_keeps_cell(s1, q, c, tpu, 0, 2, key.1, key.2);
        lemma_same_axis_cell_trans(s0, s1, s2, 0, key.1, key.2);
        lemma_cell_after_then_same(before, s0, s2, q, c, tpu, 0);
    } else if j == 1 {
        lemma_other_axis_keeps_cell(before, q, c, tpu, 1, 0, key.1, key.2);
        lemma_own_axis(s0, q, c, tpu, 1);
        lemma_same_then_cell_after(before, s0, s1, q, c, tpu, 1);
        lemma_other_axis_keeps_cell(s1, q, c, tpu, 1, 2, key.1, key.2);
        lemma_cell_after_then_same(before, s1, s2, q, c, tpu, 1);
    } else {
        lemma_other_axis_keeps_cell(before, q, c, tpu, 2, 0, key.1, key.2);
        lemma_other_axis_keeps_cell(s0, q, c, tpu, 2, 1, key.1, key.2);
        lemma_same_axis_cell_trans(before, s0, s1, 2, key.1, key.2);
        lemma_own_axis(s1, q, c, tpu, 2);
        lemma_same_then_cell_after(before, s1, s2, q, c, tpu, 2);
    }
}

/// Removing an off-grid point, wherever it stands, leaves the rasterized
/// buffers as they were.
proof fn lemma_remove_off_grid(points: Seq<Triple>, colors: Seq<Triple>, i: int, side: usize, tpu: u64)
    requires
        0 <= i < points.len(),
        points.len() == colors.len(),
        !in_bounds(points[i], side * tpu),
    ensures
        rasterized(points, colors, side, tpu) == rasterized(points.remove(i), colors.remove(i), side, tpu),
    decreases points.len(),
{
    let n = points.len() - 1;
    let pr = points.remove(i);
    let cr = colors.remove(i);
    if i == n {
        assert(pr =~= points.take(n));
        lemma_colors_prefix(points.take(n), colors, cr, side, tpu);
    } else {
        let pt = points.take(n);
        let ct = colors.take(n);
        lemma_colors_prefix(pt, colors, ct, side, tpu);
        lemma_remove_off_grid(pt, ct, i, side, tpu);
        assert(pr.take(n - 1) =~= pt.remove(i));
        assert(pr[n - 1] == points[n]);
        assert(cr[n - 1] == colors[n]);
        lemma_colors_prefix(pt.remove(i), ct.remove(i), cr, side, tpu);
    }
}

/// A point with any coordinate at or beyond the grid's extent
/// (`2^precision` units) contributes to no view: taking it out of the input,
/// with its colour, changes nothing in the output.
pub proof fn off_grid_point_is_ignored(
    points: Seq<Triple>,
    colors: Seq<Triple>,
    i: int,
    precision: nat,
    filtering: nat,
    tpu: u64,
)
    requires
        points.len() == colors.len(),
        0 <= i < points.len(),
        precision <= MAX_PRECISION,
        !in_bounds(points[i], grid_side(precision) * tpu),
    ensures
        projected(points, colors, precision, filtering, tpu) == projected(
            points.remove(i),
            colors.remove(i),
            precision,
            filtering,
            tpu,
        ),
{
    crate::projection::lemma_grid_side_bound(precision);
    lemma_remove_off_grid(points, colors, i, grid_side(precision) as usize, tpu);
}

/// With a window half-width of zero the output is the rasterizer's output.
pub proof fn no_filter_is_pass_through(points: Seq<Triple>, colors: Seq<Triple>, precision: nat, tpu: u64)
    ensures
        ({
            let r = rasterized(points, colors, grid_side(precision) as usize, tpu);
            projected(points, colors, precision, 0, tpu) == Frame { image: r.image, occupancy: r.occupancy }
        }),
{
}

/// The output's shape is kept, its unoccupied pixels are background, and
/// all of this holds after the filter.
pub(crate) proof fn lemma_projected(points: Seq<Triple>, colors: Seq<Triple>, precision: nat, filtering: nat, tpu: u64)
    requires
        precision <= MAX_PRECISION,
        tpu > 0,
    ensures
        border_unchanged(
            unfiltered(points, colors, precision, tpu),
            projected(points, colors, precision, filtering, tpu),
            grid_side(precision) as int,
            filtering as int,
        ),
        occupancy_lowered(
            unfiltered(points, colors, precision, tpu),
            projected(points, colors, precision, filtering, tpu),
            grid_side(precision) as int,
        ),
        frame_wf(projected(points, colors, precision, filtering, tpu), grid_side(precision) as int),
        background_kept(
            projected(points, colors, precision, filtering, tpu).image,
            projected(points, colors, precision, filtering, tpu).occupancy,
            grid_side(precision) as int,
        ),
{
    crate::projection::lemma_grid_side_bound(precision);
    let side = grid_side(precision);
    let r = rasterized(points, colors, side as usize, tpu);
    lemma_rasterized(points, colors, side as usize, tpu);
    let f = Frame { image: r.image, occupancy: r.occupancy };
    lemma_filtered(f, r.near, r.far, side as int, filtering as int, (OUTLIER_MARGIN * tpu) as int);
}

/// Every occupancy flag of the output is 0 or 1.
pub proof fn occupancy_is_binary(points: Seq<Triple>, colors: Seq<Triple>, precision: nat, filtering: nat, tpu: u64)
    requires
        precision <= MAX_PRECISION,
        tpu > 0,
    ensures
        forall|v: usize, r: usize, c: usize|
            v < 6 && r < grid_side(precision) && c < grid_side(precision) ==> {
                let o = #[trigger] projected(points, colors, precision, filtering, tpu).occupancy[(v, r, c)];
                o == 0 || o == 1
            },
{
    lemma_projected(points, colors, precision, filtering, tpu);
    let f = projected(points, colors, precision, filtering, tpu);
    assert forall|v: usize, r: usize, c: usize| v < 6 && r < grid_side(precision) && c < grid_side(precision) implies {
        let o = #[trigger] f.occupancy[(v, r, c)];
        o == 0 || o == 1
    } by {
        assert(f.occupancy.dom().contains((v, r, c)));
    }
}

/// Every unoccupied pixel of the output holds the background colour in
/// every channel.
pub proof fn unoccupied_pixels_are_background(points: Seq<Triple>, colors: Seq<Triple>, precision: nat, filtering: nat, tpu: u64)
    requires
        precision <= MAX_PRECISION,
        tpu > 0,
    ensures
        background_kept(
            projected(points, colors, precision, filtering, tpu).image,
            projected(points, colors, precision, filtering, tpu).occupancy,
            grid_side(precision) as int,
        ),
{
    lemma_projected(points, colors, precision, filtering, tpu);
}

} // verus!
