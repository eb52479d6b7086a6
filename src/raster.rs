//! Quantization and depth-buffered rasterization into the six views.
//!
//! Coordinates and colour channels are fixed-point values: a value `t` stands
//! for `t / ticks_per_unit` units, so truncating it to a grid index or a
//! channel value is `t / ticks_per_unit`, and depth comparisons are exact.
use crate::grid::{cells3, cells4, filled3, filled4, get3, new3, new4, set3, set4, Cells3, Cells4, Grid3, Grid4};
use vstd::prelude::*;

verus! {

/// Three fixed-point values: a point's coordinates or a colour's channels.
pub type Triple = [u64; 3];

/// The value written into every channel of a pixel that holds no point.
pub const BACKGROUND: u64 = 255;

/// The number of views: a low-side and a high-side view per axis.
pub const VIEWS: usize = 6;

/// Colour channels per pixel.
pub const CHANNELS: usize = 3;

/// The model of the rasterizer's buffers.
pub struct Raster {
    /// Image pixels, indexed by (view, row, column, channel).
    pub image: Cells4,
    /// Occupancy flags, indexed by (view, row, column).
    pub occupancy: Cells3,
    /// Smallest depth seen so far, indexed by (axis, row, column).
    pub near: Cells3,
    /// Largest depth seen so far, indexed by (axis, row, column).
    pub far: Cells3,
}

/// The two in-plane axes of the projection along axis `j`, in index order.
pub open spec fn plane(j: int) -> (int, int) {
    if j == 0 {
        (1, 2)
    } else if j == 1 {
        (0, 2)
    } else {
        (0, 1)
    }
}

/// A point lies on the grid when every coordinate is below `limit` ticks.
pub open spec fn in_bounds(p: Triple, limit: int) -> bool {
    p[0] < limit && p[1] < limit && p[2] < limit
}

/// Writes colour `c`, truncated to whole units, into the pixel `(v, k1, k2)`.
pub open spec fn paint(img: Cells4, v: usize, k1: usize, k2: usize, c: Triple, tpu: u64) -> Cells4 {
    img.insert((v, k1, k2, 0), c[0] / tpu).insert((v, k1, k2, 1), c[1] / tpu).insert(
        (v, k1, k2, 2),
        c[2] / tpu,
    )
}

/// The low-side view of axis `j` takes a point at depth `d` whose depth is at
/// most the nearest seen so far at its cell.
pub open spec fn near_update(s: Raster, j: usize, k1: usize, k2: usize, d: u64, c: Triple, tpu: u64) -> Raster {
    if d <= s.near[(j, k1, k2)] {
        Raster {
            image: paint(s.image, (2 * j) as usize, k1, k2, c, tpu),
            occupancy: s.occupancy.insert(((2 * j) as usize, k1, k2), 1),
            near: s.near.insert((j, k1, k2), d),
            far: s.far,
        }
    } else {
        s
    }
}

/// The high-side view of axis `j` takes a point at depth `d` whose depth is at
/// least the farthest seen so far at its cell.
pub open spec fn far_update(s: Raster, j: usize, k1: usize, k2: usize, d: u64, c: Triple, tpu: u64) -> Raster {
    if d >= s.far[(j, k1, k2)] {
        Raster {
            image: paint(s.image, (2 * j + 1) as usize, k1, k2, c, tpu),
            occupancy: s.occupancy.insert(((2 * j + 1) as usize, k1, k2), 1),
            near: s.near,
            far: s.far.insert((j, k1, k2), d),
        }
    } else {
        s
    }
}

/// The effect of an on-grid point `p` of colour `c` on the two views of axis `j`.
pub open spec fn axis_update(s: Raster, p: Triple, c: Triple, tpu: u64, j: usize) -> Raster {
    let k1 = (p[plane(j as int).0] / tpu) as usize;
    let k2 = (p[plane(j as int).1] / tpu) as usize;
    far_update(near_update(s, j, k1, k2, p[j as int], c, tpu), j, k1, k2, p[j as int], c, tpu)
}

/// The effect of one point on all six views: none when it is off the grid.
pub open spec fn point_update(s: Raster, p: Triple, c: Triple, side: usize, tpu: u64) -> Raster {
    if in_bounds(p, side * tpu) {
        axis_update(axis_update(axis_update(s, p, c, tpu, 0), p, c, tpu, 1), p, c, tpu, 2)
    } else {
        s
    }
}

/// The buffers before any point: background images, no occupancy, near
/// depths at the grid's extent and far depths at zero.
pub open spec fn blank(side: usize, tpu: u64) -> Raster {
    Raster {
        image: filled4(6, side, side, 3, 255),
        occupancy: filled3(6, side, side, 0),
        near: filled3(3, side, side, (side * tpu) as u64),
        far: filled3(3, side, side, 0),
    }
}

/// The buffers after the points, each with the colour of the same index,
/// were rasterized in order.
pub open spec fn rasterized(points: Seq<Triple>, colors: Seq<Triple>, side: usize, tpu: u64) -> Raster
    decreases points.len(),
{
    if points.len() == 0 {
        blank(side, tpu)
    } else {
        let n = points.len() - 1;
        point_update(rasterized(points.take(n), colors, side, tpu), points[n], colors[n], side, tpu)
    }
}

/// Every index of the box `(d0, d1, d2)` is in the map, and every value in
/// the map is at most `bound`.
pub open spec fn covers3(m: Cells3, d0: int, d1: int, d2: int, bound: int) -> bool {
    &&& forall|a: usize, b: usize, c: usize|
        a < d0 && b < d1 && c < d2 ==> #[trigger] m.dom().contains((a, b, c))
    &&& forall|k: (usize, usize, usize)| #[trigger] m.dom().contains(k) ==> m[k] <= bound
}

/// A looser bound on the values still holds.
pub proof fn lemma_covers3_weaken(m: Cells3, d0: int, d1: int, d2: int, bound: int, looser: int)
    requires
        covers3(m, d0, d1, d2, bound),
        bound <= looser,
    ensures
        covers3(m, d0, d1, d2, looser),
{
}

/// Every index of the box `(d0, d1, d2, d3)` is in the map.
pub open spec fn covers4(m: Cells4, d0: int, d1: int, d2: int, d3: int) -> bool {
    forall|a: usize, b: usize, c: usize, e: usize|
        a < d0 && b < d1 && c < d2 && e < d3 ==> #[trigger] m.dom().contains((a, b, c, e))
}

/// The buffers have their full shapes, occupancy flags are 0 or 1, and depths
/// lie within the grid's extent.
pub open spec fn raster_wf(s: Raster, side: usize, tpu: u64) -> bool {
    &&& covers4(s.image, 6, side as int, side as int, 3)
    &&& covers3(s.occupancy, 6, side as int, side as int, 1)
    &&& covers3(s.near, 3, side as int, side as int, side * tpu)
    &&& covers3(s.far, 3, side as int, side as int, side * tpu)
}

/// The executable buffers of the rasterizer.
pub struct Buffers {
    pub image: Grid4,
    pub occupancy: Grid3,
    pub near: Grid3,
    pub far: Grid3,
}

impl Buffers {
    /// The buffers' contents.
    pub open spec fn model(&self) -> Raster {
        Raster {
            image: cells4(self.image),
            occupancy: cells3(self.occupancy),
            near: cells3(self.near),
            far: cells3(self.far),
        }
    }
}

/// Truncates each fixed-point value of each row to whole units.
pub fn quantize_rows(rows: &Vec<Triple>, tpu: u64) -> (r: Vec<Triple>)
    requires
        tpu > 0,
    ensures
        r@.len() == rows@.len(),
        forall|i: int, c: int|
            0 <= i < rows@.len() && 0 <= c < 3 ==> #[trigger] r@[i][c] == rows@[i][c] / tpu,
{
    let mut r: Vec<Triple> = Vec::new();
    let mut i: usize = 0;
    while i < rows.len()
        invariant
            tpu > 0,
            i <= rows@.len(),
            r@.len() == i,
            forall|n: int, c: int| 0 <= n < i && 0 <= c < 3 ==> #[trigger] r@[n][c] == rows@[n][c] / tpu,
        decreases rows@.len() - i,
    {
        let row = rows[i];
        r.push([row[0] / tpu, row[1] / tpu, row[2] / tpu]);
        i = i + 1;
    }
    r
}

/// `t / tpu` is below `side` for any `t` below `side * tpu`.
pub(crate) proof fn lemma_cell_in_range(t: int, side: int, tpu: int)
    requires
        0 <= t < side * tpu,
        tpu > 0,
    ensures
        t / tpu < side,
{
    assert(t / tpu < side) by (nonlinear_arith)
        requires
            0 <= t < side * tpu,
            tpu > 0,
    ;
}

/// Writes quantized colour `qc` into pixel `(v, k1, k2)` and marks it occupied.
fn write_pixel(b: &mut Buffers, v: usize, k1: usize, k2: usize, qc: &Triple, Ghost(c): Ghost<Triple>, Ghost(tpu): Ghost<u64>, Ghost(side): Ghost<usize>)
    requires
        raster_wf(old(b).model(), side, tpu),
        v < 6,
        k1 < side,
        k2 < side,
        tpu > 0,
        forall|x: int| 0 <= x < 3 ==> #[trigger] qc[x] == c[x] / tpu,
    ensures
        final(b).model() == (Raster {
            image: paint(old(b).model().image, v, k1, k2, c, tpu),
            occupancy: old(b).model().occupancy.insert((v, k1, k2), 1),
            ..old(b).model()
        }),
        raster_wf(final(b).model(), side, tpu),
{
    set4(&mut b.image, v, k1, k2, 0, qc[0]);
    set4(&mut b.image, v, k1, k2, 1, qc[1]);
    set4(&mut b.image, v, k1, k2, 2, qc[2]);
    set3(&mut b.occupancy, v, k1, k2, 1);
}

/// Offers a point at depth `d` and cell `(k1, k2)` to both views of axis `j`.
fn update_axis(b: &mut Buffers, j: usize, k1: usize, k2: usize, d: u64, qc: &Triple, Ghost(c): Ghost<Triple>, Ghost(tpu): Ghost<u64>, Ghost(side): Ghost<usize>)
    requires
        raster_wf(old(b).model(), side, tpu),
        j < 3,
        k1 < side,
        k2 < side,
        d < side * tpu,
        tpu > 0,
        forall|x: int| 0 <= x < 3 ==> #[trigger] qc[x] == c[x] / tpu,
    ensures
        final(b).model() == far_update(
            near_update(old(b).model(), j, k1, k2, d, c, tpu),
            j,
            k1,
            k2,
            d,
            c,
            tpu,
        ),
        raster_wf(final(b).model(), side, tpu),
{
    if d <= get3(&b.near, j, k1, k2) {
        write_pixel(b, 2 * j, k1, k2, qc, Ghost(c), Ghost(tpu), Ghost(side));
        set3(&mut b.near, j, k1, k2, d);
    }
    if d >= get3(&b.far, j, k1, k2) {
        write_pixel(b, 2 * j + 1, k1, k2, qc, Ghost(c), Ghost(tpu), Ghost(side));
        set3(&mut b.far, j, k1, k2, d);
    }
}

/// Rasterizes the points, each with the colour of the same index, into fresh
/// buffers of side `side`.
pub fn rasterize(points: &Vec<Triple>, colors: &Vec<Triple>, side: usize, tpu: u64) -> (r: Buffers)
    requires
        points@.len() == colors@.len(),
        1 <= side <= 2048,
        1 <= tpu <= 1048576,
    ensures
        r.model() == rasterized(points@, colors@, side, tpu),
        raster_wf(r.model(), side, tpu),
{
    proof {
        assert(side * tpu <= 2048 * 1048576 && 6 * side * side * 3 * 8 <= 6 * 2048 * 2048 * 3 * 8
            && 6 * side * side * 8 <= 6 * 2048 * 2048 * 8 && 3 * side * side * 8 <= 3 * 2048 * 2048
            * 8)
            by (nonlinear_arith)
            requires
                1 <= side <= 2048,
                1 <= tpu <= 1048576,
        ;
    }
    let limit: u64 = side as u64 * tpu;
    let mut b = Buffers {
        image: new4(VIEWS, side, side, CHANNELS, BACKGROUND),
        occupancy: new3(VIEWS, side, side, 0),
        near: new3(3, side, side, limit),
        far: new3(3, side, side, 0),
    };
    let points_q = quantize_rows(points, tpu);
    let colors_q = quantize_rows(colors, tpu);
    assert(points@.take(0) =~= Seq::<Triple>::empty());
    let mut i: usize = 0;
    while i < points.len()
        invariant
            points@.len() == colors@.len(),
            points_q@.len() == points@.len(),
            colors_q@.len() == colors@.len(),
            forall|n: int, c: int|
                0 <= n < points@.len() && 0 <= c < 3 ==> #[trigger] points_q@[n][c] == points@[n][c] / tpu,
            forall|n: int, c: int|
                0 <= n < colors@.len() && 0 <= c < 3 ==> #[trigger] colors_q@[n][c] == colors@[n][c] / tpu,
            1 <= side <= 2048,
            1 <= tpu <= 1048576,
            limit == side * tpu,
            i <= points@.len(),
            b.model() == rasterized(points@.take(i as int), colors@, side, tpu),
            raster_wf(b.model(), side, tpu),
        decreases points@.len() - i,
    {
        let p = points[i];
        assert(points@.take(i + 1).take(i as int) =~= points@.take(i as int));
        assert(points@.take(i + 1)[i as int] == p);
        if p[0] < limit && p[1] < limit && p[2] < limit {
            let qp = points_q[i];
            let qc = colors_q[i];
            let ghost c = colors@[i as int];
            assert(forall|x: int| 0 <= x < 3 ==> #[trigger] qc[x] == c[x] / tpu);
            proof {
                lemma_cell_in_range(p[0] as int, side as int, tpu as int);
                lemma_cell_in_range(p[1] as int, side as int, tpu as int);
                lemma_cell_in_range(p[2] as int, side as int, tpu as int);
            }
            assert(qp[0] == p[0] / tpu && qp[1] == p[1] / tpu && qp[2] == p[2] / tpu);
            update_axis(&mut b, 0, qp[1] as usize, qp[2] as usize, p[0], &qc, Ghost(c), Ghost(tpu), Ghost(side));
            update_axis(&mut b, 1, qp[0] as usize, qp[2] as usize, p[1], &qc, Ghost(c), Ghost(tpu), Ghost(side));
            update_axis(&mut b, 2, qp[0] as usize, qp[1] as usize, p[2], &qc, Ghost(c), Ghost(tpu), Ghost(side));
        }
        i = i + 1;
    }
    assert(points@.take(points@.len() as int) =~= points@);
    b
}

} // verus!
