//! The local outlier filter: removes pixels whose depth strays from the
//! occupancy-weighted average depth of the square window around them.
use crate::grid::{cells3, cells4, get3, set3, set4, Cells3, Cells4, Grid3, Grid4};
use crate::raster::{covers3, covers4, BACKGROUND, VIEWS};
use vstd::prelude::*;

verus! {

/// The part of the buffers that the filter rewrites.
pub struct Frame {
    /// Image pixels, indexed by (view, row, column, channel).
    pub image: Cells4,
    /// Occupancy flags, indexed by (view, row, column).
    pub occupancy: Cells3,
}

/// The depth buffer that view `k` is judged against: the near one for a
/// low-side view, the far one for a high-side view.
pub open spec fn depth_for(near: Cells3, far: Cells3, k: usize) -> Cells3 {
    if k % 2 == 0 {
        near
    } else {
        far
    }
}

/// Sum of occupancy times depth over the row segment `(a, lo .. lo + n)`.
pub open spec fn row_weighted(depth: Cells3, occ: Cells3, axis: usize, k: usize, a: int, lo: int, n: nat) -> int
    decreases n,
{
    if n == 0 {
        0
    } else {
        let b = lo + n - 1;
        row_weighted(depth, occ, axis, k, a, lo, (n - 1) as nat) + occ[(k, a as usize, b as usize)]
            * depth[(axis, a as usize, b as usize)]
    }
}

/// Sum of occupancy over the row segment `(a, lo .. lo + n)`.
pub open spec fn row_count(occ: Cells3, k: usize, a: int, lo: int, n: nat) -> int
    decreases n,
{
    if n == 0 {
        0
    } else {
        row_count(occ, k, a, lo, (n - 1) as nat) + occ[(k, a as usize, (lo + n - 1) as usize)]
    }
}

/// Sum of occupancy times depth over rows `alo .. alo + m`, columns `blo .. blo + n`.
pub open spec fn window_weighted(depth: Cells3, occ: Cells3, axis: usize, k: usize, alo: int, m: nat, blo: int, n: nat) -> int
    decreases m,
{
    if m == 0 {
        0
    } else {
        window_weighted(depth, occ, axis, k, alo, (m - 1) as nat, blo, n) + row_weighted(
            depth,
            occ,
            axis,
            k,
            alo + m - 1,
            blo,
            n,
        )
    }
}

/// Sum of occupancy over rows `alo .. alo + m`, columns `blo .. blo + n`.
pub open spec fn window_count(occ: Cells3, k: usize, alo: int, m: nat, blo: int, n: nat) -> int
    decreases m,
{
    if m == 0 {
        0
    } else {
        window_count(occ, k, alo, (m - 1) as nat, blo, n) + row_count(occ, k, alo + m - 1, blo, n)
    }
}

/// An occupied pixel `(k, i, j)` is an outlier when its depth, scaled by the
/// window's occupied count, exceeds the window's weighted depth sum by more
/// than `margin` per occupied cell (low-side views), or falls short of it by
/// more than that (high-side views). With `cnt > 0` this is exactly
/// `d > sum / cnt + margin`, resp. `d < sum / cnt - margin`.
pub open spec fn removes(f: Frame, near: Cells3, far: Cells3, k: usize, i: int, j: int, w: int, margin: int) -> bool {
    let depth = depth_for(near, far, k);
    let axis = (k / 2) as usize;
    let sum = window_weighted(depth, f.occupancy, axis, k, i - w, (2 * w + 1) as nat, j - w, (2 * w + 1) as nat);
    let cnt = window_count(f.occupancy, k, i - w, (2 * w + 1) as nat, j - w, (2 * w + 1) as nat);
    let d = depth[(axis, i as usize, j as usize)];
    &&& f.occupancy[(k, i as usize, j as usize)] == 1
    &&& cnt > 0
    &&& if k % 2 == 0 {
        d * cnt > sum + margin * cnt
    } else {
        d * cnt + margin * cnt < sum
    }
}

/// Resets pixel `(k, i, j)` to the background colour.
pub open spec fn clear_pixel(img: Cells4, k: usize, i: usize, j: usize) -> Cells4 {
    img.insert((k, i, j, 0), 255).insert((k, i, j, 1), 255).insert((k, i, j, 2), 255)
}

/// Judges view `k` at cell `(i, j)`, removing the pixel if it is an outlier.
pub open spec fn filter_view(f: Frame, near: Cells3, far: Cells3, k: usize, i: int, j: int, w: int, margin: int) -> Frame {
    if removes(f, near, far, k, i, j, w, margin) {
        Frame {
            image: clear_pixel(f.image, k, i as usize, j as usize),
            occupancy: f.occupancy.insert((k, i as usize, j as usize), 0),
        }
    } else {
        f
    }
}

/// Judges views `0 .. n` at cell `(i, j)`, in order.
pub open spec fn filter_views(f: Frame, near: Cells3, far: Cells3, i: int, j: int, n: nat, w: int, margin: int) -> Frame
    decreases n,
{
    if n == 0 {
        f
    } else {
        filter_view(filter_views(f, near, far, i, j, (n - 1) as nat, w, margin), near, far, (n - 1) as usize, i, j, w, margin)
    }
}

/// Judges every view at cells `(i, lo) .. (i, lo + n)`, in order.
pub open spec fn filter_cols(f: Frame, near: Cells3, far: Cells3, i: int, lo: int, n: nat, w: int, margin: int) -> Frame
    decreases n,
{
    if n == 0 {
        f
    } else {
        filter_views(filter_cols(f, near, far, i, lo, (n - 1) as nat, w, margin), near, far, i, lo + n - 1, 6, w, margin)
    }
}

/// Judges rows `lo .. lo + m`, each over columns `lo .. lo + n`, in row-major order.
pub open spec fn filter_rows(f: Frame, near: Cells3, far: Cells3, lo: int, m: nat, n: nat, w: int, margin: int) -> Frame
    decreases m,
{
    if m == 0 {
        f
    } else {
        filter_cols(filter_rows(f, near, far, lo, (m - 1) as nat, n, w, margin), near, far, lo + m - 1, lo, n, w, margin)
    }
}

/// The frame after the filter with window half-width `w`: each interior cell
/// (at least `w` from every edge) is judged in row-major order, each view in
/// index order; nothing is judged when `w` is zero.
pub open spec fn filtered(f: Frame, near: Cells3, far: Cells3, side: int, w: int, margin: int) -> Frame {
    if w == 0 || side <= 2 * w {
        f
    } else {
        filter_rows(f, near, far, w, (side - 2 * w) as nat, (side - 2 * w) as nat, w, margin)
    }
}

/// The frame has its full shape and its occupancy flags are 0 or 1.
pub open spec fn frame_wf(f: Frame, side: int) -> bool {
    covers4(f.image, 6, side, side, 3) && covers3(f.occupancy, 6, side, side, 1)
}

/// Each term of a row sum lies between zero and the depth bound.
proof fn lemma_row_bounds(depth: Cells3, occ: Cells3, axis: usize, k: usize, a: int, lo: int, n: nat, side: int, bound: int)
    requires
        covers3(depth, 3, side, side, bound),
        covers3(occ, 6, side, side, 1),
        axis < 3,
        k < 6,
        0 <= a < side,
        0 <= lo,
        lo + n <= side,
    ensures
        0 <= row_weighted(depth, occ, axis, k, a, lo, n) <= n * bound,
        0 <= row_count(occ, k, a, lo, n) <= n,
    decreases n,
{
    if n > 0 {
        lemma_row_bounds(depth, occ, axis, k, a, lo, (n - 1) as nat, side, bound);
        let b = lo + n - 1;
        assert(occ.dom().contains((k, a as usize, b as usize)));
        assert(depth.dom().contains((axis, a as usize, b as usize)));
        let o = occ[(k, a as usize, b as usize)] as int;
        let d = depth[(axis, a as usize, b as usize)] as int;
        assert(0 <= o * d <= bound) by (nonlinear_arith)
            requires
                0 <= o <= 1,
                0 <= d <= bound,
        ;
        assert((n - 1) * bound + bound == n * bound) by (nonlinear_arith);
    }
}

/// Window sums are bounded by the window's area, times the depth bound.
proof fn lemma_window_bounds(depth: Cells3, occ: Cells3, axis: usize, k: usize, alo: int, m: nat, blo: int, n: nat, side: int, bound: int)
    requires
        covers3(depth, 3, side, side, bound),
        covers3(occ, 6, side, side, 1),
        axis < 3,
        k < 6,
        0 <= alo,
        alo + m <= side,
        0 <= blo,
        blo + n <= side,
        bound >= 0,
    ensures
        0 <= window_weighted(depth, occ, axis, k, alo, m, blo, n) <= m * n * bound,
        0 <= window_count(occ, k, alo, m, blo, n) <= m * n,
    decreases m,
{
    if m > 0 {
        lemma_window_bounds(depth, occ, axis, k, alo, (m - 1) as nat, blo, n, side, bound);
        lemma_row_bounds(depth, occ, axis, k, alo + m - 1, blo, n, side, bound);
        assert((m - 1) * n * bound + n * bound == m * n * bound) by (nonlinear_arith);
        assert((m - 1) * n + n == m * n) by (nonlinear_arith);
    }
}

/// The weighted depth sum and the occupied count of the window of
/// half-width `w` around `(i, j)` in view `k`, against depth axis `axis`.
fn window_sums(depth: &Grid3, occupancy: &Grid3, axis: usize, k: usize, i: usize, j: usize, w: usize, Ghost(side): Ghost<int>, Ghost(bound): Ghost<int>) -> (r: (u64, u64))
    requires
        covers3(cells3(*depth), 3, side, side, bound),
        covers3(cells3(*occupancy), 6, side, side, 1),
        axis < 3,
        k < 6,
        w <= i,
        i + w < side,
        w <= j,
        j + w < side,
        side <= 4096,
        0 <= bound <= 0x1_0000_0000,
    ensures
        r.0 == window_weighted(cells3(*depth), cells3(*occupancy), axis, k, i - w, (2 * w + 1) as nat, j - w, (2 * w + 1) as nat),
        r.1 == window_count(cells3(*occupancy), k, i - w, (2 * w + 1) as nat, j - w, (2 * w + 1) as nat),
        r.0 <= 4096 * 4096 * 0x1_0000_0000,
        r.1 <= 4096 * 4096,
{
    let ghost dm = cells3(*depth);
    let ghost om = cells3(*occupancy);
    let ghost n = (2 * w + 1) as nat;
    let alo = i - w;
    let blo = j - w;
    let span = 2 * w + 1;
    let mut sum: u64 = 0;
    let mut cnt: u64 = 0;
    let mut a: usize = 0;
    proof {
        assert(n * n <= 4096 * 4096 && n * n * bound <= 4096 * 4096 * 0x1_0000_0000) by (nonlinear_arith)
            requires
                n <= 4096,
                0 <= bound <= 0x1_0000_0000,
        ;
    }
    while a < span
        invariant
            covers3(dm, 3, side, side, bound),
            covers3(om, 6, side, side, 1),
            dm == cells3(*depth),
            om == cells3(*occupancy),
            axis < 3,
            k < 6,
            span == n,
            alo + n <= side,
            blo + n <= side,
            side <= 4096,
            n * n <= 4096 * 4096,
            n * n * bound <= 4096 * 4096 * 0x1_0000_0000,
            0 <= bound <= 0x1_0000_0000,
            a <= span,
            sum == window_weighted(dm, om, axis, k, alo as int, a as nat, blo as int, n),
            cnt == window_count(om, k, alo as int, a as nat, blo as int, n),
        decreases span - a,
    {
        let mut rs: u64 = 0;
        let mut rc: u64 = 0;
        let mut b: usize = 0;
        while b < span
            invariant
                covers3(dm, 3, side, side, bound),
                covers3(om, 6, side, side, 1),
                dm == cells3(*depth),
                om == cells3(*occupancy),
                axis < 3,
                k < 6,
                span == n,
                alo + n <= side,
                blo + n <= side,
                side <= 4096,
                a < span,
                0 <= bound <= 0x1_0000_0000,
                b <= span,
                rs == row_weighted(dm, om, axis, k, alo + a, blo as int, b as nat),
                rc == row_count(om, k, alo + a, blo as int, b as nat),
            decreases span - b,
        {
            proof {
                lemma_row_bounds(dm, om, axis, k, alo + a, blo as int, b as nat, side, bound);
                assert(b * bound <= 4096 * 0x1_0000_0000) by (nonlinear_arith)
                    requires
                        b <= 4096,
                        0 <= bound <= 0x1_0000_0000,
                ;
            }
            let o = get3(occupancy, k, alo + a, blo + b);
            let d = get3(depth, axis, alo + a, blo + b);
            proof {
                assert(om.dom().contains((k, (alo + a) as usize, (blo + b) as usize)));
                assert(dm.dom().contains((axis, (alo + a) as usize, (blo + b) as usize)));
                assert(0 <= o * d <= bound) by (nonlinear_arith)
                    requires
                        0 <= o <= 1,
                        0 <= d <= bound,
                ;
            }
            rs = rs + o * d;
            rc = rc + o;
            b = b + 1;
        }
        proof {
            lemma_window_bounds(dm, om, axis, k, alo as int, a as nat, blo as int, n, side, bound);
            lemma_row_bounds(dm, om, axis, k, alo + a, blo as int, n, side, bound);
            assert(a * n * bound + n * bound <= n * n * bound && a * n + n <= n * n) by (nonlinear_arith)
                requires
                    a < n,
                    0 <= bound,
            ;
        }
        sum = sum + rs;
        cnt = cnt + rc;
        a = a + 1;
    }
    proof {
        lemma_window_bounds(dm, om, axis, k, alo as int, n, blo as int, n, side, bound);
    }
    (sum, cnt)
}

/// The frame held by an image stack and an occupancy mask.
pub open spec fn frame_of(image: Grid4, occupancy: Grid3) -> Frame {
    Frame { image: cells4(image), occupancy: cells3(occupancy) }
}

/// Judges view `k` at the interior cell `(i, j)`, removing the pixel if it is
/// an outlier.
fn judge_view(
    image: &mut Grid4,
    occupancy: &mut Grid3,
    near: &Grid3,
    far: &Grid3,
    k: usize,
    i: usize,
    j: usize,
    w: usize,
    margin: u64,
    Ghost(side): Ghost<int>,
    Ghost(bound): Ghost<int>,
)
    requires
        frame_wf(frame_of(*old(image), *old(occupancy)), side),
        covers3(cells3(*near), 3, side, side, bound),
        covers3(cells3(*far), 3, side, side, bound),
        k < 6,
        w <= i,
        i + w < side,
        w <= j,
        j + w < side,
        side <= 4096,
        0 <= bound <= 0x1_0000_0000,
        margin <= 0x200_0000,
    ensures
        frame_of(*final(image), *final(occupancy)) == filter_view(
            frame_of(*old(image), *old(occupancy)),
            cells3(*near),
            cells3(*far),
            k,
            i as int,
            j as int,
            w as int,
            margin as int,
        ),
        frame_wf(frame_of(*final(image), *final(occupancy)), side),
{
    let axis = k / 2;
    let depth = if k % 2 == 0 {
        near
    } else {
        far
    };
    let (sum, cnt) = window_sums(depth, occupancy, axis, k, i, j, w, Ghost(side), Ghost(bound));
    let d = get3(depth, axis, i, j);
    let o = get3(occupancy, k, i, j);
    proof {
        assert(cells3(*depth).dom().contains((axis, i, j)));
        assert(d * cnt <= 0x1_0000_0000 * 4096 * 4096 && margin * cnt <= 0x200_0000 * 4096 * 4096)
            by (nonlinear_arith)
            requires
                d <= bound <= 0x1_0000_0000,
                cnt <= 4096 * 4096,
                margin <= 0x200_0000,
        ;
    }
    let strays = if k % 2 == 0 {
        d * cnt > sum + margin * cnt
    } else {
        d * cnt + margin * cnt < sum
    };
    if o == 1 && cnt > 0 && strays {
        set4(image, k, i, j, 0, BACKGROUND);
        set4(image, k, i, j, 1, BACKGROUND);
        set4(image, k, i, j, 2, BACKGROUND);
        set3(occupancy, k, i, j, 0);
    }
}

/// Runs the filter with window half-width `w` and outlier margin `margin`
/// (in depth units) over the frame, against the given depth buffers.
pub fn filter_outliers(
    image: &mut Grid4,
    occupancy: &mut Grid3,
    near: &Grid3,
    far: &Grid3,
    side: usize,
    w: u64,
    margin: u64,
)
    requires
        frame_wf(frame_of(*old(image), *old(occupancy)), side as int),
        covers3(cells3(*near), 3, side as int, side as int, 0x1_0000_0000),
        covers3(cells3(*far), 3, side as int, side as int, 0x1_0000_0000),
        side <= 4096,
        margin <= 0x200_0000,
    ensures
        frame_of(*final(image), *final(occupancy)) == filtered(
            frame_of(*old(image), *old(occupancy)),
            cells3(*near),
            cells3(*far),
            side as int,
            w as int,
            margin as int,
        ),
        frame_wf(frame_of(*final(image), *final(occupancy)), side as int),
{
    if w == 0 || w >= side as u64 || side as u64 - w <= w {
        return;
    }
    let w = w as usize;
    let ghost f0 = frame_of(*image, *occupancy);
    let ghost nm = cells3(*near);
    let ghost fm = cells3(*far);
    let ghost n = (side - 2 * w) as nat;
    let ghost bound: int = 0x1_0000_0000;
    let mut i: usize = w;
    while i < side - w
        invariant
            frame_wf(frame_of(*image, *occupancy), side as int),
            covers3(nm, 3, side as int, side as int, bound),
            covers3(fm, 3, side as int, side as int, bound),
            nm == cells3(*near),
            fm == cells3(*far),
            0 < w,
            2 * w < side,
            n == side - 2 * w,
            side <= 4096,
            0 <= bound <= 0x1_0000_0000,
            margin <= 0x200_0000,
            w <= i <= side - w,
            frame_of(*image, *occupancy) == filter_rows(f0, nm, fm, w as int, (i - w) as nat, n, w as int, margin as int),
        decreases side - w - i,
    {
        let ghost r0 = frame_of(*image, *occupancy);
        let mut j: usize = w;
        while j < side - w
            invariant
                frame_wf(frame_of(*image, *occupancy), side as int),
                covers3(nm, 3, side as int, side as int, bound),
                covers3(fm, 3, side as int, side as int, bound),
                nm == cells3(*near),
                fm == cells3(*far),
                0 < w,
                2 * w < side,
                side <= 4096,
                0 <= bound <= 0x1_0000_0000,
                margin <= 0x200_0000,
                w <= i < side - w,
                w <= j <= side - w,
                frame_of(*image, *occupancy) == filter_cols(r0, nm, fm, i as int, w as int, (j - w) as nat, w as int, margin as int),
            decreases side - w - j,
        {
            let ghost c0 = frame_of(*image, *occupancy);
            let mut k: usize = 0;
            while k < VIEWS
                invariant
                    frame_wf(frame_of(*image, *occupancy), side as int),
                    covers3(nm, 3, side as int, side as int, bound),
                    covers3(fm, 3, side as int, side as int, bound),
                    nm == cells3(*near),
                    fm == cells3(*far),
                    side <= 4096,
                    0 <= bound <= 0x1_0000_0000,
                    margin <= 0x200_0000,
                    w <= i < side - w,
                    w <= j < side - w,
                    k <= 6,
                    frame_of(*image, *occupancy) == filter_views(c0, nm, fm, i as int, j as int, k as nat, w as int, margin as int),
                decreases 6 - k,
            {
                judge_view(image, occupancy, near, far, k, i, j, w, margin, Ghost(side as int), Ghost(bound));
                k = k + 1;
            }
            j = j + 1;
        }
        i = i + 1;
    }
}

} // verus!
