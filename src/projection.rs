//! The whole pipeline: validation, rasterization and filtering.
use crate::filter::{filter_outliers, filtered, frame_of, frame_wf, Frame};
use crate::grid::{cells3, cells4, Grid3, Grid4};
use crate::laws::{background_kept, border_unchanged, lemma_projected, occupancy_lowered};
use crate::raster::{covers3, lemma_covers3_weaken, rasterize, rasterized, Triple};
use vstd::prelude::*;

verus! {

/// The largest accepted `precision`: grids of side up to 2048.
pub const MAX_PRECISION: u64 = 11;

/// The largest accepted number of fixed-point ticks per unit.
pub const MAX_TICKS_PER_UNIT: u64 = 1048576;

/// The filter's margin, in whole depth units.
pub const OUTLIER_MARGIN: u64 = 20;

/// Why a projection was refused.
#[derive(Debug, Clone, Copy, PartialEq, Eq, Structural)]
pub enum ProjectionError {
    /// No points, point and colour counts that differ, or a tick scale out of range.
    InvalidInput,
    /// A grid too large to allocate.
    ResourceLimitExceeded,
}

/// The six views after filtering.
pub struct Projection {
    /// Colour images, shape (6, side, side, 3).
    pub image: Grid4,
    /// Occupancy masks of 0 and 1, shape (6, side, side).
    pub occupancy: Grid3,
}

/// The side of the grid: `2^precision`.
pub open spec fn grid_side(precision: nat) -> nat
    decreases precision,
{
    if precision == 0 {
        1
    } else {
        2 * grid_side((precision - 1) as nat)
    }
}

/// The inputs are well formed: at least one point, one colour per point, and
/// a tick scale in range.
pub open spec fn valid_input(points: Seq<Triple>, colors: Seq<Triple>, tpu: u64) -> bool {
    points.len() > 0 && points.len() == colors.len() && 1 <= tpu <= MAX_TICKS_PER_UNIT
}

/// The six views of the points, rasterized on a grid of side `2^precision`,
/// before any filtering.
pub open spec fn unfiltered(points: Seq<Triple>, colors: Seq<Triple>, precision: nat, tpu: u64) -> Frame {
    let r = rasterized(points, colors, grid_side(precision) as usize, tpu);
    Frame { image: r.image, occupancy: r.occupancy }
}

/// The six views of the points, rasterized on a grid of side `2^precision`
/// and then filtered with window half-width `filtering`.
pub open spec fn projected(points: Seq<Triple>, colors: Seq<Triple>, precision: nat, filtering: nat, tpu: u64) -> Frame {
    let side = grid_side(precision);
    let r = rasterized(points, colors, side as usize, tpu);
    filtered(
        Frame { image: r.image, occupancy: r.occupancy },
        r.near,
        r.far,
        side as int,
        filtering as int,
        (OUTLIER_MARGIN * tpu) as int,
    )
}

/// Projects coloured points (fixed-point, `ticks_per_unit` ticks per unit)
/// onto six orthographic views of side `2^precision`, then removes flying
/// pixels with a window of half-width `filtering` (none when it is zero).
pub fn orthographic_projection(
    points: &Vec<Triple>,
    colors: &Vec<Triple>,
    precision: u64,
    filtering: u64,
    ticks_per_unit: u64,
) -> (r: Result<Projection, ProjectionError>)
    ensures
        match r {
            Ok(p) => {
                &&& valid_input(points@, colors@, ticks_per_unit)
                &&& precision <= MAX_PRECISION
                &&& frame_of(p.image, p.occupancy) == projected(
                    points@,
                    colors@,
                    precision as nat,
                    filtering as nat,
                    ticks_per_unit,
                )
                &&& frame_wf(frame_of(p.image, p.occupancy), grid_side(precision as nat) as int)
                &&& background_kept(cells4(p.image), cells3(p.occupancy), grid_side(precision as nat) as int)
                &&& border_unchanged(
                    unfiltered(points@, colors@, precision as nat, ticks_per_unit),
                    frame_of(p.image, p.occupancy),
                    grid_side(precision as nat) as int,
                    filtering as int,
                )
                &&& occupancy_lowered(
                    unfiltered(points@, colors@, precision as nat, ticks_per_unit),
                    frame_of(p.image, p.occupancy),
                    grid_side(precision as nat) as int,
                )
            },
            Err(ProjectionError::InvalidInput) => !valid_input(points@, colors@, ticks_per_unit),
            Err(ProjectionError::ResourceLimitExceeded) => {
                valid_input(points@, colors@, ticks_per_unit) && precision > MAX_PRECISION
            },
        },
{
    if points.len() == 0 || points.len() != colors.len() || ticks_per_unit == 0 || ticks_per_unit
        > MAX_TICKS_PER_UNIT {
        return Err(ProjectionError::InvalidInput);
    }
    if precision > MAX_PRECISION {
        return Err(ProjectionError::ResourceLimitExceeded);
    }
    let mut side: usize = 1;
    let mut e: u64 = 0;
    while e < precision
        invariant
            e <= precision <= MAX_PRECISION,
            side == grid_side(e as nat),
            1 <= side <= 2048,
        decreases precision - e,
    {
        proof {
            lemma_grid_side_bound((e + 1) as nat);
        }
        side = side * 2;
        e = e + 1;
    }
    let mut b = rasterize(points, colors, side, ticks_per_unit);
    proof {
        assert(side * ticks_per_unit <= 2048 * 1048576) by (nonlinear_arith)
            requires
                side <= 2048,
                ticks_per_unit <= 1048576,
        ;
        lemma_covers3_weaken(cells3(b.near), 3, side as int, side as int, side * ticks_per_unit, 0x1_0000_0000);
        lemma_covers3_weaken(cells3(b.far), 3, side as int, side as int, side * ticks_per_unit, 0x1_0000_0000);
    }
    filter_outliers(
        &mut b.image,
        &mut b.occupancy,
        &b.near,
        &b.far,
        side,
        filtering,
        OUTLIER_MARGIN * ticks_per_unit,
    );
    proof {
        lemma_projected(points@, colors@, precision as nat, filtering as nat, ticks_per_unit);
    }
    Ok(Projection { image: b.image, occupancy: b.occupancy })
}

/// The grid side stays within 2048 up to the largest precision.
pub(crate) proof fn lemma_grid_side_bound(p: nat)
    requires
        p <= MAX_PRECISION,
    ensures
        1 <= grid_side(p) <= 2048,
    decreases p,
{
    reveal_with_fuel(grid_side, 13);
    if p > 0 {
        lemma_grid_side_bound((p - 1) as nat);
    }
}

} // verus!
