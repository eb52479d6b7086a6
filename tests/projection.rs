use projectors::filter::filter_outliers;
use projectors::{
    orthographic_projection, quantize_rows, rasterize, Projection, ProjectionError, Triple,
    BACKGROUND,
};

fn project(points: &[Triple], colors: &[Triple], precision: u64, filtering: u64, tpu: u64) -> Projection {
    orthographic_projection(&points.to_vec(), &colors.to_vec(), precision, filtering, tpu)
        .expect("valid input")
}

fn pixel(p: &Projection, v: usize, r: usize, c: usize) -> [u64; 3] {
    [
        p.image.array[[v, r, c, 0]],
        p.image.array[[v, r, c, 1]],
        p.image.array[[v, r, c, 2]],
    ]
}

fn occ(p: &Projection, v: usize, r: usize, c: usize) -> u64 {
    p.occupancy.array[[v, r, c]]
}

/// A flat patch of points at depth `x` over cells (y, z) in 0..n, colour (1, 2, 3).
fn patch(n: u64, x: u64) -> Vec<Triple> {
    let mut pts = Vec::new();
    for y in 0..n {
        for z in 0..n {
            pts.push([x, y, z]);
        }
    }
    pts
}

fn colors_for(points: &[Triple]) -> Vec<Triple> {
    points.iter().map(|_| [1, 2, 3]).collect()
}

fn set_depth(points: &mut Vec<Triple>, y: u64, z: u64, x: u64) {
    for p in points.iter_mut() {
        if p[1] == y && p[2] == z {
            p[0] = x;
        }
    }
}

#[test]
fn single_point_lands_in_every_view() {
    let p = project(&[[2, 3, 1]], &[[10, 20, 30]], 4, 0, 1);
    let expected = [(0, 3, 1), (1, 3, 1), (2, 2, 1), (3, 2, 1), (4, 2, 3), (5, 2, 3)];
    for v in 0..6 {
        for r in 0..16 {
            for c in 0..16 {
                if expected.contains(&(v, r, c)) {
                    assert_eq!(pixel(&p, v, r, c), [10, 20, 30]);
                    assert_eq!(occ(&p, v, r, c), 1);
                } else {
                    assert_eq!(pixel(&p, v, r, c), [255, 255, 255]);
                    assert_eq!(occ(&p, v, r, c), 0);
                }
            }
        }
    }
}

#[test]
fn point_at_grid_extent_is_dropped() {
    let p = project(&[[16, 3, 1]], &[[10, 20, 30]], 4, 0, 1);
    for v in 0..6 {
        for r in 0..16 {
            for c in 0..16 {
                assert_eq!(occ(&p, v, r, c), 0);
                assert_eq!(pixel(&p, v, r, c), [255, 255, 255]);
            }
        }
    }
}

#[test]
fn off_grid_point_changes_nothing() {
    let base = vec![[2, 3, 1], [5, 5, 5]];
    let base_colors = vec![[10, 20, 30], [40, 50, 60]];
    let mut more = base.clone();
    more.push([1, 40, 1]);
    let mut more_colors = base_colors.clone();
    more_colors.push([7, 7, 7]);
    let a = project(&base, &base_colors, 4, 1, 1);
    let b = project(&more, &more_colors, 4, 1, 1);
    assert_eq!(a.image.array, b.image.array);
    assert_eq!(a.occupancy.array, b.occupancy.array);
}

#[test]
fn fractional_coordinates_are_truncated() {
    // (2.5, 3.9, 1.0) with colour (10.7, 20.2, 30.9), ten ticks per unit.
    let p = project(&[[25, 39, 10]], &[[107, 202, 309]], 4, 0, 10);
    assert_eq!(pixel(&p, 0, 3, 1), [10, 20, 30]);
    assert_eq!(pixel(&p, 3, 2, 1), [10, 20, 30]);
    assert_eq!(pixel(&p, 4, 2, 3), [10, 20, 30]);
    assert_eq!(occ(&p, 5, 2, 3), 1);
}

#[test]
fn fractional_coordinate_below_extent_is_kept() {
    // 15.9 units is on a grid of side 16; 16.0 is not.
    let kept = project(&[[159, 0, 0]], &[[1, 1, 1]], 4, 0, 10);
    assert_eq!(occ(&kept, 2, 15, 0), 1);
    let dropped = project(&[[160, 0, 0]], &[[1, 1, 1]], 4, 0, 10);
    assert_eq!(occ(&dropped, 2, 15, 0), 0);
}

#[test]
fn repeated_runs_are_identical() {
    let pts: Vec<Triple> = (0..200u64).map(|i| [(i * 7) % 32, (i * 13) % 32, (i * 29) % 32]).collect();
    let cols: Vec<Triple> = (0..200u64).map(|i| [i % 256, (i * 3) % 256, (i * 5) % 256]).collect();
    let a = project(&pts, &cols, 5, 2, 1);
    let b = project(&pts, &cols, 5, 2, 1);
    assert_eq!(a.image.array, b.image.array);
    assert_eq!(a.occupancy.array, b.occupancy.array);
}

#[test]
fn nearest_and_farthest_win_their_views() {
    let pts = vec![[5, 1, 1], [3, 1, 1], [9, 1, 1], [7, 1, 1]];
    let cols = vec![[50, 0, 0], [30, 0, 0], [90, 0, 0], [70, 0, 0]];
    let p = project(&pts, &cols, 4, 0, 1);
    assert_eq!(pixel(&p, 0, 1, 1), [30, 0, 0]);
    assert_eq!(pixel(&p, 1, 1, 1), [90, 0, 0]);
}

#[test]
fn equal_depths_keep_the_last_point() {
    let pts = vec![[4, 2, 2], [4, 2, 2]];
    let cols = vec![[1, 1, 1], [2, 2, 2]];
    let p = project(&pts, &cols, 4, 0, 1);
    for v in 0..6 {
        let (r, c) = match v / 2 {
            0 => (2, 2),
            1 => (4, 2),
            _ => (4, 2),
        };
        assert_eq!(pixel(&p, v, r, c), [2, 2, 2]);
    }
}

#[test]
fn low_side_outlier_is_removed() {
    let mut pts = patch(16, 10);
    set_depth(&mut pts, 8, 8, 50);
    let cols = colors_for(&pts);
    let p = project(&pts, &cols, 7, 1, 1);
    assert_eq!(occ(&p, 0, 8, 8), 0);
    assert_eq!(pixel(&p, 0, 8, 8), [BACKGROUND; 3]);
    assert_eq!(occ(&p, 1, 8, 8), 1);
    assert_eq!(occ(&p, 0, 8, 9), 1);
}

#[test]
fn high_side_outlier_is_removed() {
    let mut pts = patch(16, 50);
    set_depth(&mut pts, 8, 8, 10);
    let cols = colors_for(&pts);
    let p = project(&pts, &cols, 7, 1, 1);
    assert_eq!(occ(&p, 1, 8, 8), 0);
    assert_eq!(pixel(&p, 1, 8, 8), [BACKGROUND; 3]);
    assert_eq!(occ(&p, 0, 8, 8), 1);
}

#[test]
fn outlier_needs_more_than_the_margin() {
    // Depth 28 among eight neighbours at 10: the window averages 12, and 28
    // is not beyond 12 + 20.
    let mut pts = patch(3, 10);
    set_depth(&mut pts, 1, 1, 28);
    let cols = colors_for(&pts);
    let kept = project(&pts, &cols, 6, 1, 1);
    assert_eq!(occ(&kept, 0, 1, 1), 1);
    // Depth 38: the window averages 118 / 9, and 38 is beyond that plus 20.
    set_depth(&mut pts, 1, 1, 38);
    let removed = project(&pts, &cols, 6, 1, 1);
    assert_eq!(occ(&removed, 0, 1, 1), 0);
}

#[test]
fn depth_exactly_at_the_margin_is_kept() {
    // Two ticks per unit. Neighbours at 10.0 units, centre at 32.5: the window
    // averages 12.5, and 32.5 is exactly 12.5 + 20.
    let mut pts: Vec<Triple> = Vec::new();
    for y in 0..3u64 {
        for z in 0..3u64 {
            let x = if y == 1 && z == 1 { 65 } else { 20 };
            pts.push([x, 2 * y, 2 * z]);
        }
    }
    let cols: Vec<Triple> = pts.iter().map(|_| [2, 4, 6]).collect();
    let kept = project(&pts, &cols, 6, 1, 2);
    assert_eq!(occ(&kept, 0, 1, 1), 1);
    assert_eq!(pixel(&kept, 0, 1, 1), [1, 2, 3]);
    pts[4][0] = 66;
    let removed = project(&pts, &cols, 6, 1, 2);
    assert_eq!(occ(&removed, 0, 1, 1), 0);
}

#[test]
fn border_pixels_are_never_filtered() {
    let mut pts = patch(16, 10);
    set_depth(&mut pts, 0, 8, 100);
    let cols = colors_for(&pts);
    let p = project(&pts, &cols, 7, 1, 1);
    assert_eq!(occ(&p, 0, 0, 8), 1);
    assert_eq!(pixel(&p, 0, 0, 8), [1, 2, 3]);
}

#[test]
fn wide_window_leaves_no_interior() {
    let mut pts = patch(16, 1);
    set_depth(&mut pts, 8, 8, 31);
    let cols = colors_for(&pts);
    let narrow = project(&pts, &cols, 5, 1, 1);
    assert_eq!(occ(&narrow, 0, 8, 8), 0);
    // A half-width of 16 on a grid of side 32 leaves no cell to judge.
    let wide = project(&pts, &cols, 5, 16, 1);
    assert_eq!(occ(&wide, 0, 8, 8), 1);
    let huge = project(&pts, &cols, 5, u64::MAX, 1);
    assert_eq!(occ(&huge, 0, 8, 8), 1);
}

#[test]
fn zero_window_passes_raster_output_through() {
    let mut pts = patch(16, 10);
    set_depth(&mut pts, 8, 8, 50);
    let cols = colors_for(&pts);
    let p = project(&pts, &cols, 7, 0, 1);
    let raw = rasterize(&pts, &cols, 128, 1);
    assert_eq!(p.image.array, raw.image.array);
    assert_eq!(p.occupancy.array, raw.occupancy.array);
    assert_eq!(occ(&p, 0, 8, 8), 1);
}

#[test]
fn occupancy_is_binary_and_unoccupied_is_background() {
    let mut pts = patch(20, 10);
    set_depth(&mut pts, 8, 8, 60);
    set_depth(&mut pts, 12, 3, 0);
    pts.push([31, 31, 31]);
    pts.push([40, 1, 1]);
    let cols: Vec<Triple> = (0..pts.len() as u64).map(|i| [i % 200, 7, 9]).collect();
    let p = project(&pts, &cols, 5, 1, 1);
    for v in 0..6 {
        for r in 0..32 {
            for c in 0..32 {
                let o = occ(&p, v, r, c);
                assert!(o == 0 || o == 1);
                if o == 0 {
                    assert_eq!(pixel(&p, v, r, c), [255, 255, 255]);
                }
            }
        }
    }
}

#[test]
fn depth_buffers_move_one_way() {
    let pts: Vec<Triple> = (0..60u64).map(|i| [(i * 11) % 16, (i * 5) % 4, (i * 3) % 4]).collect();
    let cols = colors_for(&pts);
    let mut prev = rasterize(&Vec::new(), &Vec::new(), 16, 1);
    for n in 1..=pts.len() {
        let next = rasterize(&pts[..n].to_vec(), &cols[..n].to_vec(), 16, 1);
        for a in 0..3 {
            for r in 0..16 {
                for c in 0..16 {
                    assert!(next.near.array[[a, r, c]] <= prev.near.array[[a, r, c]]);
                    assert!(next.far.array[[a, r, c]] >= prev.far.array[[a, r, c]]);
                }
            }
        }
        prev = next;
    }
}

#[test]
fn filter_rerun_may_remove_more() {
    // Cell (5, 5) survives the first pass only because the farther cell
    // (5, 6), judged after it, still counts in its window.
    let mut pts = patch(16, 10);
    set_depth(&mut pts, 5, 5, 40);
    set_depth(&mut pts, 5, 6, 100);
    let cols = colors_for(&pts);
    let mut b = rasterize(&pts, &cols, 128, 1);
    filter_outliers(&mut b.image, &mut b.occupancy, &b.near, &b.far, 128, 1, 20);
    assert_eq!(b.occupancy.array[[0, 5, 5]], 1);
    assert_eq!(b.occupancy.array[[0, 5, 6]], 0);
    filter_outliers(&mut b.image, &mut b.occupancy, &b.near, &b.far, 128, 1, 20);
    assert_eq!(b.occupancy.array[[0, 5, 5]], 0);
}

#[test]
fn filter_never_raises_occupancy() {
    let mut pts = patch(16, 10);
    set_depth(&mut pts, 4, 4, 90);
    set_depth(&mut pts, 9, 2, 0);
    let cols = colors_for(&pts);
    let raw = rasterize(&pts, &cols, 32, 1);
    let filtered = project(&pts, &cols, 5, 2, 1);
    for v in 0..6 {
        for r in 0..32 {
            for c in 0..32 {
                assert!(filtered.occupancy.array[[v, r, c]] <= raw.occupancy.array[[v, r, c]]);
            }
        }
    }
}

#[test]
fn quantize_rows_truncates() {
    let q = quantize_rows(&vec![[0, 9, 10], [19, 20, 255]], 10);
    assert_eq!(q, vec![[0, 0, 1], [1, 2, 25]]);
}

#[test]
fn empty_input_is_refused() {
    let r = orthographic_projection(&Vec::new(), &Vec::new(), 4, 0, 1);
    assert!(matches!(r, Err(ProjectionError::InvalidInput)));
}

#[test]
fn mismatched_counts_are_refused() {
    let r = orthographic_projection(&vec![[1, 1, 1]], &vec![], 4, 0, 1);
    assert!(matches!(r, Err(ProjectionError::InvalidInput)));
}

#[test]
fn bad_tick_scale_is_refused() {
    let r = orthographic_projection(&vec![[1, 1, 1]], &vec![[1, 1, 1]], 4, 0, 0);
    assert!(matches!(r, Err(ProjectionError::InvalidInput)));
    let r = orthographic_projection(&vec![[1, 1, 1]], &vec![[1, 1, 1]], 4, 0, 1048577);
    assert!(matches!(r, Err(ProjectionError::InvalidInput)));
}

#[test]
fn oversized_grid_is_refused() {
    let r = orthographic_projection(&vec![[1, 1, 1]], &vec![[1, 1, 1]], 12, 0, 1);
    assert!(matches!(r, Err(ProjectionError::ResourceLimitExceeded)));
}

#[test]
fn depth_buffers_bound_every_point_on_grid() {
    let pts: Vec<Triple> = (0..80u64).map(|i| [(i * 7) % 20, (i * 3) % 8, (i * 5) % 8]).collect();
    let cols = colors_for(&pts);
    let b = rasterize(&pts, &cols, 16, 1);
    let planes = [(1, 2), (0, 2), (0, 1)];
    for p in pts.iter().filter(|p| p.iter().all(|&v| v < 16)) {
        for (j, &(a1, a2)) in planes.iter().enumerate() {
            let (k1, k2) = (p[a1] as usize, p[a2] as usize);
            assert!(b.near.array[[j, k1, k2]] <= p[j]);
            assert!(b.far.array[[j, k1, k2]] >= p[j]);
            assert_eq!(b.occupancy.array[[2 * j, k1, k2]], 1);
            assert_eq!(b.occupancy.array[[2 * j + 1, k1, k2]], 1);
        }
    }
}

#[test]
fn one_more_point_updates_its_cells() {
    let pts = vec![[5, 2, 3], [9, 2, 3]];
    let cols = vec![[1, 1, 1], [2, 2, 2]];
    let before = rasterize(&pts, &cols, 16, 1);
    assert_eq!(before.image.array[[0, 2, 3, 0]], 1);
    assert_eq!(before.image.array[[1, 2, 3, 0]], 2);
    // Depth 7 lies between the near (5) and far (9) depths: nothing changes.
    let mut more = pts.clone();
    more.push([7, 2, 3]);
    let mut more_cols = cols.clone();
    more_cols.push([3, 3, 3]);
    let mid = rasterize(&more, &more_cols, 16, 1);
    assert_eq!(mid.image.array[[0, 2, 3, 0]], 1);
    assert_eq!(mid.image.array[[1, 2, 3, 0]], 2);
    assert_eq!(mid.near.array[[0, 2, 3]], 5);
    assert_eq!(mid.far.array[[0, 2, 3]], 9);
    // Depth 5 ties the near depth: the later point wins the low-side view.
    more.push([5, 2, 3]);
    more_cols.push([4, 4, 4]);
    let tie = rasterize(&more, &more_cols, 16, 1);
    assert_eq!(tie.image.array[[0, 2, 3, 0]], 4);
    assert_eq!(tie.image.array[[1, 2, 3, 0]], 2);
    // Depth 12 passes the far depth: it takes the high-side view.
    more.push([12, 2, 3]);
    more_cols.push([5, 5, 5]);
    let far = rasterize(&more, &more_cols, 16, 1);
    assert_eq!(far.image.array[[0, 2, 3, 0]], 4);
    assert_eq!(far.image.array[[1, 2, 3, 0]], 5);
    assert_eq!(far.far.array[[0, 2, 3]], 12);
}
