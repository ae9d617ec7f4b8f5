use distance_transform::dt::dt1d;
use distance_transform::dt::dt2d;
use distance_transform::dt::INF;
use distance_transform::grid::BoolGrid;

fn make_grid(width: usize, height: usize, features: &[(usize, usize)]) -> BoolGrid {
    let mut g = BoolGrid::new(width, height);
    for y in 0..height {
        for x in 0..width {
            g.set(x, y, false);
        }
    }
    for &(x, y) in features {
        g.set(x, y, true);
    }
    g
}

/// Reference computation: for every cell the minimum over all cells of the
/// squared Euclidean distance plus that cell's cost, by a double loop.
fn brute_force_2d(g: &BoolGrid) -> Vec<Vec<u64>> {
    let w = g.width();
    let h = g.height();
    let mut out = vec![vec![0u64; h]; w];
    for x in 0..w {
        for y in 0..h {
            let mut best = u64::MAX;
            for fx in 0..w {
                for fy in 0..h {
                    let cost = if *g.get(fx, fy).unwrap() { 0 } else { INF };
                    let dx = if x >= fx { (x - fx) as u64 } else { (fx - x) as u64 };
                    let dy = if y >= fy { (y - fy) as u64 } else { (fy - y) as u64 };
                    let cand = dx * dx + dy * dy + cost;
                    if cand < best {
                        best = cand;
                    }
                }
            }
            out[x][y] = best;
        }
    }
    out
}

#[test]
fn dt2d_concrete_five_by_five() {
    // single feature cell at (2, 2); spot values and the full brute force
    let g = make_grid(5, 5, &[(2, 2)]);
    let d = dt2d(&g);
    assert_eq!(*d.get(0, 0).unwrap(), 8);
    assert_eq!(*d.get(2, 2).unwrap(), 0);
    assert_eq!(*d.get(4, 4).unwrap(), 8);
    assert_eq!(*d.get(2, 0).unwrap(), 4);
    let expected = brute_force_2d(&g);
    for x in 0..5 {
        for y in 0..5 {
            assert_eq!(*d.get(x, y).unwrap(), expected[x][y]);
        }
    }
}

#[test]
fn dt2d_single_feature_matches_exact_distance() {
    // with one feature cell the output is the exact squared distance to it
    let (fx, fy) = (1usize, 4usize);
    let g = make_grid(4, 6, &[(fx, fy)]);
    let d = dt2d(&g);
    for x in 0..4usize {
        for y in 0..6usize {
            let dx = (x as i64 - fx as i64).unsigned_abs();
            let dy = (y as i64 - fy as i64).unsigned_abs();
            assert_eq!(*d.get(x, y).unwrap(), dx * dx + dy * dy);
        }
    }
}

#[test]
fn dt2d_no_feature_three_by_three() {
    // with no feature cell every output cell is the sentinel
    let g = make_grid(3, 3, &[]);
    let d = dt2d(&g);
    for x in 0..3 {
        for y in 0..3 {
            assert_eq!(*d.get(x, y).unwrap(), INF);
        }
    }
}

#[test]
fn dt2d_two_far_features() {
    // every cell's output is the smaller of the two single-feature distances
    let (ax, ay) = (1usize, 1usize);
    let (bx, by) = (6usize, 4usize);
    let g = make_grid(8, 6, &[(ax, ay), (bx, by)]);
    let d = dt2d(&g);
    let expected = brute_force_2d(&g);
    for x in 0..8usize {
        for y in 0..6usize {
            let da = {
                let dx = (x as i64 - ax as i64).unsigned_abs();
                let dy = (y as i64 - ay as i64).unsigned_abs();
                dx * dx + dy * dy
            };
            let db = {
                let dx = (x as i64 - bx as i64).unsigned_abs();
                let dy = (y as i64 - by as i64).unsigned_abs();
                dx * dx + dy * dy
            };
            assert_eq!(*d.get(x, y).unwrap(), da.min(db));
            assert_eq!(*d.get(x, y).unwrap(), expected[x][y]);
        }
    }
}

#[test]
fn dt2d_single_row_reduces_to_one_dimension() {
    let row = vec![false, false, true, false, true, false, false];
    let mut g = BoolGrid::new(row.len(), 1);
    for (x, &b) in row.iter().enumerate() {
        g.set(x, 0, b);
    }
    let d2 = dt2d(&g);
    let d1 = dt1d(&row);
    for x in 0..row.len() {
        assert_eq!(*d2.get(x, 0).unwrap(), d1[x]);
    }
}

#[test]
fn dt2d_single_column_reduces_to_one_dimension() {
    let col = vec![true, false, false, false, false, true];
    let mut g = BoolGrid::new(1, col.len());
    for (y, &b) in col.iter().enumerate() {
        g.set(0, y, b);
    }
    let d2 = dt2d(&g);
    let d1 = dt1d(&col);
    for y in 0..col.len() {
        assert_eq!(*d2.get(0, y).unwrap(), d1[y]);
    }
}

#[test]
fn dt2d_degenerate_dimensions() {
    let g = BoolGrid::new(0, 5);
    let d = dt2d(&g);
    assert_eq!(d.width(), 0);
    assert_eq!(d.height(), 5);
    let g2 = BoolGrid::new(4, 0);
    let d2 = dt2d(&g2);
    assert_eq!(d2.width(), 4);
    assert_eq!(d2.height(), 0);
}

#[test]
fn dt2d_dense_pattern_matches_brute_force() {
    // a diagonal band of features on a rectangular grid
    let mut feats: Vec<(usize, usize)> = Vec::new();
    for i in 0..5usize {
        feats.push((i + 2, i));
    }
    let g = make_grid(9, 5, &feats);
    let d = dt2d(&g);
    let expected = brute_force_2d(&g);
    for x in 0..9 {
        for y in 0..5 {
            assert_eq!(*d.get(x, y).unwrap(), expected[x][y]);
        }
    }
}
