use distance_transform::dt::dt1d;
use distance_transform::dt::dt1d_costs;
use distance_transform::dt::INF;

/// Reference computation: the minimum over all positions `p` of
/// `(q - p)^2 + f[p]`, by brute force.
fn brute_force_1d(f: &[u64]) -> Vec<u64> {
    let mut d = Vec::with_capacity(f.len());
    for q in 0..f.len() {
        let mut best = u64::MAX;
        for p in 0..f.len() {
            let diff = if q >= p { (q - p) as u64 } else { (p - q) as u64 };
            let cand = diff * diff + f[p];
            if cand < best {
                best = cand;
            }
        }
        d.push(best);
    }
    d
}

fn bool_costs(im: &[bool]) -> Vec<u64> {
    im.iter().map(|&b| if b { 0 } else { INF }).collect()
}

#[test]
fn dt1d_costs_single_sample() {
    let f = vec![17u64];
    assert_eq!(dt1d_costs(&f), vec![17u64]);
}

#[test]
fn dt1d_costs_matches_brute_force_small() {
    let cases: Vec<Vec<u64>> = vec![
        vec![0],
        vec![INF],
        vec![0, INF],
        vec![INF, 0],
        vec![3, 1, 4, 1, 5, 9, 2, 6],
        vec![INF, INF, 0, INF, INF, INF, INF, 0, INF],
        vec![100, 0, 100, 100, 100, 0, 100],
        vec![INF, INF, INF, INF],
        vec![5, 5, 5, 5, 5],
        vec![INF - 1, 2, INF, 0, 7, INF, 1],
    ];
    for f in cases {
        assert_eq!(dt1d_costs(&f), brute_force_1d(&f), "inputs {:?}", f);
    }
}

#[test]
fn dt1d_costs_matches_brute_force_length_fifty() {
    // a deterministic pseudo-random sequence of mixed small and sentinel costs
    let mut f: Vec<u64> = Vec::new();
    let mut state: u64 = 0x243f6a8885a308d3;
    for _ in 0..50 {
        state = state.wrapping_mul(6364136223846793005).wrapping_add(1442695040888963407);
        let r = state >> 33;
        if r % 3 == 0 {
            f.push(INF);
        } else {
            f.push(r % 1000);
        }
    }
    assert_eq!(dt1d_costs(&f), brute_force_1d(&f));
}

#[test]
fn dt1d_bool_vector() {
    let im = vec![false, true, false, false, false];
    assert_eq!(dt1d(&im), vec![1, 0, 1, 4, 9]);
}

#[test]
fn dt1d_empty_input() {
    let im: Vec<bool> = Vec::new();
    assert_eq!(dt1d(&im), Vec::<u64>::new());
}

#[test]
fn dt1d_no_feature() {
    // with every cost at the sentinel the best candidate for q is q itself
    let im = vec![false, false, false];
    assert_eq!(dt1d(&im), vec![INF, INF, INF]);
}

#[test]
fn dt1d_reverse_symmetry() {
    // transforming the reversed sequence reverses the transform
    let f = vec![7, INF, 0, 3, INF, INF, 12, 0, INF, 4];
    let fr: Vec<u64> = f.iter().rev().cloned().collect();
    let d = dt1d_costs(&f);
    let dr = dt1d_costs(&fr);
    let n = f.len();
    for q in 0..n {
        assert_eq!(dr[q], d[n - 1 - q]);
    }
}

#[test]
fn dt1d_shift_invariance() {
    // shifting every feature position by a constant shifts the output
    let im = vec![false, true, false, false, true, false, false, false, false, false];
    let t = 3usize;
    let shifted: Vec<bool> = (0..im.len()).map(|p| p >= t && im[p - t]).collect();
    let d = dt1d(&im);
    let ds = dt1d(&shifted);
    for q in 0..im.len() - t {
        assert_eq!(ds[q + t], d[q]);
    }
}
