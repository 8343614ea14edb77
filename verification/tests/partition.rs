use pbrt_rust::utils::partition_by;

fn halves_ordered(xs: &[i32]) -> bool {
    let mid = xs.len() / 2;
    (0..mid).all(|i| (mid..xs.len()).all(|j| xs[i] <= xs[j]))
}

fn sorted_copy(xs: &[i32]) -> Vec<i32> {
    let mut v = xs.to_vec();
    v.sort();
    v
}

#[test]
fn it_can_partition_slices() {
    let mut xs = [2, 5, 6, 1, 0, 4, 3, 2, 5, 1, 3, 3, 5];
    partition_by(&mut xs, |x| *x);

    let mid = xs.len() / 2;
    for i in 0..mid {
        for j in mid..(xs.len()) {
            assert!(xs[i] <= xs[j]);
        }
    }

    let mut ys = [1, 2];
    partition_by(&mut ys, |x| *x);
    assert_eq!(ys, [1, 2]);

    ys = [2, 1];
    partition_by(&mut ys, |x| *x);
    assert_eq!(ys, [1, 2]);

    let mut zs = [1];
    partition_by(&mut zs, |x| *x);
    assert_eq!(zs, [1]);

    let mut ps = [1, 0, 0, 0, -1, 0];
    partition_by(&mut ps, |x| *x);

    let m = ps.len() / 2;
    for i in 0..m {
        for j in m..(ps.len()) {
            assert!(ps[i] <= ps[j]);
        }
    }

    let mut qs = [3, 1, 1];
    partition_by(&mut qs, |x| *x);
    assert_eq!(qs, [1, 1, 3]);

    qs = [3, 1, 2];
    partition_by(&mut qs, |x| *x);
    assert_eq!(qs, [1, 2, 3]);

    qs = [3, 3, 1];
    partition_by(&mut qs, |x| *x);
    assert_eq!(qs, [1, 3, 3]);

    qs = [2, 2, 2];
    partition_by(&mut qs, |x| *x);
    assert_eq!(qs, [2, 2, 2]);

    let mut rs = [-2, -4, 2, 2, 2, 4, 4, 4, 4, 4, 4, 4];
    partition_by(&mut rs, |x| *x);

    let m2 = rs.len() / 2;
    for i in 0..m2 {
        for j in m2..(rs.len()) {
            assert!(rs[i] <= rs[j]);
        }
    }

    rs = [-2, -4, 2, 2, 2, 4, 4, 4, 4, 4, 4, -5];
    partition_by(&mut rs, |x| *x);

    let m3 = rs.len() / 2;
    for i in 0..m3 {
        for j in m3..(rs.len()) {
            assert!(rs[i] <= rs[j]);
        }
    }
}

#[test]
fn partition_keeps_the_elements_and_splits_at_the_middle() {
    let mut seed: u32 = 12345;
    for n in 0..40usize {
        for _ in 0..20 {
            let mut xs: Vec<i32> = (0..n)
                .map(|_| {
                    seed = seed.wrapping_mul(1103515245).wrapping_add(12345);
                    ((seed >> 16) % 7) as i32 - 3
                })
                .collect();
            let before = sorted_copy(&xs);
            partition_by(&mut xs[..], |x| *x);
            assert_eq!(sorted_copy(&xs), before);
            assert!(halves_ordered(&xs));
            if n > 0 {
                assert_eq!(xs[n / 2], before[n / 2]);
            }
        }
    }
}

#[test]
fn partition_puts_the_median_in_the_middle() {
    let mut xs = [9, 2, 3, 1, 5, 7, 0];
    partition_by(&mut xs, |x| *x);
    let mut front = xs[0..3].to_vec();
    front.sort();
    let mut back = xs[4..7].to_vec();
    back.sort();
    assert_eq!(front, vec![0, 1, 2]);
    assert_eq!(xs[3], 3);
    assert_eq!(back, vec![5, 7, 9]);

    let mut ys = [1, 2, 3, 0, 3];
    partition_by(&mut ys, |x| *x);
    assert!(halves_ordered(&ys));
    assert_eq!(ys[2], 2);
}

#[test]
fn partition_sorts_pairs_and_leaves_short_slices() {
    let mut empty: [i32; 0] = [];
    partition_by(&mut empty, |x| *x);
    let mut pair = [5, -5];
    partition_by(&mut pair, |x| *x);
    assert_eq!(pair, [-5, 5]);
}

#[test]
fn partition_can_use_a_key_of_the_element() {
    let mut pts = vec![(1, 'a'), (-2, 'b'), (2, 'c')];
    partition_by(&mut pts[..], |p| p.0);
    assert_eq!(pts[0].0, -2);
}

#[test]
fn it_can_partition_points() {
    let mut pts: Vec<[f32; 3]> = vec![[1.0, 1.0, -1.0], [-2.0, 2.0, -2.0], [2.0, 2.0, -2.0]];
    partition_by(&mut pts, |p: &[f32; 3]| p[0]);
    assert_eq!(pts[0][0], -2.0);
}
