use linesimp::kernel::{isqrt, Kernel, Linear, Profile};
use linesimp::smooth::{smooth_convolve, WeightCache};

#[test]
fn convolve_exact_values() {
    let line = vec![[0], [10], [0]];
    assert_eq!(smooth_convolve(&line, Linear::new(20)), vec![[0], [5], [0]]);
}

#[test]
fn convolve_keeps_length() {
    let line: Vec<[i64; 2]> = (0..17).map(|i| [i * 3, (i * i) % 7]).collect();
    assert_eq!(smooth_convolve(&line, Linear::new(9)).len(), line.len());
    let empty: Vec<[i64; 2]> = vec![];
    assert!(smooth_convolve(&empty, Linear::new(9)).is_empty());
    assert_eq!(smooth_convolve(&[[4, 5]], Linear::new(9)), vec![[4, 5]]);
}

#[test]
fn convolve_straight_line_is_fixed() {
    let line: Vec<[i64; 2]> = (0..12).map(|i| [3 * i - 5, 4 * i + 1]).collect();
    for max_dist in [1, 5, 12, 40, 1000] {
        assert_eq!(smooth_convolve(&line, Linear::new(max_dist)), line);
    }
}

#[test]
fn convolve_constant_line_is_fixed() {
    let line = vec![[7, -3, 2]; 6];
    assert_eq!(smooth_convolve(&line, Linear::new(4)), line);
}

#[test]
fn convolve_with_zero_weights_keeps_points() {
    let line = vec![[0], [10], [3]];
    assert_eq!(smooth_convolve(&line, Linear::new(0)), line);
}

#[test]
fn convolve_smooths_a_spike() {
    let line = vec![[0, 0], [10, 0], [20, 30], [30, 0], [40, 0]];
    let out = smooth_convolve(&line, Linear::new(40));
    assert!(out[2][1] < 30);
    assert!(out[2][1] > 0);
}

#[test]
fn weight_cache_is_symmetric() {
    let line = vec![[0, 0], [3, 4], [6, 8]];
    let mut cache = WeightCache::new(&line, Linear::new(10));
    assert_eq!(cache.at_center(), 10);
    assert_eq!(cache.get_weight(0, 0), Some(10));
    assert_eq!(cache.get_weight(0, 1), Some(5));
    assert_eq!(cache.get_weight(1, 0), Some(5));
    assert_eq!(cache.get_weight(0, 2), Some(0));
    assert_eq!(cache.get_weight(2, 7), None);
    assert_eq!(cache.get_weight_unchecked(2, 0), Some(0));
    assert_eq!(cache.get_weight_unchecked(1, 2), Some(5));
}

#[test]
fn linear_kernel_weights() {
    let k = Linear::new(10);
    assert_eq!(k.weigh_dist(3), Some(7));
    assert_eq!(k.weigh_dist(10), Some(0));
    assert_eq!(k.weigh_dist(11), None);
    assert_eq!(k.weigh_dist2(24), Some(6));
    assert_eq!(k.weigh_dist2(25), Some(5));
    assert_eq!(k.weigh_dist2(121), None);
    assert_eq!(k.at_center(), 10);
}

#[test]
fn isqrt_rounds_down() {
    assert_eq!(isqrt(0), 0);
    assert_eq!(isqrt(1), 1);
    assert_eq!(isqrt(24), 4);
    assert_eq!(isqrt(25), 5);
    assert_eq!(isqrt(u128::MAX), u64::MAX);
}

#[test]
fn profile_kernel_weights() {
    let k = Profile::new(vec![8, 5, 2]);
    assert_eq!(k.at_center(), 8);
    assert_eq!(k.weigh_dist(1), Some(5));
    assert_eq!(k.weigh_dist(3), None);
    assert_eq!(k.weigh_dist2(8), Some(2));
    assert_eq!(k.weigh_dist2(9), None);
    assert_eq!(Profile::new(vec![]).at_center(), 0);
}

#[test]
fn convolve_with_profile() {
    let line = vec![[0], [10], [0]];
    let k = Profile::new(vec![4; 11]);
    assert_eq!(smooth_convolve(&line, k.clone()), vec![[0], [3], [0]]);
    let straight: Vec<[i64; 1]> = (0..8).map(|i| [2 * i]).collect();
    assert_eq!(smooth_convolve(&straight, k), straight);
}

#[test]
fn weight_cache_answers_the_same_after_remembering() {
    let line = vec![[0, 0], [3, 4], [6, 8]];
    let mut cache = WeightCache::new(&line, Linear::new(10));
    let first = cache.get_weight_unchecked(0, 2);
    let again = cache.get_weight_unchecked(0, 2);
    assert_eq!(first, again);
    assert_eq!(cache.get_weight(2, 0), first);
}
