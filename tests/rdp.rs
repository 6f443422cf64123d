use linesimp::rdp;
use linesimp::rdp::rdp_keep;

fn assert_reduce(orig: Vec<[i64; 2]>, expected: Vec<[i64; 2]>, epsilon: u32) {
    let out = rdp::rdp_reduce(orig.as_slice(), epsilon);
    assert_eq!(out, expected);
}

#[test]
fn rdp_reduce() {
    assert_reduce(vec![[0, 0], [10, 1], [20, 0]], vec![[0, 0], [20, 0]], 2);
}

#[test]
fn rdp_reduce_multi() {
    assert_reduce(
        vec![[0, 0], [5, 6], [10, 10], [16, 5], [20, 0]],
        vec![[0, 0], [10, 10], [20, 0]],
        2,
    )
}

#[test]
fn rdp_short_lines_are_kept_whole() {
    let empty: Vec<[i64; 2]> = vec![];
    assert_eq!(rdp_keep(&empty, 5), Vec::<usize>::new());
    assert_eq!(rdp_keep(&[[3, 4]], 5), vec![0]);
    assert_eq!(rdp_keep(&[[3, 4], [3, 4]], 5), vec![0, 1]);
}

#[test]
fn rdp_large_epsilon_keeps_ends() {
    let line = vec![[0, 0], [5, 60], [10, -70], [16, 5], [20, 0]];
    assert_eq!(rdp_keep(&line, 1 << 30), vec![0, 4]);
    assert_eq!(rdp_keep(&line, u32::MAX), vec![0, 4]);
}

#[test]
fn rdp_count_shrinks_as_epsilon_grows() {
    let line = vec![[0, 0], [5, 6], [10, 10], [16, 5], [20, 0], [25, 3], [30, 0]];
    let mut prev = usize::MAX;
    for eps in [0u32, 1, 2, 3, 5, 8, 13, 100] {
        let kept = rdp_keep(&line, eps);
        assert!(kept.len() <= prev);
        assert_eq!(kept[0], 0);
        assert_eq!(*kept.last().unwrap(), line.len() - 1);
        assert!(kept.windows(2).all(|w| w[0] < w[1]));
        prev = kept.len();
    }
}

#[test]
fn rdp_zero_epsilon_keeps_corners_only() {
    let line = vec![[0, 0], [1, 1], [2, 2], [3, 1], [4, 0], [6, 0], [8, 0]];
    assert_eq!(rdp_keep(&line, 0), vec![0, 2, 4, 6]);
}

#[test]
fn rdp_reduce_is_idempotent() {
    let line = vec![[0, 0], [5, 6], [10, 10], [16, 5], [20, 0], [25, 3], [30, 0]];
    for eps in [0u32, 1, 2, 4] {
        let once = rdp::rdp_reduce(&line, eps);
        let twice = rdp::rdp_reduce(&once, eps);
        assert_eq!(once, twice);
    }
}

#[test]
fn rdp_ties_keep_the_first_point() {
    let line = vec![[0, 0], [1, 5], [2, 0], [3, 5], [4, 0]];
    assert_eq!(rdp_keep(&line, 4), vec![0, 1, 4]);
}

#[test]
fn rdp_point_beyond_the_end_is_measured_to_the_end() {
    let line = vec![[0, 0], [20, 0], [10, 0]];
    assert_eq!(rdp_keep(&line, 9), vec![0, 1, 2]);
    assert_eq!(rdp_keep(&line, 10), vec![0, 2]);
}

#[test]
fn rdp_zero_length_segment_uses_distance_to_start() {
    let line = vec![[0, 0], [3, 4], [0, 0]];
    assert_eq!(rdp_keep(&line, 4), vec![0, 1, 2]);
    assert_eq!(rdp_keep(&line, 5), vec![0, 2]);
}
