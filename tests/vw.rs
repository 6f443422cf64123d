use linesimp::vw;
use linesimp::vw::{neighbours_not_in, vw_keep};
use std::collections::HashSet;

fn assert_reduce(
    orig: Vec<[i64; 2]>,
    expected: Vec<[i64; 2]>,
    n_points: Option<usize>,
    closed: bool,
) {
    let out = vw::vw_reduce(orig.as_slice(), n_points.unwrap_or(expected.len()), closed);
    assert_eq!(out, expected);
}

#[test]
fn vw_reduce() {
    assert_reduce(
        vec![[0, 0], [9, 0], [10, 10], [11, 0], [20, 0]],
        vec![[0, 0], [9, 0], [11, 0], [20, 0]],
        None,
        false,
    );
}

#[test]
fn vw_reduce_multi() {
    assert_reduce(
        vec![[0, 0], [9, 0], [10, 10], [11, 0], [19, 0], [20, 10], [21, 0], [30, 0]],
        vec![[0, 0], [9, 0], [11, 0], [19, 0], [21, 0], [30, 0]],
        None,
        false,
    )
}

#[test]
fn reduce_wrap() {
    assert_reduce(
        vec![[0, 0], [10, 0], [10, 10], [0, 10], [-1, 5]],
        vec![[0, 0], [10, 0], [10, 10], [0, 10]],
        None,
        true,
    );
}

#[test]
fn reduce_nowrap() {
    assert_reduce(
        vec![[0, 0], [10, 0], [10, 10], [0, 10], [-1, 5]],
        vec![[0, 0], [10, 0], [10, 10], [-1, 5]],
        None,
        false,
    );
}

#[test]
fn vw_target_above_length_keeps_everything() {
    let line = vec![[0, 0], [9, 0], [10, 10], [11, 0], [20, 0]];
    assert_eq!(vw_keep(&line, 5, false), vec![0, 1, 2, 3, 4]);
    assert_eq!(vw_keep(&line, 9, true), vec![0, 1, 2, 3, 4]);
    assert_eq!(vw_keep(&line[..2], 2, false), vec![0, 1]);
}

#[test]
fn vw_open_line_keeps_ends_and_reaches_target() {
    let line: Vec<[i64; 2]> = (0..20).map(|i| [i * 10, (i * i * 7) % 13]).collect();
    for target in 3..20 {
        let kept = vw_keep(&line, target, false);
        assert_eq!(kept.len(), target);
        assert_eq!(kept[0], 0);
        assert_eq!(*kept.last().unwrap(), 19);
        assert!(kept.windows(2).all(|w| w[0] < w[1]));
    }
}

#[test]
fn vw_closed_line_reaches_target() {
    let line: Vec<[i64; 2]> = (0..12).map(|i| [i * 10, (i * i * 5) % 11]).collect();
    for target in 3..12 {
        let kept = vw_keep(&line, target, true);
        assert_eq!(kept.len(), target);
        assert!(kept.windows(2).all(|w| w[0] < w[1]));
    }
}

#[test]
fn vw_target_two_stops_at_two_or_three() {
    let line = vec![[0, 0], [9, 0], [10, 10], [11, 0], [20, 0]];
    assert_eq!(vw_keep(&line, 2, false), vec![0, 3, 4]);
    let flat = vec![[0, 0], [10, 0], [20, 1], [30, 0]];
    let kept = vw_keep(&flat, 2, false);
    assert!(kept.len() == 2 || kept.len() == 3);
}

#[test]
fn vw_drops_the_flattest_point_first() {
    let line = vec![[0, 0], [10, 8], [20, 6], [30, 9], [40, 0]];
    assert_eq!(vw_keep(&line, 4, false), vec![0, 1, 3, 4]);
}

#[test]
fn neighbours_found_without_wrapping() {
    let skipped: HashSet<usize> = [2, 3].into_iter().collect();
    assert_eq!(neighbours_not_in(2, 3, &skipped, 8, false), Some((1, 4)));
    assert_eq!(neighbours_not_in(1, 4, &skipped, 8, false), Some((1, 4)));
}

#[test]
fn neighbours_wrap_around_the_ends() {
    let skipped: HashSet<usize> = [0, 7].into_iter().collect();
    assert_eq!(neighbours_not_in(0, 7, &skipped, 8, true), Some((6, 1)));
    assert_eq!(neighbours_not_in(0, 7, &skipped, 8, false), None);
}

#[test]
fn neighbours_refused_when_few_indices_are_left() {
    let skipped: HashSet<usize> = [1, 2, 3].into_iter().collect();
    assert_eq!(neighbours_not_in(1, 3, &skipped, 6, false), None);
    assert_eq!(neighbours_not_in(1, 3, &skipped, 7, false), Some((0, 4)));
    assert_eq!(neighbours_not_in(0, 1, &HashSet::new(), 3, false), None);
}

#[test]
fn vw_equal_triangles_drop_the_first() {
    let line = vec![[0, 0], [9, 0], [10, 10], [11, 0], [19, 0], [20, 10], [21, 0], [30, 0]];
    assert_eq!(vw_keep(&line, 7, false), vec![0, 1, 3, 4, 5, 6, 7]);
}

#[test]
fn vw_closed_ring_may_drop_its_first_point() {
    let ring = vec![[-1, 5], [0, 0], [10, 0], [10, 10], [0, 10]];
    assert_eq!(vw_keep(&ring, 4, true), vec![1, 2, 3, 4]);
    assert_eq!(vw_keep(&ring, 4, false), vec![0, 2, 3, 4]);
}

#[test]
fn vw_two_spikes_go_first() {
    let line = vec![[0, 0], [9, 0], [10, 10], [11, 0], [19, 0], [20, 10], [21, 0], [30, 0]];
    assert_eq!(vw_keep(&line, 6, false), vec![0, 1, 3, 4, 6, 7]);
    assert_eq!(vw::vw_reduce(&line, 6, false), vec![[0, 0], [9, 0], [11, 0], [19, 0], [21, 0], [30, 0]]);
}
