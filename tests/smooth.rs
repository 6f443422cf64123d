use linesimp::smooth::smooth_moving_average;

#[test]
fn moving_average_short_line_is_unchanged() {
    let line = vec![[0, 0], [7, 3], [1, 9]];
    assert_eq!(smooth_moving_average(&line, 3), line);
    let line4 = vec![[0, 0], [7, 3], [1, 9], [4, 4]];
    assert_eq!(smooth_moving_average(&line4, 5), line4);
    let pair = vec![[0, 0], [7, 3]];
    assert_eq!(smooth_moving_average(&pair, 0), pair);
    let empty: Vec<[i64; 2]> = vec![];
    assert_eq!(smooth_moving_average(&empty, 1), empty);
}

#[test]
fn moving_average_exact_values() {
    let line = vec![[0, 0], [3, 0], [3, 3], [9, 3], [9, 9]];
    assert_eq!(
        smooth_moving_average(&line, 1),
        vec![[0, 0], [2, 1], [5, 2], [7, 5], [9, 9]]
    );
}

#[test]
fn moving_average_rounds_to_nearest() {
    assert_eq!(smooth_moving_average(&[[0], [0], [2], [5]], 1), vec![[0], [1], [2], [5]]);
    assert_eq!(smooth_moving_average(&[[0], [0], [-2], [-5]], 1), vec![[0], [-1], [-2], [-5]]);
}

#[test]
fn moving_average_straight_line_is_fixed() {
    let line: Vec<[i64; 3]> = (0..9).map(|i| [2 * i, i - 4, 7]).collect();
    for width in 0..4 {
        assert_eq!(smooth_moving_average(&line, width), line);
    }
}

#[test]
fn moving_average_window_shrinks_near_the_ends() {
    let line = vec![[0], [10], [0], [10], [0]];
    assert_eq!(smooth_moving_average(&line, 4), vec![[0], [3], [4], [3], [0]]);
}
