use back_test::rolling::rolling_windows;

#[test]
fn windows_start_once_duration_days_have_passed() {
    assert_eq!(
        rolling_windows(5, 2),
        vec![None, None, Some((0, 2)), Some((1, 3)), Some((2, 4))]
    );
}

#[test]
fn zero_duration_gives_one_day_windows() {
    assert_eq!(rolling_windows(3, 0), vec![Some((0, 0)), Some((1, 1)), Some((2, 2))]);
}

#[test]
fn duration_longer_than_history_gives_no_window() {
    assert_eq!(rolling_windows(3, 10), vec![None, None, None]);
    assert!(rolling_windows(0, 1).is_empty());
}
