use back_test::indices::PortfolidIndices;

fn ids(v: &[usize]) -> PortfolidIndices {
    PortfolidIndices(v.to_vec())
}

#[test]
fn maximum_keeps_first_and_drops_neighbours() {
    let r = ids(&[100, 110, 130, 121, 150, 90]).remove_redundant_from_maximum();
    assert_eq!(r.0, vec![100, 130]);
}

#[test]
fn minimum_keeps_last_and_drops_neighbours() {
    let r = ids(&[100, 110, 130, 121, 150, 90]).remove_redundant_from_minimum();
    assert_eq!(r.0, vec![90, 150, 121]);
}

#[test]
fn empty_ranking_stays_empty() {
    assert!(ids(&[]).remove_redundant_from_maximum().0.is_empty());
    assert!(ids(&[]).remove_redundant_from_minimum().0.is_empty());
}

#[test]
fn single_index_is_kept() {
    assert_eq!(ids(&[7]).remove_redundant_from_maximum().0, vec![7]);
    assert_eq!(ids(&[7]).remove_redundant_from_minimum().0, vec![7]);
}

#[test]
fn duplicates_are_dropped() {
    assert_eq!(ids(&[50, 50, 50]).remove_redundant_from_maximum().0, vec![50]);
    assert_eq!(ids(&[50, 50, 50]).remove_redundant_from_minimum().0, vec![50]);
}

#[test]
fn distance_of_exactly_21_is_redundant() {
    assert_eq!(ids(&[50, 71, 29]).remove_redundant_from_maximum().0, vec![50]);
    assert_eq!(ids(&[50, 72, 28]).remove_redundant_from_maximum().0, vec![50, 72, 28]);
}

#[test]
fn small_indices_that_are_dropped_early_do_not_overflow() {
    let r = ids(&[30, 5]);
    assert!(r.can_remove_redundant_from_maximum());
    assert_eq!(r.remove_redundant_from_maximum().0, vec![30, 5]);
}

#[test]
fn small_index_compared_below_its_neighbourhood_overflows() {
    let r = ids(&[5, 10]);
    assert!(!r.can_remove_redundant_from_maximum());
    assert!(!r.can_remove_redundant_from_minimum());
    assert!(!ids(&[10, 5]).can_remove_redundant_from_maximum());
    assert!(ids(&[40, 5]).can_remove_redundant_from_minimum());
    assert!(ids(&[5]).can_remove_redundant_from_maximum());
}

#[test]
fn index_near_usize_max_overflows_only_with_company() {
    assert!(!ids(&[usize::MAX, 1]).can_remove_redundant_from_maximum());
    assert!(ids(&[usize::MAX]).can_remove_redundant_from_maximum());
    assert!(ids(&[1, usize::MAX]).can_remove_redundant_from_minimum() == false);
}

#[test]
fn kept_indices_are_pairwise_more_than_21_apart() {
    let input: Vec<usize> = (0..200).map(|i| 300 + (i * 37) % 500).collect();
    for r in [
        ids(&input).remove_redundant_from_maximum(),
        ids(&input).remove_redundant_from_minimum(),
    ] {
        for a in 0..r.0.len() {
            for b in (a + 1)..r.0.len() {
                let (x, y) = (r.0[a], r.0[b]);
                assert!(x > y + 21 || y > x + 21);
            }
        }
        for x in &input {
            assert!(r.0.iter().any(|y| x.abs_diff(*y) <= 21));
        }
    }
}

#[test]
fn thinning_twice_changes_nothing() {
    let input: Vec<usize> = (0..120).map(|i| 400 + (i * 53) % 700).collect();
    let once = ids(&input).remove_redundant_from_maximum();
    let twice = PortfolidIndices(once.0.clone()).remove_redundant_from_maximum();
    assert_eq!(once.0, twice.0);
}
