use pixel_snapper::order::{find_first_lowest, sort_values, sorted_set};

#[test]
fn sorting_keeps_repetitions() {
    assert_eq!(sort_values(&vec![5, 1, 4, 1, 9]), vec![1, 1, 4, 5, 9]);
    assert_eq!(sort_values(&vec![]), Vec::<usize>::new());
    let many: Vec<usize> = (0..500).map(|i| i * 7919 % 503).collect();
    let mut sorted = many.clone();
    sorted.sort_unstable();
    assert_eq!(sort_values(&many), sorted);
}

#[test]
fn a_set_drops_repetitions() {
    assert_eq!(sorted_set(&vec![5, 1, 4, 1, 5]), vec![1, 4, 5]);
    assert_eq!(sorted_set(&vec![]), Vec::<usize>::new());
}

#[test]
fn the_first_of_equal_lows_is_found() {
    assert_eq!(find_first_lowest(&vec![4, 2, 3, 2]), 1);
    assert_eq!(find_first_lowest(&vec![7]), 0);
}
