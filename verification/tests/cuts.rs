use pixel_snapper::cuts::{
    desired_cells, find_first_peak, find_upper_median, median_spacing, rising_spans, sanitize_cuts,
    snap_grid_size_cuts, snap_uniform_cuts, Guide,
};

fn guide(lo: isize, hi: isize, nearest: isize) -> Guide {
    Guide { lo, hi, nearest }
}

#[test]
fn sanitizing_sorts_clamps_and_adds_the_ends() {
    assert_eq!(sanitize_cuts(&vec![7, 3, 3, 12], 10), vec![0, 3, 7, 10]);
    assert_eq!(sanitize_cuts(&vec![5], 0), vec![0]);
    assert_eq!(sanitize_cuts(&vec![], 4), vec![0, 4]);
}

#[test]
fn sanitizing_twice_changes_nothing() {
    let once = sanitize_cuts(&vec![9, 2, 40, 2, 0], 20);
    assert_eq!(once, vec![0, 2, 9, 20]);
    assert_eq!(sanitize_cuts(&once, 20), once);
}

#[test]
fn the_first_of_equal_peaks_is_found() {
    assert_eq!(find_first_peak(&vec![1, 8, 3, 8, 2], 0, 5), 1);
    assert_eq!(find_first_peak(&vec![1, 8, 3, 8, 2], 2, 5), 3);
    assert_eq!(find_first_peak(&vec![0, 0, 0], 1, 3), 1);
}

#[test]
fn the_number_of_cells_is_kept_in_bounds() {
    assert_eq!(desired_cells(10, 4, 100), 10);
    assert_eq!(desired_cells(1, 4, 100), 3);
    assert_eq!(desired_cells(0, 0, 100), 1);
    assert_eq!(desired_cells(500, 4, 100), 100);
}

#[test]
fn uniform_cuts_snap_to_edges() {
    // Edges at 4 and 9 on an axis of 12 that is to have three cells.
    let levels = vec![0, 0, 0, 1, 9, 0, 0, 0, 0, 7, 0, 0];
    let guides = vec![guide(2, 6, 4), guide(6, 10, 8)];
    assert_eq!(snap_uniform_cuts(&levels, 12, &guides, 2), vec![0, 4, 9, 12]);
}

#[test]
fn uniform_cuts_fall_back_to_their_guides() {
    let levels = vec![1; 12];
    let guides = vec![guide(2, 6, 4), guide(6, 10, 8)];
    assert_eq!(snap_uniform_cuts(&levels, 12, &guides, 2), vec![0, 4, 8, 12]);
    // At a threshold of nothing the first place of each window is taken.
    assert_eq!(snap_uniform_cuts(&levels, 12, &guides, 0), vec![0, 2, 6, 12]);
}

#[test]
fn uniform_cuts_on_tiny_axes() {
    let none: Vec<Guide> = vec![];
    assert_eq!(snap_uniform_cuts(&vec![], 0, &none, 0), vec![0]);
    assert_eq!(snap_uniform_cuts(&vec![5], 1, &none, 0), vec![0, 1]);
    // No room is left after the first inner cut.
    let guides = vec![guide(-2, 3, 0), guide(-1, 4, 1)];
    assert_eq!(snap_uniform_cuts(&vec![0, 0], 2, &guides, 1), vec![0, 1, 2]);
}

#[test]
fn counted_cuts_keep_their_number() {
    // The strongest edge is at the far end, but two more cells must fit behind it.
    let levels = vec![0, 0, 0, 0, 0, 9];
    let guides = vec![guide(0, 5, 2), guide(2, 6, 4)];
    assert_eq!(snap_grid_size_cuts(&levels, 6, 3, &guides, 1), vec![0, 2, 5, 6]);
    let all: Vec<Guide> = vec![guide(-1, 3, 1), guide(0, 4, 2)];
    assert_eq!(snap_grid_size_cuts(&vec![0, 0, 0], 3, 3, &all, 0), vec![0, 1, 2, 3]);
    assert_eq!(snap_grid_size_cuts(&vec![], 7, 1, &vec![], 0), vec![0, 7]);
}

#[test]
fn spans_and_their_median() {
    assert_eq!(rising_spans(&vec![0, 3, 3, 8, 6, 7]), vec![3, 5, 1]);
    assert_eq!(median_spacing(&vec![0, 3, 3, 8, 6, 7]), Some(3));
    assert_eq!(median_spacing(&vec![4]), None);
    assert_eq!(find_upper_median(&vec![4, 1, 9, 3]), Some(4));
    assert_eq!(find_upper_median(&vec![]), None);
}

#[test]
fn an_axis_is_divided_into_no_more_cells_than_wanted() {
    // Strong edges at the far end leave no room for the last cuts.
    let levels = vec![0, 0, 0, 0, 0, 0, 0, 9];
    let cells = desired_cells(5, 4, 8);
    let guides: Vec<Guide> = (1..cells as isize).map(|i| guide(i - 7, i + 7, i)).collect();
    let cuts = snap_uniform_cuts(&levels, 8, &guides, 1);
    assert_eq!(cuts, vec![0, 7, 8]);
    assert!(cuts.len() <= cells + 1);
}
