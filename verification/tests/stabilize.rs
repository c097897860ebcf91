use pixel_snapper::stabilize::{stabilize_both_axes, stabilize_cuts, Settlement, Stabilized};
use pixel_snapper::steps::Step;

fn evenly(cells: usize, step: usize) -> Vec<usize> {
    (0..=cells).map(|i| i * step).collect()
}

fn kept(done: Stabilized) -> Vec<usize> {
    match done {
        Stabilized::Keep(cuts) => cuts,
        other => panic!("{:?}", other),
    }
}

fn snapped(done: Stabilized) -> (Step, usize) {
    match done {
        Stabilized::Snap { step, min_required } => (step, min_required),
        other => panic!("{:?}", other),
    }
}

#[test]
fn enough_cuts_are_kept_in_order() {
    let sibling = evenly(8, 5);
    assert_eq!(
        kept(stabilize_cuts(&vec![30, 10, 20, 50], 40, &sibling, 40, 4, 64, false)),
        vec![0, 10, 20, 30, 40]
    );
    assert_eq!(kept(stabilize_cuts(&vec![1, 2], 0, &sibling, 40, 4, 64, true)), vec![0]);
}

#[test]
fn too_few_cuts_take_the_step_of_the_sibling() {
    let sibling = evenly(8, 5);
    assert_eq!(
        snapped(stabilize_cuts(&vec![0, 20], 40, &sibling, 45, 4, 64, false)),
        (Step { num: 45, den: 8 }, 4)
    );
}

#[test]
fn skewed_cuts_take_the_step_of_the_sibling() {
    let sibling = evenly(8, 5);
    let cuts = evenly(4, 10);
    assert_eq!(
        snapped(stabilize_cuts(&cuts, 40, &sibling, 40, 4, 64, true)),
        (Step { num: 40, den: 8 }, 4)
    );
    // A sibling without a grid is no measure.
    assert_eq!(kept(stabilize_cuts(&cuts, 40, &vec![0, 40], 40, 4, 64, true)), cuts);
}

#[test]
fn without_a_sibling_the_fallback_is_used() {
    assert_eq!(
        snapped(stabilize_cuts(&vec![0], 40, &vec![0, 40], 40, 4, 64, false)),
        (Step { num: 40, den: 64 }, 4)
    );
    assert_eq!(
        snapped(stabilize_cuts(&vec![20], 40, &vec![0, 40], 40, 4, 1, false)),
        (Step { num: 40, den: 2 }, 4)
    );
}

#[test]
fn a_short_axis_needs_no_more_cuts_than_places() {
    assert_eq!(kept(stabilize_cuts(&vec![1], 2, &vec![0], 2, 4, 64, false)), vec![0, 1, 2]);
}

#[test]
fn the_axis_with_larger_cells_is_divided_anew() {
    let fine = evenly(8, 5);
    let coarse = evenly(2, 20);
    assert_eq!(stabilize_both_axes(&coarse, &fine, 40, 40, false), Settlement::Keep);
    assert_eq!(
        stabilize_both_axes(&coarse, &fine, 40, 40, true),
        Settlement::Columns(Step { num: 40, den: 8 })
    );
    assert_eq!(
        stabilize_both_axes(&fine, &coarse, 40, 40, true),
        Settlement::Rows(Step { num: 40, den: 8 })
    );
    assert_eq!(stabilize_both_axes(&fine, &fine, 40, 40, true), Settlement::Keep);
    // Cells that are larger by no more than a fifth stay.
    assert_eq!(stabilize_both_axes(&evenly(10, 11), &evenly(11, 10), 110, 110, true), Settlement::Keep);
    assert_eq!(stabilize_both_axes(&evenly(5, 12), &evenly(6, 10), 60, 60, true), Settlement::Keep);
    assert_eq!(
        stabilize_both_axes(&evenly(6, 10), &evenly(5, 13), 60, 65, true),
        Settlement::Rows(Step { num: 60, den: 6 })
    );
    assert_eq!(
        stabilize_both_axes(&vec![0], &fine, 40, 40, true),
        Settlement::Columns(Step { num: 40, den: 8 })
    );
}
