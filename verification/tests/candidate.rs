use pixel_snapper::candidate::{
    make_grid_candidate, plan_attempts, select_grid_candidate, Attempt, GridCandidate, Source,
};
use pixel_snapper::error::PixelSnapperError;
use pixel_snapper::steps::Step;

const RATIO: Step = Step { num: 9, den: 5 };

fn candidate(source: Source, score: u64) -> GridCandidate {
    make_grid_candidate(vec![0, 5], vec![0, 6], source, Some(score)).unwrap()
}

fn walk(num: u64, den: u64, tenths: u64, source: Source) -> Attempt {
    let step = Step { num, den };
    Attempt::Walk { step_x: step, step_y: step, tenths, source }
}

fn plan(
    (num, den): (u64, u64),
    matched: (Option<u32>, Option<u32>),
    (width, height): (u32, u32),
) -> Vec<Attempt> {
    let step = Step { num, den };
    plan_attempts(step, step, matched.0, matched.1, width, height, 64, RATIO)
}

#[test]
fn a_candidate_needs_cells_and_a_score() {
    let made = candidate(Source::LineMesh, 7);
    assert_eq!(made.col_cuts, vec![0, 5]);
    assert_eq!(made.row_cuts, vec![0, 6]);
    assert_eq!((made.source, made.score), (Source::LineMesh, 7));
    assert!(make_grid_candidate(vec![0], vec![0, 6], Source::Detected, Some(1)).is_none());
    assert!(make_grid_candidate(vec![0, 5], vec![0], Source::Detected, Some(1)).is_none());
    assert!(make_grid_candidate(vec![0, 5], vec![0, 6], Source::Detected, None).is_none());
}

#[test]
fn the_first_with_the_highest_score_is_picked() {
    let list = vec![
        None,
        Some(candidate(Source::Detected, 3)),
        Some(candidate(Source::Autocorr, 9)),
        None,
        Some(candidate(Source::LineMesh, 9)),
        Some(candidate(Source::Fixed16, 1)),
    ];
    assert_eq!(select_grid_candidate(list).unwrap().source, Source::Autocorr);
}

#[test]
fn a_score_of_nothing_is_still_a_score() {
    let list = vec![None, Some(candidate(Source::LargerStep, 0))];
    assert_eq!(select_grid_candidate(list).unwrap().source, Source::LargerStep);
}

#[test]
fn nothing_to_pick_from() {
    for outcomes in [vec![], vec![None, None]] {
        match select_grid_candidate(outcomes) {
            Err(PixelSnapperError::ProcessingError(words)) => {
                assert_eq!(words, "No valid grid candidates found")
            }
            other => panic!("{:?}", other),
        }
    }
}

#[test]
fn the_picked_one_beats_the_outcome_of_every_attempt() {
    let attempts = plan((8, 1), (Some(9), None), (128, 200));
    let scores = [5u64, 2, 8, 8, 1, 7, 3];
    let outcomes = scores.iter().map(|&n| Some(candidate(Source::Detected, n))).collect();
    assert_eq!(attempts.len(), scores.len());
    assert_eq!(select_grid_candidate(outcomes).unwrap().score, 8);
}

#[test]
fn names_of_sources() {
    let names = [
        (Source::Detected, "detected"),
        (Source::Autocorr, "autocorr"),
        (Source::LineMesh, "line-mesh"),
        (Source::Reconstruction, "reconstruction"),
        (Source::SmallerStep, "slightly-smaller-step"),
        (Source::LargerStep, "slightly-larger-step"),
        (Source::Fixed16, "fixed-16"),
        (Source::Fixed32, "fixed-32"),
        (Source::Fixed64, "fixed-64"),
    ];
    for (source, name) in names {
        assert_eq!(source.label(), name);
    }
}

#[test]
fn every_way_is_planned() {
    // A side of 128 with a step of 8 makes 16 cells; the profiles match themselves at 9.
    assert_eq!(
        plan((8, 1), (Some(9), None), (128, 200)),
        vec![
            walk(8, 1, 10, Source::Detected),
            walk(9, 1, 10, Source::Autocorr),
            Attempt::LineMesh,
            Attempt::Reconstruction,
            walk(8, 1, 9, Source::SmallerStep),
            walk(8, 1, 11, Source::LargerStep),
            Attempt::Uniform { segments: 16, source: Source::Fixed16 },
        ]
    );
}

#[test]
fn ways_that_lead_nowhere_are_left_out() {
    // A match at 20 is far from 1, nine tenths of 1 are less than a pixel.
    assert_eq!(
        plan((1, 1), (Some(20), Some(20)), (10, 10)),
        vec![
            walk(1, 1, 10, Source::Detected),
            Attempt::LineMesh,
            Attempt::Reconstruction,
            walk(1, 1, 11, Source::LargerStep),
        ]
    );
    assert_eq!(
        plan((200, 64), (None, None), (200, 200)),
        vec![
            walk(200, 64, 10, Source::Detected),
            Attempt::LineMesh,
            Attempt::Reconstruction,
            walk(200, 64, 9, Source::SmallerStep),
            walk(200, 64, 11, Source::LargerStep),
            Attempt::Uniform { segments: 64, source: Source::Fixed64 },
        ]
    );
}

#[test]
fn steps_that_differ_are_planned_for() {
    // The match at 8 is close to 7 and to 8, and the larger step makes 16 cells of 128.
    let (x, y) = (Step { num: 7, den: 1 }, Step { num: 8, den: 1 });
    let eight = Step { num: 8, den: 1 };
    assert_eq!(
        plan_attempts(x, y, Some(8), None, 128, 200, 64, RATIO),
        vec![
            Attempt::Walk { step_x: x, step_y: y, tenths: 10, source: Source::Detected },
            Attempt::Walk { step_x: eight, step_y: eight, tenths: 10, source: Source::Autocorr },
            Attempt::LineMesh,
            Attempt::Reconstruction,
            Attempt::Walk { step_x: x, step_y: y, tenths: 9, source: Source::SmallerStep },
            Attempt::Walk { step_x: x, step_y: y, tenths: 11, source: Source::LargerStep },
            Attempt::Uniform { segments: 16, source: Source::Fixed16 },
        ]
    );
    // Nine tenths of one of the steps are less than a pixel, and the match is close to one of them only.
    let one = Step { num: 1, den: 1 };
    assert_eq!(
        plan_attempts(one, y, Some(8), None, 128, 200, 64, RATIO)[1..4],
        [
            Attempt::LineMesh,
            Attempt::Reconstruction,
            Attempt::Walk { step_x: one, step_y: y, tenths: 11, source: Source::LargerStep },
        ]
    );
}
