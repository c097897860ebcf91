use pixel_snapper::lines::{
    build_line_mesh, detect_strong_line_positions, homogenize_lines, lay_trial,
    make_uniform_offset_cuts, pick_trial, reconstruction_trials, trial_offsets, Trial,
};
use pixel_snapper::steps::Step;

fn whole(n: u64) -> Step {
    Step { num: n, den: 1 }
}

#[test]
fn strong_lines_are_found_once_per_run() {
    let mut levels = vec![0u64; 16];
    levels[4] = 9;
    levels[5] = 7;
    levels[8] = 9;
    levels[12] = 6;
    assert_eq!(detect_strong_line_positions(&levels, 16, 5), Some(vec![0, 4, 8, 12, 16]));
}

#[test]
fn a_peak_next_to_the_start_is_merged_into_it() {
    let mut levels = vec![0u64; 12];
    levels[1] = 9;
    levels[4] = 9;
    levels[8] = 9;
    // The line at 0 becomes (0 + 1 + 1) / 3.
    assert_eq!(detect_strong_line_positions(&levels, 12, 5), Some(vec![0, 4, 8, 12]));
}

#[test]
fn too_few_lines_are_none() {
    let mut levels = vec![0u64; 12];
    levels[6] = 9;
    assert_eq!(detect_strong_line_positions(&levels, 12, 5), None);
    assert_eq!(detect_strong_line_positions(&vec![9, 9], 12, 5), None);
    assert_eq!(detect_strong_line_positions(&vec![9, 9, 9, 9], 1, 5), None);
}

#[test]
fn even_cuts_go_through_the_offset() {
    assert_eq!(make_uniform_offset_cuts(4, 0, 16), vec![0, 4, 8, 12, 16]);
    assert_eq!(make_uniform_offset_cuts(4, 6, 16), vec![0, 2, 6, 10, 14, 16]);
    assert_eq!(make_uniform_offset_cuts(5, 20, 12), vec![0, 5, 10, 12]);
    assert_eq!(make_uniform_offset_cuts(4, 0, 0), vec![0]);
    assert_eq!(make_uniform_offset_cuts(0, 3, 9), vec![0, 9]);
}

#[test]
fn offsets_below_zero_and_far_out() {
    assert_eq!(make_uniform_offset_cuts(5, -1, 16), vec![0, 4, 9, 14, 16]);
    assert_eq!(make_uniform_offset_cuts(5, -5, 16), vec![0, 5, 10, 15, 16]);
    assert_eq!(make_uniform_offset_cuts(1, i128::MIN, 3), vec![0, 1, 2, 3]);
    // The least number is two below a multiple of three.
    assert_eq!(make_uniform_offset_cuts(3, i128::MIN, 9), vec![0, 1, 4, 7, 9]);
}

#[test]
fn a_step_further_the_cuts_are_the_same() {
    for offset in -12i128..12 {
        assert_eq!(
            make_uniform_offset_cuts(7, offset, 40),
            make_uniform_offset_cuts(7, offset + 7, 40)
        );
    }
}

#[test]
fn the_trial_with_the_least_error_is_picked() {
    let trials = reconstruction_trials(whole(2), whole(2));
    let mut errors: Vec<u64> = vec![9; trials.len()];
    errors[2] = 4;
    errors[5] = 4;
    assert_eq!(
        pick_trial(&trials, &errors),
        Some(Trial { step: 2, offset_x: 1, offset_y: 0 })
    );
    assert_eq!(pick_trial(&vec![], &vec![]), None);
}

#[test]
fn every_near_step_and_offset_is_tried() {
    let trials = reconstruction_trials(whole(7), whole(7));
    for step in [6u64, 7, 8] {
        for offset_x in [0usize, 2, 4] {
            for offset_y in [0usize, 2, 4] {
                assert!(trials.contains(&Trial { step, offset_x, offset_y }));
            }
        }
    }
}

#[test]
fn a_trial_is_laid_on_both_axes() {
    let (cols, rows) = lay_trial(Trial { step: 4, offset_x: 1, offset_y: 0 }, 10, 9);
    assert_eq!(cols, vec![0, 1, 5, 9, 10]);
    assert_eq!(rows, vec![0, 4, 8, 9]);
}

#[test]
fn even_cuts_agree_with_reckoning_in_fractions() {
    for step in 2u64..9 {
        for offset in -9i128..9 {
            for limit in 1usize..40 {
                let mut cuts = vec![0, limit];
                let mut pos = (offset as f64).rem_euclid(step as f64);
                if pos < 1.0 {
                    pos += step as f64;
                }
                while pos < limit as f64 {
                    let cut = pos.round() as usize;
                    if cut > 0 && cut < limit {
                        cuts.push(cut);
                    }
                    pos += step as f64;
                }
                cuts.sort_unstable();
                cuts.dedup();
                assert_eq!(make_uniform_offset_cuts(step, offset, limit), cuts);
            }
        }
    }
}

#[test]
fn homogenized_lines_start_from_the_first_inner_one() {
    assert_eq!(homogenize_lines(&vec![0, 3, 9, 16], 6, 16), vec![0, 3, 9, 15, 16]);
    assert_eq!(homogenize_lines(&vec![0, 16], 8, 16), vec![0, 8, 16]);
    assert_eq!(homogenize_lines(&vec![0], 8, 16), vec![0, 16]);
    assert_eq!(homogenize_lines(&vec![0, 16], 0, 16), vec![0, 16]);
}

#[test]
fn a_mesh_needs_lines_at_the_expected_distance() {
    let mut levels = vec![0u64; 16];
    levels[4] = 9;
    levels[8] = 9;
    levels[12] = 9;
    let mesh = build_line_mesh(&levels, &levels, 5, 5, 16, 16, whole(4), whole(4));
    assert_eq!(mesh, Some((vec![0, 4, 8, 12, 16], vec![0, 4, 8, 12, 16])));
    let far = build_line_mesh(&levels, &levels, 5, 5, 16, 16, whole(6), whole(4));
    assert_eq!(far, None);
    let flat = vec![0u64; 16];
    assert_eq!(build_line_mesh(&levels, &flat, 5, 5, 16, 16, whole(4), whole(4)), None);
}

#[test]
fn offsets_that_are_tried() {
    assert_eq!(trial_offsets(2), vec![0, 1]);
    assert_eq!(trial_offsets(5), vec![0, 1, 2, 3, 4]);
    assert_eq!(trial_offsets(6), vec![0, 2, 4]);
    assert_eq!(trial_offsets(100), vec![0, 2, 4, 6]);
}

#[test]
fn trials_of_evenly_spaced_cuts() {
    // Around a step of two, two itself is tried twice and three is too far off.
    let trials = reconstruction_trials(whole(2), whole(2));
    let seen: Vec<(u64, usize, usize)> =
        trials.iter().map(|t| (t.step, t.offset_x, t.offset_y)).collect();
    let round = vec![(2, 0, 0), (2, 0, 1), (2, 1, 0), (2, 1, 1)];
    assert_eq!(seen, [round.clone(), round].concat());
    assert!(reconstruction_trials(whole(1), whole(1)).is_empty());
    // Seven, eight and nine, each with offsets 0, 2, 4 and 6.
    assert_eq!(reconstruction_trials(whole(8), whole(8)).len(), 48);
}

#[test]
fn a_line_is_the_first_highest_of_its_run() {
    // A plateau, and a run that goes on to the last place but one.
    let levels = vec![0u64, 0, 5, 9, 9, 6, 0, 7, 0, 0, 6, 8, 9];
    assert_eq!(detect_strong_line_positions(&levels, 13, 5), Some(vec![0, 3, 7, 11, 13]));
    // Lines beyond the axis are left out.
    assert_eq!(detect_strong_line_positions(&levels, 9, 5), Some(vec![0, 3, 7, 9]));
}
