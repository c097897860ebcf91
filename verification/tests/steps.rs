use pixel_snapper::steps::{
    autocorr_agrees, estimate_step_size, estimate_step_size_autocorr, expected_segments,
    find_larger_step, find_trial_steps, fixed_segments, max_lag, resolve_step_sizes, step_close, Step,
};

const RATIO: Step = Step { num: 9, den: 5 };

fn step(num: u64, den: u64) -> Step {
    Step { num, den }
}

fn profile(places: &[usize], length: usize) -> Vec<u64> {
    let mut levels = vec![0; length];
    for &place in places {
        levels[place] = 10;
    }
    levels
}

#[test]
fn the_step_is_the_median_distance_of_peaks() {
    assert_eq!(estimate_step_size(&profile(&[5, 13, 21, 30], 40), 2, 4), Some(8));
    assert_eq!(estimate_step_size(&profile(&[5, 13, 23], 40), 2, 4), Some(10));
}

#[test]
fn peaks_too_close_to_another_are_passed_over() {
    assert_eq!(estimate_step_size(&profile(&[5, 7, 13, 16, 21], 40), 2, 4), Some(8));
    assert_eq!(estimate_step_size(&profile(&[5, 8], 40), 2, 4), None);
    assert_eq!(estimate_step_size(&profile(&[5, 9], 40), 2, 4), Some(4));
}

#[test]
fn no_step_without_two_peaks() {
    assert_eq!(estimate_step_size(&profile(&[5], 40), 2, 4), None);
    assert_eq!(estimate_step_size(&profile(&[5, 13], 40), 10, 4), None);
    assert_eq!(estimate_step_size(&profile(&[0, 39], 40), 2, 4), None);
    assert_eq!(estimate_step_size(&vec![], 0, 4), None);
    assert_eq!(estimate_step_size(&vec![3], 0, 4), None);
}

#[test]
fn how_far_a_profile_is_shifted() {
    assert_eq!(max_lag(5), None);
    assert_eq!(max_lag(6), Some(3));
    assert_eq!(max_lag(511), Some(255));
    assert_eq!(max_lag(512), Some(256));
    assert_eq!(max_lag(10000), Some(256));
}

#[test]
fn the_best_shift_must_score_above_zero() {
    assert_eq!(estimate_step_size_autocorr(&vec![3, 9, 9, 1], 5), Some(3));
    assert_eq!(estimate_step_size_autocorr(&vec![3, 5, 1], 5), None);
    assert_eq!(estimate_step_size_autocorr(&vec![], 5), None);
}

#[test]
fn steps_that_differ_too_much_give_the_smaller() {
    assert_eq!(resolve_step_sizes(Some(8), Some(10), 100, 100, 64, RATIO), step(18, 2));
    assert_eq!(resolve_step_sizes(Some(5), Some(9), 100, 100, 64, RATIO), step(14, 2));
    assert_eq!(resolve_step_sizes(Some(5), Some(10), 100, 100, 64, RATIO), step(5, 1));
    assert_eq!(resolve_step_sizes(Some(10), Some(5), 100, 100, 64, RATIO), step(5, 1));
}

#[test]
fn one_step_serves_both_axes() {
    assert_eq!(resolve_step_sizes(Some(7), None, 100, 100, 64, RATIO), step(7, 1));
    assert_eq!(resolve_step_sizes(Some(7), None, 100, 100, 0, RATIO), step(7, 1));
    assert_eq!(resolve_step_sizes(None, Some(3), 100, 100, 64, RATIO), step(3, 1));
    assert_eq!(resolve_step_sizes(None, None, 300, 200, 64, RATIO), step(200, 64));
    assert_eq!(resolve_step_sizes(None, None, 30, 200, 64, RATIO), step(1, 1));
}

#[test]
fn closeness_goes_from_three_to_five_quarters() {
    assert!(step_close(step(3, 1), step(4, 1)));
    assert!(step_close(step(5, 1), step(4, 1)));
    assert!(step_close(step(9, 2), step(9, 2)));
    assert!(!step_close(step(2, 1), step(4, 1)));
    assert!(!step_close(step(6, 1), step(4, 1)));
    assert!(!step_close(step(0, 1), step(4, 1)));
    assert!(!step_close(step(4, 1), step(0, 1)));
}

#[test]
fn closeness_agrees_with_reckoning_in_fractions() {
    for candidate in 1u64..60 {
        for num in 1u64..200 {
            for den in [1u64, 2, 64] {
                let ratio = candidate as f64 / (num as f64 / den as f64);
                assert_eq!(
                    step_close(step(candidate, 1), step(num, den)),
                    (0.75..=1.25).contains(&ratio)
                );
            }
        }
    }
}

#[test]
fn a_matched_step_is_held_against_at_least_one_pixel() {
    assert!(autocorr_agrees(step(9, 1), step(8, 1)));
    assert!(!autocorr_agrees(step(16, 1), step(8, 1)));
    assert!(autocorr_agrees(step(1, 1), step(1, 2)));
}

#[test]
fn segments_are_rounded_half_up() {
    assert_eq!(expected_segments(100, 64, step(4, 1)), 16);
    assert_eq!(expected_segments(30, 40, step(4, 1)), 8);
    assert_eq!(expected_segments(29, 40, step(4, 1)), 7);
    assert_eq!(expected_segments(29, 40, step(1, 4)), 29);
}

#[test]
fn round_numbers_near_the_expected_one_are_tried() {
    assert_eq!(fixed_segments(16, 200), vec![16]);
    assert_eq!(fixed_segments(26, 200), vec![32]);
    assert_eq!(fixed_segments(60, 200), vec![64]);
    assert_eq!(fixed_segments(60, 63), Vec::<u32>::new());
    assert_eq!(fixed_segments(0, 200), Vec::<u32>::new());
    assert_eq!(fixed_segments(22, 200), Vec::<u32>::new());
}

#[test]
fn whole_steps_around_the_mean() {
    assert_eq!(find_trial_steps(step(8, 1), step(8, 1)), vec![7, 8, 9]);
    assert_eq!(find_trial_steps(step(9, 2), step(9, 2)), vec![4, 5]);
    assert_eq!(find_trial_steps(step(2, 1), step(2, 1)), vec![2, 2]);
    assert_eq!(find_trial_steps(step(1, 1), step(1, 1)), Vec::<u64>::new());
    assert_eq!(find_trial_steps(step(4, 1), step(8, 1)), Vec::<u64>::new());
}

#[test]
fn the_larger_of_two_steps() {
    assert_eq!(find_larger_step(step(7, 2), step(10, 3)), step(7, 2));
    assert_eq!(find_larger_step(step(10, 3), step(7, 2)), step(7, 2));
    assert_eq!(find_larger_step(step(4, 2), step(2, 1)), step(4, 2));
}
