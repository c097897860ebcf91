//! Step sizes: how many pixels of an image make up one pixel of the art.

use vstd::prelude::*;
use crate::cuts::{
    find_first_peak, find_upper_median, first_peak, first_peak_is_highest,
    median_is_in_the_middle, rising_spans, spans, spans_of_rising_cuts, upper_median,
};
use crate::order::{increasing, sorted_values, sorted_values_arrange};

verus! {

/// A step size, as a fraction.
#[derive(Clone, Copy, Debug, PartialEq, Eq, Structural)]
pub struct Step {
    pub num: u64,
    pub den: u64,
}

impl Step {
    /// The fraction has a value, and its lower part is small enough to reckon with.
    pub open spec fn wf(self) -> bool {
        0 < self.den <= 0x1_0000_0000
    }
}

/// The level stands out: it is above the threshold and above its two neighbours.
pub open spec fn is_peak(levels: Seq<u64>, threshold: u64, i: int) -> bool {
    levels[i] > threshold && levels[i] > levels[i - 1] && levels[i] > levels[i + 1]
}

/// The places below `n`, but not the first, whose levels stand out.
pub open spec fn peaks(levels: Seq<u64>, threshold: u64, n: int) -> Seq<usize>
    decreases n,
{
    if n <= 1 {
        seq![]
    } else {
        let before = peaks(levels, threshold, n - 1);
        if is_peak(levels, threshold, n - 1) {
            before.push((n - 1) as usize)
        } else {
            before
        }
    }
}

/// Of the first `n` places, those that are far enough from the one kept before them.
pub open spec fn spaced(places: Seq<usize>, gap: usize, n: int) -> Seq<usize>
    decreases n,
{
    if n <= 0 {
        seq![]
    } else {
        let before = spaced(places, gap, n - 1);
        if before.len() == 0 || places[n - 1] - before.last() >= gap {
            before.push(places[n - 1])
        } else {
            before
        }
    }
}

/// The places whose levels stand out, without those too close to one before them.
pub open spec fn clean_peaks(levels: Seq<u64>, threshold: u64, gap: usize) -> Seq<usize> {
    let all = peaks(levels, threshold, levels.len() - 1);
    spaced(all, gap, all.len() as int)
}

/// The typical distance between peaks.
pub open spec fn typical_distance(levels: Seq<u64>, threshold: u64, gap: usize) -> Option<usize> {
    let clean = clean_peaks(levels, threshold, gap);
    upper_median(spans(clean, clean.len()))
}

/// Values that are at least a gap apart have one distance between each two neighbours, none below
/// the gap.
pub proof fn spans_of_spaced(s: Seq<usize>, n: nat, gap: usize)
    requires
        n <= s.len(),
        forall|i: int, j: int| 0 <= i < j < s.len() ==> s[j] - s[i] >= gap,
        gap > 0,
    ensures
        spans(s, n).len() == if n < 2 { 0 } else { n - 1 },
        forall|i: int| 0 <= i < spans(s, n).len() ==> #[trigger] spans(s, n)[i] >= gap,
    decreases n,
{
    if n >= 2 {
        spans_of_spaced(s, (n - 1) as nat, gap);
        assert(s[n - 1] - s[n - 2] >= gap);
    }
}

/// The kept places are at least the gap apart.
proof fn lemma_spaced(places: Seq<usize>, gap: usize, n: int)
    requires
        0 <= n <= places.len(),
    ensures
        forall|i: int, j: int|
            0 <= i < j < spaced(places, gap, n).len() ==> spaced(places, gap, n)[j] - spaced(
                places,
                gap,
                n,
            )[i] >= gap,
        n > 0 ==> spaced(places, gap, n).len() > 0,
    decreases n,
{
    if n > 0 {
        lemma_spaced(places, gap, n - 1);
        let before = spaced(places, gap, n - 1);
        let kept = spaced(places, gap, n);
        assert forall|i: int, j: int| 0 <= i < j < kept.len() implies kept[j] - kept[i] >= gap by {
            if j < before.len() {
                assert(kept[i] == before[i] && kept[j] == before[j]);
            } else if i < before.len() - 1 {
                assert(before[before.len() - 1] - before[i] >= gap);
            }
        }
    }
}

/// The typical distance between peaks is known just when there are two peaks far enough apart, and
/// is then at least the gap that peaks must have.
pub proof fn typical_distance_is_at_least_gap(levels: Seq<u64>, threshold: u64, gap: usize)
    requires
        gap > 0,
    ensures
        typical_distance(levels, threshold, gap) is Some <==> clean_peaks(
            levels,
            threshold,
            gap,
        ).len() >= 2,
        typical_distance(levels, threshold, gap) matches Some(d) ==> d >= gap,
{
    let all = peaks(levels, threshold, levels.len() - 1);
    let clean = clean_peaks(levels, threshold, gap);
    lemma_spaced(all, gap, all.len() as int);
    spans_of_spaced(clean, clean.len(), gap);
    let s = spans(clean, clean.len());
    if s.len() > 0 {
        sorted_values_arrange(s);
        let middle = sorted_values(s)[s.len() as int / 2];
        assert(sorted_values(s).contains(middle));
        assert(s.contains(middle));
    }
}

/// Estimates the step size of an axis from the distances between its peaks. Peaks closer than `gap`
/// to the one before them are passed over.
pub fn estimate_step_size(levels: &Vec<u64>, threshold: u64, gap: usize) -> (step: Option<usize>)
    requires
        gap > 0,
    ensures
        step == typical_distance(levels@, threshold, gap),
        step matches Some(d) ==> gap <= d < levels@.len(),
{
    let mut clean: Vec<usize> = Vec::new();
    let mut i: usize = 1;
    let ghost found: Seq<usize> = seq![];
    let count: usize = levels.len();
    proof {
        assert(found =~= peaks(levels@, threshold, 1));
        assert(clean@ =~= spaced(found, gap, 0));
        assert(peaks(levels@, threshold, levels@.len() - 1) =~= found || levels@.len() > 2);
    }
    while i < count && count - i > 1
        invariant
            count == levels@.len(),
            1 <= i,
            count >= 2 ==> i <= count - 1,
            count < 2 ==> i == 1,
            found == peaks(levels@, threshold, i as int),
            clean@ == spaced(found, gap, found.len() as int),
            increasing(clean@),
            clean@.len() > 0 ==> clean@.last() < i,
            forall|k: int| 0 <= k < clean@.len() ==> 1 <= #[trigger] clean@[k] < i,
            gap > 0,
        decreases count - i,
    {
        if levels[i] > threshold && levels[i] > levels[i - 1] && levels[i] > levels[i + 1] {
            let ghost before = found;
            proof {
                found = found.push(i);
                lemma_spaced_prefix(before, found, gap, before.len() as int);
            }
            if clean.len() == 0 || i - clean[clean.len() - 1] >= gap {
                clean.push(i);
            }
        }
        i += 1;
    }
    proof {
        if count >= 2 {
            assert(i == count - 1);
        } else {
            assert(peaks(levels@, threshold, levels@.len() - 1) =~= found);
        }
        assert(clean@ == clean_peaks(levels@, threshold, gap));
        typical_distance_is_at_least_gap(levels@, threshold, gap);
        lemma_spans_below(clean@, clean@.len(), levels@.len() as int);
        let s = spans(clean@, clean@.len());
        if s.len() > 0 {
            sorted_values_arrange(s);
            let middle = sorted_values(s)[s.len() as int / 2];
            assert(sorted_values(s).contains(middle));
            assert(s.contains(middle));
        }
    }
    find_upper_median(&rising_spans(&clean))
}

/// What is kept of the first places depends on those alone.
proof fn lemma_spaced_prefix(a: Seq<usize>, b: Seq<usize>, gap: usize, n: int)
    requires
        0 <= n <= a.len(),
        a.len() <= b.len(),
        forall|i: int| 0 <= i < n ==> a[i] == b[i],
    ensures
        spaced(a, gap, n) == spaced(b, gap, n),
    decreases n,
{
    if n > 0 {
        lemma_spaced_prefix(a, b, gap, n - 1);
    }
}

/// Distances between values below a bound are below it.
proof fn lemma_spans_below(s: Seq<usize>, n: nat, bound: int)
    requires
        n <= s.len(),
        forall|k: int| 0 <= k < s.len() ==> #[trigger] s[k] < bound,
    ensures
        forall|i: int| 0 <= i < spans(s, n).len() ==> #[trigger] spans(s, n)[i] < bound,
    decreases n,
{
    if n >= 2 {
        lemma_spans_below(s, (n - 1) as nat, bound);
        let before = spans(s, (n - 1) as nat);
        let all = spans(s, n);
        assert forall|i: int| 0 <= i < all.len() implies #[trigger] all[i] < bound by {
            if i < before.len() {
                assert(all[i] == before[i]);
            } else {
                assert(s[n - 1] < bound);
                assert(all[i] == s[n - 1] - s[n - 2]);
            }
        }
    }
}

/// The longest shift at which a profile of the given length is held against itself. Shifts start at
/// two; a profile of fewer than six levels is too short for any.
pub open spec fn longest_lag(length: usize) -> Option<usize> {
    if length < 6 {
        None
    } else if length / 2 < 256 {
        Some((length / 2) as usize)
    } else {
        Some(256)
    }
}

/// Tells how far a profile is shifted against itself at most.
pub fn max_lag(length: usize) -> (lag: Option<usize>)
    ensures
        lag == longest_lag(length),
{
    if length < 6 {
        None
    } else if length / 2 < 256 {
        Some(length / 2)
    } else {
        Some(256)
    }
}

/// Estimates the step size of an axis from how well its profile matches itself: the shift with the
/// highest score, if that is above `zero`. Scores are levels; the first is for a shift of two.
pub fn estimate_step_size_autocorr(scores: &Vec<u64>, zero: u64) -> (step: Option<usize>)
    requires
        scores@.len() <= usize::MAX - 2,
    ensures
        scores@.len() == 0 ==> step is None,
        scores@.len() > 0 ==> step == ({
            let best = first_peak(scores@, 0, scores@.len() as int);
            if scores@[best] > zero {
                Some((best + 2) as usize)
            } else {
                None
            }
        }),
        match step {
            Some(lag) => {
                &&& 2 <= lag < scores@.len() + 2
                &&& scores@[lag - 2] > zero
                &&& forall|i: int|
                    0 <= i < scores@.len() ==> #[trigger] scores@[i] <= scores@[lag - 2]
                &&& forall|i: int| 0 <= i < lag - 2 ==> #[trigger] scores@[i] < scores@[lag - 2]
            },
            None => forall|i: int| 0 <= i < scores@.len() ==> #[trigger] scores@[i] <= zero,
        },
{
    if scores.len() == 0 {
        return None;
    }
    proof {
        first_peak_is_highest(scores@, 0, scores@.len() as int);
    }
    let best: usize = find_first_peak(scores, 0, scores.len());
    if scores[best] > zero {
        Some(best + 2)
    } else {
        None
    }
}

/// The step size that the two axes share: where both are known, their mean, or the smaller one if
/// they differ by more than the ratio allows; where one is known, that one; else what divides the
/// shorter side into the given number of segments, but at least one pixel.
pub open spec fn shared_step(
    step_x: Option<u32>,
    step_y: Option<u32>,
    width: u32,
    height: u32,
    segments: u32,
    max_ratio: Step,
) -> Step {
    match (step_x, step_y) {
        (Some(x), Some(y)) => {
            let (low, high) = if x < y { (x, y) } else { (y, x) };
            if high * max_ratio.den > low * max_ratio.num {
                Step { num: low as u64, den: 1 }
            } else {
                Step { num: (x + y) as u64, den: 2 }
            }
        },
        (Some(x), None) => Step { num: x as u64, den: 1 },
        (None, Some(y)) => Step { num: y as u64, den: 1 },
        (None, None) => {
            let side = if width < height { width } else { height };
            if side < segments {
                Step { num: 1, den: 1 }
            } else {
                Step { num: side as u64, den: segments as u64 }
            }
        },
    }
}

/// Settles on one step size for both axes.
pub fn resolve_step_sizes(
    step_x: Option<u32>,
    step_y: Option<u32>,
    width: u32,
    height: u32,
    segments: u32,
    max_ratio: Step,
) -> (step: Step)
    requires
        step_x is None && step_y is None ==> segments > 0,
    ensures
        step == shared_step(step_x, step_y, width, height, segments, max_ratio),
        step.wf(),
{
    match (step_x, step_y) {
        (Some(x), Some(y)) => {
            let (low, high): (u32, u32) = if x < y {
                (x, y)
            } else {
                (y, x)
            };
            proof {
                assert(high * max_ratio.den <= u128::MAX && low * max_ratio.num <= u128::MAX)
                    by (nonlinear_arith)
                    requires
                        high <= u32::MAX,
                        low <= u32::MAX,
                        max_ratio.den <= u64::MAX,
                        max_ratio.num <= u64::MAX,
                ;
                assert(0 <= high * max_ratio.den && 0 <= low * max_ratio.num) by (nonlinear_arith)
                    requires
                        0 <= high,
                        0 <= low,
                        0 <= max_ratio.den,
                        0 <= max_ratio.num,
                ;
            }
            if high as u128 * max_ratio.den as u128 > low as u128 * max_ratio.num as u128 {
                Step { num: low as u64, den: 1 }
            } else {
                Step { num: x as u64 + y as u64, den: 2 }
            }
        },
        (Some(x), None) => Step { num: x as u64, den: 1 },
        (None, Some(y)) => Step { num: y as u64, den: 1 },
        (None, None) => {
            let side: u32 = if width < height {
                width
            } else {
                height
            };
            if side < segments {
                Step { num: 1, den: 1 }
            } else {
                Step { num: side as u64, den: segments as u64 }
            }
        },
    }
}

/// Which axis is given first makes no difference to the shared step.
pub proof fn shared_step_is_symmetric(
    step_x: Option<u32>,
    step_y: Option<u32>,
    width: u32,
    height: u32,
    segments: u32,
    max_ratio: Step,
)
    ensures
        shared_step(step_x, step_y, width, height, segments, max_ratio) == shared_step(
            step_y,
            step_x,
            height,
            width,
            segments,
            max_ratio,
        ),
{
}

/// The first step is between three quarters and five quarters of the second, and both are above zero.
pub open spec fn is_close(candidate: Step, expected: Step) -> bool {
    let c = candidate.num * expected.den;
    let e = expected.num * candidate.den;
    candidate.num > 0 && expected.num > 0 && 3 * e <= 4 * c && 4 * c <= 5 * e
}

/// Products of the parts of two steps are small.
proof fn lemma_product(a: u64, b: u64)
    requires
        b <= 0x1_0000_0000,
    ensures
        0 <= a * b <= 0x1_0000_0000_0000_0000_0000_0000,
{
    assert(0 <= a * b <= 0x1_0000_0000_0000_0000_0000_0000) by (nonlinear_arith)
        requires
            0 <= a <= 0xffff_ffff_ffff_ffff,
            0 <= b <= 0x1_0000_0000,
    ;
}

/// Tells whether a step is close to the expected one.
pub fn step_close(candidate: Step, expected: Step) -> (close: bool)
    requires
        candidate.wf(),
        expected.wf(),
    ensures
        close == is_close(candidate, expected),
{
    proof {
        lemma_product(candidate.num, expected.den);
        lemma_product(expected.num, candidate.den);
    }
    let c: u128 = candidate.num as u128 * expected.den as u128;
    let e: u128 = expected.num as u128 * candidate.den as u128;
    candidate.num > 0 && expected.num > 0 && 3 * e <= 4 * c && 4 * c <= 5 * e
}

/// A step above zero is close to itself.
pub proof fn step_is_close_to_itself(step: Step)
    requires
        step.num > 0,
        step.den > 0,
    ensures
        is_close(step, step),
{
    assert(step.num * step.den >= 0) by (nonlinear_arith)
        requires
            step.num > 0,
            step.den > 0,
    ;
}

/// The step, or one pixel if the step is smaller.
pub open spec fn at_least_one(step: Step) -> Step {
    if step.num < step.den {
        Step { num: 1, den: 1 }
    } else {
        step
    }
}

/// Tells whether the step that a profile matches itself at is close to the detected one.
pub fn autocorr_agrees(matched: Step, detected: Step) -> (agrees: bool)
    requires
        matched.wf(),
        detected.wf(),
    ensures
        agrees == is_close(matched, at_least_one(detected)),
{
    let base: Step = if detected.num < detected.den {
        Step { num: 1, den: 1 }
    } else {
        detected
    };
    step_close(matched, base)
}

/// The larger of two steps, the first where they are the same.
pub open spec fn larger_step(x: Step, y: Step) -> Step {
    if x.num * y.den < y.num * x.den {
        y
    } else {
        x
    }
}

/// Tells which of two steps is larger.
pub fn find_larger_step(x: Step, y: Step) -> (larger: Step)
    requires
        x.wf(),
        y.wf(),
    ensures
        larger == larger_step(x, y),
        larger.wf(),
{
    proof {
        lemma_product(x.num, y.den);
        lemma_product(y.num, x.den);
    }
    if (x.num as u128 * y.den as u128) < y.num as u128 * x.den as u128 {
        y
    } else {
        x
    }
}

/// How often a step goes into a length, rounded to the nearest whole number and up where two are
/// equally near.
pub open spec fn rounded_count(length: u32, step: Step) -> int {
    (2 * length * step.den + step.num) / (2 * step.num as int)
}

/// Counts how often the step, of at least one pixel, goes into the shorter side of an image.
pub fn expected_segments(width: u32, height: u32, step: Step) -> (count: u64)
    requires
        step.wf(),
    ensures
        count == rounded_count(if width < height { width } else { height }, at_least_one(step)),
{
    let base: Step = if step.num < step.den {
        Step { num: 1, den: 1 }
    } else {
        step
    };
    let side: u32 = if width < height {
        width
    } else {
        height
    };
    proof {
        lemma_product(side as u64, base.den);
        let top = 2 * side * base.den + base.num;
        let bottom = 2 * base.num as int;
        assert(2 * side * base.den == 2 * (side * base.den)) by (nonlinear_arith);
        assert(side * base.den <= side * base.num) by (nonlinear_arith)
            requires
                base.den <= base.num,
                0 <= side,
        ;
        assert(side * bottom == 2 * (side * base.num)) by (nonlinear_arith)
            requires
                bottom == 2 * base.num,
        ;
        assert(0 <= top / bottom <= side + 1) by (nonlinear_arith)
            requires
                0 < bottom,
                0 <= top,
                top <= side * bottom + base.num,
                bottom == 2 * base.num,
        ;
    }
    let top: u128 = 2 * (side as u128 * base.den as u128) + base.num as u128;
    (top / (2 * base.num as u128)) as u64
}

/// A grid of the given number of segments is worth a try: the shorter side has room for them, and
/// their number is between three quarters and five quarters of the expected one.
pub open spec fn is_worth_a_try(segments: u32, expected: u64, side: u32) -> bool {
    let base = if expected < 1 { 1 } else { expected as int };
    segments <= side && 3 * base <= 4 * segments && 4 * segments <= 5 * base
}

/// Lists the round numbers of segments that are worth a try.
pub fn fixed_segments(expected: u64, side: u32) -> (list: Vec<u32>)
    ensures
        list@ == seq![16u32, 32u32, 64u32].filter(|n: u32| is_worth_a_try(n, expected, side)),
{
    let all: [u32; 3] = [16, 32, 64];
    let ghost keep = |n: u32| is_worth_a_try(n, expected, side);
    let ghost whole = seq![16u32, 32u32, 64u32];
    let base: u128 = if expected < 1 {
        1
    } else {
        expected as u128
    };
    let mut list: Vec<u32> = Vec::new();
    let mut i: usize = 0;
    proof {
        reveal(Seq::filter);
        assert(whole.take(0) =~= Seq::<u32>::empty());
        assert(list@ =~= whole.take(0).filter(keep));
    }
    while i < 3
        invariant
            i <= 3,
            all@ == whole,
            whole == seq![16u32, 32u32, 64u32],
            keep == (|n: u32| is_worth_a_try(n, expected, side)),
            base == if expected < 1 { 1 } else { expected as int },
            list@ == whole.take(i as int).filter(keep),
        decreases 3 - i,
    {
        let n: u32 = all[i];
        proof {
            reveal(Seq::filter);
            assert(whole.take(i + 1).drop_last() =~= whole.take(i as int));
            assert(whole.take(i + 1).last() == n);
            assert(keep(n) == is_worth_a_try(n, expected, side));
        }
        if n <= side && 3 * base <= 4 * n as u128 && 4 * n as u128 <= 5 * base {
            list.push(n);
        }
        i += 1;
    }
    proof {
        assert(whole.take(3) =~= whole);
    }
    list
}

/// The mean of two steps, rounded to the nearest whole number and up where two are equally near.
pub open spec fn rounded_mean(x: Step, y: Step) -> int {
    let n = x.num * y.den + y.num * x.den;
    let d = 2 * (x.den * y.den);
    (2 * n + d) / (2 * d)
}

/// The whole steps around the mean of the expected ones that are close to both: one less than it, the
/// mean itself, and one more, but none below two. Nothing is tried for a mean below two.
pub open spec fn trial_steps(x: Step, y: Step) -> Seq<int> {
    let base = rounded_mean(x, y);
    if base < 2 {
        seq![]
    } else {
        let low = if base - 1 < 2 { 2 } else { base - 1 };
        seq![low, base, base + 1].filter(
            |s: int|
                is_close(Step { num: s as u64, den: 1 }, x) && is_close(
                    Step { num: s as u64, den: 1 },
                    y,
                ),
        )
    }
}

/// Lists the whole steps that are tried for evenly spaced cuts.
pub fn find_trial_steps(x: Step, y: Step) -> (steps: Vec<u64>)
    requires
        x.wf(),
        y.wf(),
        x.num < u64::MAX,
        y.num < u64::MAX,
    ensures
        steps@.map_values(|s: u64| s as int) == trial_steps(x, y),
        forall|i: int| 0 <= i < steps@.len() ==> 2 <= #[trigger] steps@[i],
{
    proof {
        lemma_product(x.num, y.den);
        lemma_product(y.num, x.den);
        lemma_product(x.den, y.den);
        lemma_mean_bound(x, y);
        assert(x.den * y.den > 0) by (nonlinear_arith)
            requires
                x.den > 0,
                y.den > 0,
        ;
    }
    let n: u128 = x.num as u128 * y.den as u128 + y.num as u128 * x.den as u128;
    let d: u128 = 2 * (x.den as u128 * y.den as u128);
    let base: u64 = ((2 * n + d) / (2 * d)) as u64;
    let mut steps: Vec<u64> = Vec::new();
    let ghost view = |s: u64| s as int;
    if base < 2 {
        proof {
            assert(steps@.map_values(view) =~= Seq::<int>::empty());
        }
        return steps;
    }
    let low: u64 = if base - 1 < 2 {
        2
    } else {
        base - 1
    };
    let all: [u64; 3] = [low, base, base + 1];
    let ghost whole = seq![low as int, base as int, base + 1];
    let ghost keep = |s: int|
        is_close(Step { num: s as u64, den: 1 }, x) && is_close(Step { num: s as u64, den: 1 }, y);
    let mut i: usize = 0;
    proof {
        reveal(Seq::filter);
        assert(whole.take(0) =~= Seq::<int>::empty());
        assert(steps@.map_values(view) =~= whole.take(0).filter(keep));
    }
    while i < 3
        invariant
            i <= 3,
            x.wf(),
            y.wf(),
            2 <= base < u64::MAX,
            2 <= low <= base,
            all@ == seq![low, base, (base + 1) as u64],
            whole == seq![low as int, base as int, base + 1],
            keep == (|s: int|
                is_close(Step { num: s as u64, den: 1 }, x) && is_close(
                    Step { num: s as u64, den: 1 },
                    y,
                )),
            view == (|s: u64| s as int),
            steps@.map_values(view) == whole.take(i as int).filter(keep),
            forall|k: int| 0 <= k < steps@.len() ==> 2 <= #[trigger] steps@[k],
        decreases 3 - i,
    {
        let s: u64 = all[i];
        let step: Step = Step { num: s, den: 1 };
        proof {
            reveal(Seq::filter);
            assert(whole.take(i + 1).drop_last() =~= whole.take(i as int));
            assert(whole.take(i + 1).last() == s);
            assert(keep(s as int) == (is_close(step, x) && is_close(step, y)));
        }
        let ghost before = steps@;
        if step_close(step, x) && step_close(step, y) {
            steps.push(s);
            proof {
                assert(steps@.map_values(view) =~= before.map_values(view).push(s as int));
            }
        }
        i += 1;
    }
    proof {
        assert(whole.take(3) =~= whole);
    }
    steps
}

/// The mean of two steps is not above the range of both.
proof fn lemma_mean_bound(x: Step, y: Step)
    requires
        x.wf(),
        y.wf(),
        x.num < u64::MAX,
        y.num < u64::MAX,
    ensures
        0 <= rounded_mean(x, y) < u64::MAX,
{
    let n = x.num * y.den + y.num * x.den;
    let p = x.den * y.den;
    let top = u64::MAX as int;
    assert(p > 0) by (nonlinear_arith)
        requires
            x.den > 0,
            y.den > 0,
            p == x.den * y.den,
    ;
    assert(x.num * y.den <= (top - 1) * p) by (nonlinear_arith)
        requires
            0 <= x.num <= top - 1,
            x.den > 0,
            y.den > 0,
            p == x.den * y.den,
    ;
    assert(y.num * x.den <= (top - 1) * p) by (nonlinear_arith)
        requires
            0 <= y.num <= top - 1,
            x.den > 0,
            y.den > 0,
            p == x.den * y.den,
    ;
    assert(0 <= n) by (nonlinear_arith)
        requires
            n == x.num * y.den + y.num * x.den,
            x.num >= 0,
            y.num >= 0,
            x.den > 0,
            y.den > 0,
    ;
    let d = 2 * p;
    assert(2 * n + d < (2 * d) * top) by (nonlinear_arith)
        requires
            n <= 2 * ((top - 1) * p),
            d == 2 * p,
            p > 0,
    ;
    assert(0 <= (2 * n + d) / (2 * d) < top) by (nonlinear_arith)
        requires
            d > 0,
            0 <= 2 * n + d < (2 * d) * top,
    ;
}

/// The list of peaks below `n` rises, and holds just the places that stand out.
proof fn lemma_peaks(levels: Seq<u64>, threshold: u64, n: int)
    requires
        levels.len() <= usize::MAX,
        n < levels.len(),
    ensures
        forall|i: int, j: int|
            0 <= i < j < peaks(levels, threshold, n).len() ==> #[trigger] peaks(
                levels,
                threshold,
                n,
            )[i] < #[trigger] peaks(levels, threshold, n)[j],
        forall|v: usize| #[trigger]
            peaks(levels, threshold, n).contains(v) <==> 1 <= v < n && levels[v as int] > threshold
                && levels[v as int] > levels[v - 1] && levels[v as int] > levels[v + 1],
    decreases n,
{
    let all = peaks(levels, threshold, n);
    if n > 1 {
        lemma_peaks(levels, threshold, n - 1);
        let before = peaks(levels, threshold, n - 1);
        assert forall|v: usize| #[trigger] all.contains(v) <==> 1 <= v < n && levels[v as int]
            > threshold && levels[v as int] > levels[v - 1] && levels[v as int] > levels[v + 1] by {
            assert(before.contains(v) <==> 1 <= v < n - 1 && levels[v as int] > threshold
                && levels[v as int] > levels[v - 1] && levels[v as int] > levels[v + 1]);
            if all.contains(v) {
                let k = choose|k: int| 0 <= k < all.len() && all[k] == v;
                if k < before.len() {
                    assert(before[k] == v);
                }
            }
            if before.contains(v) {
                let k = choose|k: int| 0 <= k < before.len() && before[k] == v;
                assert(all[k] == v);
            }
            if all.len() > before.len() {
                assert(all[before.len() as int] == n - 1);
            }
        }
        assert forall|i: int, j: int| 0 <= i < j < all.len() implies #[trigger] all[i]
            < #[trigger] all[j] by {
            if j == before.len() {
                assert(before.contains(before[i]));
            }
        }
    } else {
        assert(all.len() == 0);
    }
}

/// What is kept of the first places is some of them.
proof fn lemma_spaced_from(places: Seq<usize>, gap: usize, n: int, k: int)
    requires
        0 <= n <= places.len(),
        0 <= k < spaced(places, gap, n).len(),
    ensures
        exists|i: int| 0 <= i < n && #[trigger] places[i] == spaced(places, gap, n)[k],
    decreases n,
{
    if n > 0 {
        let before = spaced(places, gap, n - 1);
        if k < before.len() {
            lemma_spaced_from(places, gap, n - 1, k);
        } else {
            assert(places[n - 1] == spaced(places, gap, n)[k]);
        }
    }
}

/// Of rising places, each is kept or comes less than the gap after one that is.
proof fn lemma_spaced_covers(places: Seq<usize>, gap: usize, n: int, i: int)
    requires
        0 <= i < n <= places.len(),
        gap > 0,
        forall|a: int, b: int| 0 <= a < b < places.len() ==> places[a] < places[b],
    ensures
        exists|k: int|
            0 <= k < spaced(places, gap, n).len() && #[trigger] spaced(places, gap, n)[k] <= places[i]
                < spaced(places, gap, n)[k] + gap,
    decreases n,
{
    let before = spaced(places, gap, n - 1);
    let all = spaced(places, gap, n);
    if i < n - 1 {
        lemma_spaced_covers(places, gap, n - 1, i);
        let k = choose|k: int|
            0 <= k < before.len() && #[trigger] before[k] <= places[i] < before[k] + gap;
        assert(all[k] == before[k]);
    } else if all.len() > before.len() {
        assert(all[all.len() - 1] == places[i]);
    } else {
        let k = before.len() - 1;
        lemma_spaced_from(places, gap, n - 1, k);
        assert(all[k] <= places[i] < all[k] + gap);
    }
}

/// Which peaks are kept. Each kept place has a level above the threshold and above both its neighbours.
/// Kept places are at least the gap apart. Every place `i` that stands out in that way is kept, or comes
/// less than the gap after one that is.
pub proof fn kept_peaks_stand_out(levels: Seq<u64>, threshold: u64, gap: usize, i: int)
    requires
        levels.len() <= usize::MAX,
        gap > 0,
    ensures
        forall|k: int|
            0 <= k < clean_peaks(levels, threshold, gap).len() ==> {
                let v = #[trigger] clean_peaks(levels, threshold, gap)[k] as int;
                1 <= v && v + 1 < levels.len() && levels[v] > threshold && levels[v] > levels[v - 1]
                    && levels[v] > levels[v + 1]
            },
        forall|j: int, k: int|
            0 <= j < k < clean_peaks(levels, threshold, gap).len() ==> #[trigger] clean_peaks(
                levels,
                threshold,
                gap,
            )[k] - #[trigger] clean_peaks(levels, threshold, gap)[j] >= gap,
        1 <= i && i + 1 < levels.len() && levels[i] > threshold && levels[i] > levels[i - 1]
            && levels[i] > levels[i + 1] ==> exists|k: int|
            0 <= k < clean_peaks(levels, threshold, gap).len() && #[trigger] clean_peaks(
                levels,
                threshold,
                gap,
            )[k] <= i < clean_peaks(levels, threshold, gap)[k] + gap,
{
    let n = levels.len() - 1;
    let all = peaks(levels, threshold, n);
    let kept = clean_peaks(levels, threshold, gap);
    if levels.len() > 0 {
        lemma_peaks(levels, threshold, n);
        lemma_spaced(all, gap, all.len() as int);
        assert forall|k: int| 0 <= k < kept.len() implies {
            let v = #[trigger] kept[k] as int;
            1 <= v && v + 1 < levels.len() && levels[v] > threshold && levels[v] > levels[v - 1]
                && levels[v] > levels[v + 1]
        } by {
            lemma_spaced_from(all, gap, all.len() as int, k);
            assert(all.contains(kept[k]));
        }
        if 1 <= i && i + 1 < levels.len() && levels[i] > threshold && levels[i] > levels[i - 1]
            && levels[i] > levels[i + 1] {
            let v = i as usize;
            assert(all.contains(v));
            let m = choose|m: int| 0 <= m < all.len() && all[m] == v;
            lemma_spaced_covers(all, gap, all.len() as int, m);
            let k = choose|k: int|
                0 <= k < kept.len() && #[trigger] kept[k] <= all[m] < kept[k] + gap;
            assert(kept[k] <= i < kept[k] + gap);
        }
    } else {
        assert(all =~= Seq::<usize>::empty());
    }
}

/// The step is the middle one of the distances between neighbouring kept peaks. It is one of them. No more
/// than half of them are below it, and fewer than half above. It is known just when two peaks are kept.
pub proof fn step_is_a_middle_distance(levels: Seq<u64>, threshold: u64, gap: usize)
    requires
        levels.len() <= usize::MAX,
        gap > 0,
    ensures
        ({
            let kept = clean_peaks(levels, threshold, gap);
            let distances = Seq::new((kept.len() - 1) as nat, |k: int| (kept[k + 1] - kept[k]) as usize);
            &&& typical_distance(levels, threshold, gap) is Some <==> kept.len() >= 2
            &&& typical_distance(levels, threshold, gap) matches Some(d) ==> {
                &&& exists|k: int| 0 <= k < kept.len() - 1 && #[trigger] kept[k + 1] - kept[k] == d
                &&& distances.filter(|v: usize| v < d).len() <= distances.len() as int / 2
                &&& distances.filter(|v: usize| v > d).len() <= distances.len()
                    - distances.len() as int / 2 - 1
            }
        }),
{
    kept_peaks_stand_out(levels, threshold, gap, 0);
    typical_distance_is_at_least_gap(levels, threshold, gap);
    let kept = clean_peaks(levels, threshold, gap);
    if kept.len() >= 2 {
        let distances = Seq::new((kept.len() - 1) as nat, |k: int| (kept[k + 1] - kept[k]) as usize);
        let s = spans(kept, kept.len());
        spans_of_rising_cuts(kept, kept.len());
        assert(s =~= distances);
        median_is_in_the_middle(s);
        let d = typical_distance(levels, threshold, gap)->0;
        let k = choose|k: int| 0 <= k < s.len() && s[k] == d;
        assert(kept[k + 1] - kept[k] == d);
    }
}

/// The longest shift is half the length, but no more than 256, for lengths of six and more.
pub proof fn longest_lag_is_half(length: usize)
    ensures
        longest_lag(length) is Some <==> length >= 6,
        longest_lag(length) matches Some(lag) ==> {
            &&& 2 * lag <= length
            &&& lag <= 256
            &&& lag < 256 ==> 2 * (lag + 1) > length
        },
{
}

/// The shared step lies between the two steps: it is their mean where neither is too large for the other,
/// and else the smaller. Where one is known it is that one. Where none is, it goes into the shorter side
/// the given number of times, unless it would be below one pixel.
pub proof fn shared_step_is_between(
    step_x: Option<u32>,
    step_y: Option<u32>,
    width: u32,
    height: u32,
    segments: u32,
    max_ratio: Step,
)
    ensures
        ({
            let step = shared_step(step_x, step_y, width, height, segments, max_ratio);
            match (step_x, step_y) {
                (Some(x), Some(y)) => {
                    let mean = 2 * step.num == (x + y) * step.den;
                    let too_large = x * max_ratio.den > y * max_ratio.num || y * max_ratio.den > x
                        * max_ratio.num;
                    &&& step.den > 0
                    &&& x <= y && max_ratio.num >= max_ratio.den ==> if too_large {
                        step.num == x * step.den
                    } else {
                        mean
                    }
                    &&& y <= x && max_ratio.num >= max_ratio.den ==> if too_large {
                        step.num == y * step.den
                    } else {
                        mean
                    }
                    &&& x * step.den <= step.num <= y * step.den || y * step.den <= step.num <= x
                        * step.den
                },
                (Some(x), None) => step.den > 0 && step.num == x * step.den,
                (None, Some(y)) => step.den > 0 && step.num == y * step.den,
                (None, None) => segments > 0 ==> {
                    &&& step.den > 0
                    &&& step.num >= step.den
                    &&& width <= height ==> step.num * segments >= width * step.den
                    &&& height <= width ==> step.num * segments >= height * step.den
                    &&& step.num > step.den && width <= height ==> step.num * segments == width
                        * step.den
                    &&& step.num > step.den && height <= width ==> step.num * segments == height
                        * step.den
                },
            }
        }),
{
    if let (Some(x), Some(y)) = (step_x, step_y) {
        assert(x <= y && max_ratio.num >= max_ratio.den ==> x * max_ratio.den <= y * max_ratio.num)
            by (nonlinear_arith)
            requires
                x >= 0,
                y >= 0,
                max_ratio.num >= 0,
                max_ratio.den >= 0,
        ;
        assert(y <= x && max_ratio.num >= max_ratio.den ==> y * max_ratio.den <= x * max_ratio.num)
            by (nonlinear_arith)
            requires
                x >= 0,
                y >= 0,
                max_ratio.num >= 0,
                max_ratio.den >= 0,
        ;
        let step = shared_step(step_x, step_y, width, height, segments, max_ratio);
        assert(x * 1 == x && y * 1 == y && x * 2 == x + x && y * 2 == y + y);
        assert((x + y) * 2 == 2 * (x + y));
        assert(step.den == 1 || step.den == 2);
    } else if step_x is None && step_y is None && segments > 0 {
        let side = if width < height { width } else { height };
        assert(side * segments == segments * side) by (nonlinear_arith);
        assert(1 * segments == segments && side * 1 == side);
    }
}

/// Of steps in quarters of the expected one, those from three to five are close.
pub proof fn close_steps_are_within_a_quarter(quarters: u64, expected: Step)
    requires
        expected.den > 0,
        4 * expected.den <= u64::MAX,
    ensures
        is_close(Step { num: quarters, den: (4 * expected.den) as u64 }, expected) <==> quarters > 0
            && 3 * expected.num <= quarters <= 5 * expected.num,
{
    let (q, p, d) = (quarters as int, expected.num as int, expected.den as int);
    assert(p * (4 * d) == 4 * (p * d)) by (nonlinear_arith);
    assert((3 * p <= q) == (3 * (4 * (p * d)) <= 4 * (q * d))) by (nonlinear_arith)
        requires
            d > 0,
    ;
    assert((q <= 5 * p) == (4 * (q * d) <= 5 * (4 * (p * d)))) by (nonlinear_arith)
        requires
            d > 0,
    ;
}

/// How a step is written as a fraction makes no difference to whether it is close to another.
pub proof fn closeness_goes_by_value(a: Step, b: Step, expected: Step)
    requires
        a.den > 0,
        b.den > 0,
        expected.den > 0,
        a.num * b.den == b.num * a.den,
    ensures
        is_close(a, expected) == is_close(b, expected),
{
    let (ca, ea) = (a.num * expected.den, expected.num * a.den);
    let (cb, eb) = (b.num * expected.den, expected.num * b.den);
    assert(ca * b.den == cb * a.den && ea * b.den == eb * a.den) by (nonlinear_arith)
        requires
            ca == a.num * expected.den,
            cb == b.num * expected.den,
            ea == expected.num * a.den,
            eb == expected.num * b.den,
            a.num * b.den == b.num * a.den,
    ;
    let (m, n) = (a.den as int, b.den as int);
    assert((3 * ea <= 4 * ca) == (3 * eb <= 4 * cb)) by (nonlinear_arith)
        requires
            ca * n == cb * m,
            ea * n == eb * m,
            m > 0,
            n > 0,
    ;
    assert((4 * ca <= 5 * ea) == (4 * cb <= 5 * eb)) by (nonlinear_arith)
        requires
            ca * n == cb * m,
            ea * n == eb * m,
            m > 0,
            n > 0,
    ;
    assert((a.num > 0) == (b.num > 0)) by (nonlinear_arith)
        requires
            a.num * b.den == b.num * a.den,
            a.den > 0,
            b.den > 0,
            a.num >= 0,
            b.num >= 0,
    ;
}

/// The larger of two steps is one of them and not below either. A step is raised to one pixel where it is
/// below, and else stays.
pub proof fn larger_step_is_not_below(x: Step, y: Step)
    requires
        x.den > 0,
        y.den > 0,
    ensures
        larger_step(x, y) == x || larger_step(x, y) == y,
        larger_step(x, y).num * x.den >= x.num * larger_step(x, y).den,
        larger_step(x, y).num * y.den >= y.num * larger_step(x, y).den,
        at_least_one(x).num >= at_least_one(x).den,
        at_least_one(x).den > 0,
        x.num >= x.den ==> at_least_one(x) == x,
        x.num < x.den ==> at_least_one(x).num == at_least_one(x).den,
{
}

/// A step goes into a length so often that what is left over, or lacking, is at most half a step; where it
/// is just half a step, it is lacking.
pub proof fn rounded_count_is_nearest(length: u32, step: Step)
    requires
        step.num > 0,
        step.den > 0,
    ensures
        2 * (rounded_count(length, step) * step.num) <= 2 * (length * step.den) + step.num,
        2 * (length * step.den) < 2 * (rounded_count(length, step) * step.num) + step.num,
{
    let n = step.num as int;
    let top = 2 * length * step.den + n;
    assert(2 * length * step.den == 2 * (length * step.den)) by (nonlinear_arith);
    vstd::arithmetic::div_mod::lemma_fundamental_div_mod(top, 2 * n);
    let q = top / (2 * n);
    assert(2 * n * q == 2 * (q * n)) by (nonlinear_arith);
}

/// The number of segments that is tried has room in the shorter side, and is between three and five
/// quarters of the expected one, which counts as one where it is none.
pub proof fn tried_segments_are_near(segments: u32, expected: u64, side: u32)
    ensures
        is_worth_a_try(segments, expected, side) ==> segments <= side,
        expected >= 1 && segments <= side ==> (is_worth_a_try(segments, expected, side) <==> 3
            * expected <= 4 * segments && 4 * segments <= 5 * expected),
        expected == 0 && segments <= side ==> (is_worth_a_try(segments, expected, side) <==> segments
            == 1),
{
}

/// The rounded mean of two steps is at most half away from their mean; where it is just half away, it is
/// above.
pub proof fn rounded_mean_is_nearest(x: Step, y: Step)
    requires
        x.den > 0,
        y.den > 0,
    ensures
        ({
            let (sum, parts) = (x.num * y.den + y.num * x.den, x.den * y.den);
            &&& 2 * (rounded_mean(x, y) * parts) <= sum + parts
            &&& sum < 2 * (rounded_mean(x, y) * parts) + parts
        }),
{
    let n = x.num * y.den + y.num * x.den;
    let p = x.den * y.den;
    assert(p > 0) by (nonlinear_arith)
        requires
            x.den > 0,
            y.den > 0,
            p == x.den * y.den,
    ;
    let d = 2 * p;
    vstd::arithmetic::div_mod::lemma_fundamental_div_mod(2 * n + d, 2 * d);
    let q = (2 * n + d) / (2 * d);
    assert(2 * d * q == 4 * (q * p)) by (nonlinear_arith)
        requires
            d == 2 * p,
    ;
}

/// A whole step is tried just when it is at least two, at most one away from the rounded mean of the
/// expected steps, which is itself at least two, and close to both. Smaller steps are tried first.
pub proof fn tried_steps_are_near_the_mean(x: Step, y: Step)
    ensures
        forall|s: int|
            trial_steps(x, y).contains(s) <==> {
                &&& rounded_mean(x, y) >= 2
                &&& s >= 2
                &&& rounded_mean(x, y) - 1 <= s <= rounded_mean(x, y) + 1
                &&& #[trigger] is_close(Step { num: s as u64, den: 1 }, x)
                &&& is_close(Step { num: s as u64, den: 1 }, y)
            },
        forall|i: int, j: int|
            0 <= i < j < trial_steps(x, y).len() ==> #[trigger] trial_steps(x, y)[i]
                <= #[trigger] trial_steps(x, y)[j],
{
    let base = rounded_mean(x, y);
    if base >= 2 {
        let low = if base - 1 < 2 { 2 } else { base - 1 };
        let near = seq![low, base, base + 1];
        let keep = |s: int|
            is_close(Step { num: s as u64, den: 1 }, x) && is_close(
                Step { num: s as u64, den: 1 },
                y,
            );
        let kept = trial_steps(x, y);
        assert(kept == near.filter(keep));
        lemma_filter_rises(near, keep);
        assert forall|s: int|
            kept.contains(s) <==> s >= 2 && base - 1 <= s <= base + 1 && #[trigger] is_close(
                Step { num: s as u64, den: 1 },
                x,
            ) && is_close(Step { num: s as u64, den: 1 }, y) by {
            if s >= 2 && base - 1 <= s <= base + 1 && keep(s) {
                let at: int = if s == low {
                    0
                } else if s == base {
                    1
                } else {
                    2
                };
                assert(near[at] == s);
                assert(near.contains(s));
            }
            if near.contains(s) {
                let at = choose|at: int| 0 <= at < near.len() && near[at] == s;
                assert(near[at] == s);
            }
        }
    } else {
        assert forall|s: int| !(#[trigger] trial_steps(x, y).contains(s)) by {}
    }
}

/// What a filter leaves of numbers that do not fall does not fall, and holds what the filter keeps.
proof fn lemma_filter_rises(s: Seq<int>, keep: spec_fn(int) -> bool)
    requires
        forall|i: int, j: int| 0 <= i < j < s.len() ==> s[i] <= s[j],
    ensures
        forall|i: int, j: int|
            0 <= i < j < s.filter(keep).len() ==> #[trigger] s.filter(keep)[i]
                <= #[trigger] s.filter(keep)[j],
        forall|v: int| #[trigger] s.filter(keep).contains(v) <==> s.contains(v) && keep(v),
    decreases s.len(),
{
    reveal(Seq::filter);
    if s.len() > 0 {
        let rest = s.drop_last();
        lemma_filter_rises(rest, keep);
        let (before, all) = (rest.filter(keep), s.filter(keep));
        assert forall|v: int| #[trigger] all.contains(v) <==> s.contains(v) && keep(v) by {
            assert(before.contains(v) <==> rest.contains(v) && keep(v));
            if all.contains(v) {
                let k = choose|k: int| 0 <= k < all.len() && all[k] == v;
                if k < before.len() {
                    assert(before[k] == v);
                    let i = choose|i: int| 0 <= i < rest.len() && rest[i] == v;
                    assert(s[i] == v);
                } else {
                    assert(s[s.len() - 1] == v);
                }
            }
            if s.contains(v) && keep(v) {
                let i = choose|i: int| 0 <= i < s.len() && s[i] == v;
                if i < rest.len() {
                    assert(rest[i] == v);
                    let k = choose|k: int| 0 <= k < before.len() && before[k] == v;
                    assert(all[k] == v);
                } else {
                    assert(all[before.len() as int] == v);
                }
            }
        }
        assert forall|i: int, j: int| 0 <= i < j < all.len() implies #[trigger] all[i]
            <= #[trigger] all[j] by {
            if j == before.len() {
                assert(before.contains(before[i]));
                let k = choose|k: int| 0 <= k < rest.len() && rest[k] == before[i];
                assert(s[k] <= s[s.len() - 1]);
            }
        }
    }
}

} // verus!
