//! Grids to choose from, and the choice among them.

use vstd::prelude::*;
use crate::error::{processing_error, PixelSnapperError};
use crate::steps::{
    at_least_one, autocorr_agrees, expected_segments, find_larger_step, fixed_segments, is_close,
    is_worth_a_try, larger_step, resolve_step_sizes, rounded_count, shared_step, Step,
};

verus! {

/// How a grid was found.
#[derive(Clone, Copy, Debug, PartialEq, Eq, Structural)]
pub enum Source {
    Detected,
    Autocorr,
    LineMesh,
    Reconstruction,
    SmallerStep,
    LargerStep,
    Fixed16,
    Fixed32,
    Fixed64,
}

impl Source {
    /// The name that the source is shown under.
    pub open spec fn name(self) -> Seq<char> {
        match self {
            Source::Detected => "detected"@,
            Source::Autocorr => "autocorr"@,
            Source::LineMesh => "line-mesh"@,
            Source::Reconstruction => "reconstruction"@,
            Source::SmallerStep => "slightly-smaller-step"@,
            Source::LargerStep => "slightly-larger-step"@,
            Source::Fixed16 => "fixed-16"@,
            Source::Fixed32 => "fixed-32"@,
            Source::Fixed64 => "fixed-64"@,
        }
    }

    /// Names the source.
    pub fn label(self) -> (name: &'static str)
        ensures
            name@ == self.name(),
    {
        match self {
            Source::Detected => "detected",
            Source::Autocorr => "autocorr",
            Source::LineMesh => "line-mesh",
            Source::Reconstruction => "reconstruction",
            Source::SmallerStep => "slightly-smaller-step",
            Source::LargerStep => "slightly-larger-step",
            Source::Fixed16 => "fixed-16",
            Source::Fixed32 => "fixed-32",
            Source::Fixed64 => "fixed-64",
        }
    }
}

/// A way of looking for a grid.
#[derive(Clone, Copy, Debug, PartialEq, Eq, Structural)]
pub enum Attempt {
    /// Walk along each axis with so many tenths of its step.
    Walk { step_x: Step, step_y: Step, tenths: u64, source: Source },
    /// Lay even cuts along strong lines.
    LineMesh,
    /// Try even cuts and see which cells have the most even colours.
    Reconstruction,
    /// Divide both axes into so many cells.
    Uniform { segments: u32, source: Source },
}

/// The attempt, if it is made.
pub open spec fn made_if(made: bool, attempt: Attempt) -> Seq<Attempt> {
    if made {
        seq![attempt]
    } else {
        seq![]
    }
}

/// So many tenths of a step are at least one pixel.
pub open spec fn reaches_one(step: Step, tenths: u64) -> bool {
    tenths * step.num >= 10 * step.den
}

/// So many tenths of both steps are at least one pixel.
pub open spec fn both_reach_one(step_x: Step, step_y: Step, tenths: u64) -> bool {
    reaches_one(step_x, tenths) && reaches_one(step_y, tenths)
}

/// The division into a round number of cells.
pub open spec fn uniform_attempt(segments: u32) -> Attempt {
    Attempt::Uniform {
        segments,
        source: if segments == 16 {
            Source::Fixed16
        } else if segments == 32 {
            Source::Fixed32
        } else {
            Source::Fixed64
        },
    }
}

/// The ways of looking for a grid, in turn. The step at which profiles match themselves is walked only
/// where it is known for an axis and close to those detected. Round numbers of cells are tried where
/// they are near the number expected.
pub open spec fn attempts(
    step_x: Step,
    step_y: Step,
    matched_x: Option<u32>,
    matched_y: Option<u32>,
    width: u32,
    height: u32,
    segments: u32,
    max_ratio: Step,
) -> Seq<Attempt> {
    let matched = shared_step(matched_x, matched_y, width, height, segments, max_ratio);
    let side = if width < height { width } else { height };
    let expected = rounded_count(side, at_least_one(larger_step(step_x, step_y))) as u64;
    seq![Attempt::Walk { step_x, step_y, tenths: 10, source: Source::Detected }] + made_if(
        (matched_x is Some || matched_y is Some) && is_close(matched, at_least_one(step_x))
            && is_close(matched, at_least_one(step_y)),
        Attempt::Walk { step_x: matched, step_y: matched, tenths: 10, source: Source::Autocorr },
    ) + seq![Attempt::LineMesh, Attempt::Reconstruction] + made_if(
        both_reach_one(step_x, step_y, 9),
        Attempt::Walk { step_x, step_y, tenths: 9, source: Source::SmallerStep },
    ) + made_if(
        both_reach_one(step_x, step_y, 11),
        Attempt::Walk { step_x, step_y, tenths: 11, source: Source::LargerStep },
    ) + seq![16u32, 32u32, 64u32].filter(
        |n: u32| is_worth_a_try(n, expected, side),
    ).map_values(|n: u32| uniform_attempt(n))
}

/// Tells whether so many tenths of both steps are at least one pixel.
fn reach_one(step_x: Step, step_y: Step, tenths: u32) -> (reach: bool)
    ensures
        reach == both_reach_one(step_x, step_y, tenths as u64),
{
    proof {
        assert(tenths * step_x.num <= u128::MAX && tenths * step_y.num <= u128::MAX)
            by (nonlinear_arith)
            requires
                0 <= tenths <= 0xffff_ffff,
                0 <= step_x.num <= 0xffff_ffff_ffff_ffff,
                0 <= step_y.num <= 0xffff_ffff_ffff_ffff,
        ;
        assert(0 <= tenths * step_x.num && 0 <= tenths * step_y.num) by (nonlinear_arith)
            requires
                0 <= tenths,
                0 <= step_x.num,
                0 <= step_y.num,
        ;
    }
    tenths as u128 * step_x.num as u128 >= 10 * step_x.den as u128 && tenths as u128
        * step_y.num as u128 >= 10 * step_y.den as u128
}

/// Plans the ways of looking for a grid.
pub fn plan_attempts(
    step_x: Step,
    step_y: Step,
    matched_x: Option<u32>,
    matched_y: Option<u32>,
    width: u32,
    height: u32,
    segments: u32,
    max_ratio: Step,
) -> (plan: Vec<Attempt>)
    requires
        step_x.wf(),
        step_y.wf(),
    ensures
        plan@ == attempts(step_x, step_y, matched_x, matched_y, width, height, segments, max_ratio),
{
    let mut plan: Vec<Attempt> = Vec::new();
    plan.push(Attempt::Walk { step_x, step_y, tenths: 10, source: Source::Detected });
    if matched_x.is_some() || matched_y.is_some() {
        let matched: Step = resolve_step_sizes(
            matched_x,
            matched_y,
            width,
            height,
            segments,
            max_ratio,
        );
        if autocorr_agrees(matched, step_x) && autocorr_agrees(matched, step_y) {
            plan.push(
                Attempt::Walk {
                    step_x: matched,
                    step_y: matched,
                    tenths: 10,
                    source: Source::Autocorr,
                },
            );
        }
    }
    plan.push(Attempt::LineMesh);
    plan.push(Attempt::Reconstruction);
    if reach_one(step_x, step_y, 9) {
        plan.push(Attempt::Walk { step_x, step_y, tenths: 9, source: Source::SmallerStep });
    }
    if reach_one(step_x, step_y, 11) {
        plan.push(Attempt::Walk { step_x, step_y, tenths: 11, source: Source::LargerStep });
    }
    let side: u32 = if width < height {
        width
    } else {
        height
    };
    let round: Vec<u32> = fixed_segments(
        expected_segments(width, height, find_larger_step(step_x, step_y)),
        side,
    );
    let ghost walks = plan@;
    let mut i: usize = 0;
    while i < round.len()
        invariant
            i <= round@.len(),
            plan@ == walks + round@.take(i as int).map_values(|n: u32| uniform_attempt(n)),
        decreases round.len() - i,
    {
        let n: u32 = round[i];
        let source: Source = if n == 16 {
            Source::Fixed16
        } else if n == 32 {
            Source::Fixed32
        } else {
            Source::Fixed64
        };
        plan.push(Attempt::Uniform { segments: n, source });
        i += 1;
        proof {
            assert(plan@ =~= walks + round@.take(i as int).map_values(
                |n: u32| uniform_attempt(n),
            ));
        }
    }
    proof {
        assert(round@.take(i as int) =~= round@);
        assert(plan@ =~= attempts(
            step_x,
            step_y,
            matched_x,
            matched_y,
            width,
            height,
            segments,
            max_ratio,
        ));
    }
    plan
}

/// A grid with its score. Scores are levels: the higher, the better.
#[derive(Debug)]
pub struct GridCandidate {
    pub col_cuts: Vec<usize>,
    pub row_cuts: Vec<usize>,
    pub source: Source,
    pub score: u64,
}

/// Makes a candidate of a grid, unless the grid has no cells or its score is not a number.
pub fn make_grid_candidate(
    col_cuts: Vec<usize>,
    row_cuts: Vec<usize>,
    source: Source,
    score: Option<u64>,
) -> (candidate: Option<GridCandidate>)
    ensures
        match candidate {
            Some(c) => col_cuts@.len() >= 2 && row_cuts@.len() >= 2 && c == (GridCandidate {
                col_cuts,
                row_cuts,
                source,
                score: c.score,
            }) && score == Some(c.score),
            None => col_cuts@.len() < 2 || row_cuts@.len() < 2 || score is None,
        },
{
    if col_cuts.len() < 2 || row_cuts.len() < 2 {
        return None;
    }
    match score {
        Some(score) => Some(GridCandidate { col_cuts, row_cuts, source, score }),
        None => None,
    }
}

/// The outcome in place `k` is a candidate. None scores higher, and none before it as high.
pub open spec fn is_best(outcomes: Seq<Option<GridCandidate>>, k: int) -> bool {
    &&& 0 <= k < outcomes.len()
    &&& outcomes[k] is Some
    &&& forall|i: int|
        0 <= i < outcomes.len() && #[trigger] outcomes[i] is Some ==> outcomes[i]->0.score
            <= outcomes[k]->0.score && (i < k ==> outcomes[i]->0.score < outcomes[k]->0.score)
}

/// One place only holds the best candidate.
pub proof fn best_is_unique(outcomes: Seq<Option<GridCandidate>>, j: int, k: int)
    requires
        is_best(outcomes, j),
        is_best(outcomes, k),
    ensures
        j == k,
{
    assert(outcomes[j] is Some && outcomes[k] is Some);
}

/// Picks the candidate with the highest score among the outcomes of attempts, the first of them where
/// there are several. There must be one.
pub fn select_grid_candidate(outcomes: Vec<Option<GridCandidate>>) -> (best: Result<
    GridCandidate,
    PixelSnapperError,
>)
    ensures
        match best {
            Ok(candidate) => exists|k: int|
                is_best(outcomes@, k) && #[trigger] outcomes@[k] == Some(candidate),
            Err(e) => e.is_processing_error("No valid grid candidates found"@) && forall|i: int|
                0 <= i < outcomes@.len() ==> #[trigger] outcomes@[i] is None,
        },
{
    let mut best: Option<usize> = None;
    let mut score: u64 = 0;
    let mut i: usize = 0;
    while i < outcomes.len()
        invariant
            i <= outcomes@.len(),
            match best {
                Some(k) => {
                    &&& k < i
                    &&& outcomes@[k as int] is Some
                    &&& outcomes@[k as int]->0.score == score
                    &&& forall|j: int|
                        0 <= j < i && #[trigger] outcomes@[j] is Some ==> outcomes@[j]->0.score
                            <= score && (j < k ==> outcomes@[j]->0.score < score)
                },
                None => forall|j: int| 0 <= j < i ==> #[trigger] outcomes@[j] is None,
            },
        decreases outcomes.len() - i,
    {
        if let Some(candidate) = &outcomes[i] {
            let better: bool = match best {
                Some(_) => candidate.score > score,
                None => true,
            };
            if better {
                best = Some(i);
                score = candidate.score;
            }
        }
        i += 1;
    }
    if let Some(k) = best {
        let ghost all = outcomes@;
        proof {
            assert(is_best(all, k as int));
        }
        let mut rest: Vec<Option<GridCandidate>> = outcomes;
        if let Some(candidate) = rest.swap_remove(k) {
            return Ok(candidate);
        }
    }
    Err(processing_error("No valid grid candidates found"))
}

/// The plan holds the walks with the detected steps, with nine and with eleven tenths of them where those
/// are at least one pixel, the even cuts along lines, and those with the most even colours.
pub proof fn plan_holds(
    step_x: Step,
    step_y: Step,
    matched_x: Option<u32>,
    matched_y: Option<u32>,
    width: u32,
    height: u32,
    segments: u32,
    max_ratio: Step,
)
    ensures
        ({
            let plan = attempts(step_x, step_y, matched_x, matched_y, width, height, segments, max_ratio);
            &&& plan.contains(Attempt::Walk { step_x, step_y, tenths: 10, source: Source::Detected })
            &&& plan.contains(Attempt::LineMesh)
            &&& plan.contains(Attempt::Reconstruction)
            &&& both_reach_one(step_x, step_y, 9) ==> plan.contains(
                Attempt::Walk { step_x, step_y, tenths: 9, source: Source::SmallerStep },
            )
            &&& both_reach_one(step_x, step_y, 11) ==> plan.contains(
                Attempt::Walk { step_x, step_y, tenths: 11, source: Source::LargerStep },
            )
        }),
{
    let plan = attempts(step_x, step_y, matched_x, matched_y, width, height, segments, max_ratio);
    let matched = shared_step(matched_x, matched_y, width, height, segments, max_ratio);
    let first: int = if (matched_x is Some || matched_y is Some) && is_close(
        matched,
        at_least_one(step_x),
    ) && is_close(matched, at_least_one(step_y)) {
        2
    } else {
        1
    };
    assert(plan[0] == (Attempt::Walk { step_x, step_y, tenths: 10, source: Source::Detected }));
    assert(plan[first] == Attempt::LineMesh);
    assert(plan[first + 1] == Attempt::Reconstruction);
    if both_reach_one(step_x, step_y, 9) {
        assert(plan[first + 2] == (Attempt::Walk { step_x, step_y, tenths: 9, source: Source::SmallerStep }));
    }
    if both_reach_one(step_x, step_y, 11) {
        let at = if both_reach_one(step_x, step_y, 9) {
            first + 3
        } else {
            first + 2
        };
        assert(plan[at] == (Attempt::Walk { step_x, step_y, tenths: 11, source: Source::LargerStep }));
    }
}

/// Where every attempt of the plan has its outcome, the candidate that is picked scores no lower than
/// what any attempt of the plan came to.
pub proof fn picked_beats_every_attempt(
    step_x: Step,
    step_y: Step,
    matched_x: Option<u32>,
    matched_y: Option<u32>,
    width: u32,
    height: u32,
    segments: u32,
    max_ratio: Step,
    outcomes: Seq<Option<GridCandidate>>,
    k: int,
    attempt: Attempt,
)
    requires
        outcomes.len() == attempts(
            step_x,
            step_y,
            matched_x,
            matched_y,
            width,
            height,
            segments,
            max_ratio,
        ).len(),
        is_best(outcomes, k),
        attempts(step_x, step_y, matched_x, matched_y, width, height, segments, max_ratio).contains(attempt),
    ensures
        exists|i: int|
            0 <= i < outcomes.len() && #[trigger] attempts(
                step_x,
                step_y,
                matched_x,
                matched_y,
                width,
                height,
                segments,
                max_ratio,
            )[i] == attempt,
        forall|i: int|
            0 <= i < outcomes.len() && #[trigger] attempts(
                step_x,
                step_y,
                matched_x,
                matched_y,
                width,
                height,
                segments,
                max_ratio,
            )[i] == attempt ==> (outcomes[i] matches Some(candidate) ==> candidate.score
                <= outcomes[k]->0.score),
{
}

/// The place of an attempt in the order in which they are made.
pub open spec fn turn(attempt: Attempt) -> int {
    match attempt {
        Attempt::Walk { source: Source::Detected, .. } => 0,
        Attempt::Walk { source: Source::Autocorr, .. } => 1,
        Attempt::LineMesh => 2,
        Attempt::Reconstruction => 3,
        Attempt::Walk { source: Source::SmallerStep, .. } => 4,
        Attempt::Walk { source: Source::LargerStep, .. } => 5,
        Attempt::Uniform { segments, .. } => 6 + segments,
        _ => -1,
    }
}

/// The attempts before those with a round number of cells.
spec fn walks(step_x: Step, step_y: Step, matched: Step, agrees: bool) -> Seq<Attempt> {
    seq![Attempt::Walk { step_x, step_y, tenths: 10, source: Source::Detected }] + made_if(
        agrees,
        Attempt::Walk { step_x: matched, step_y: matched, tenths: 10, source: Source::Autocorr },
    ) + seq![Attempt::LineMesh, Attempt::Reconstruction] + made_if(
        both_reach_one(step_x, step_y, 9),
        Attempt::Walk { step_x, step_y, tenths: 9, source: Source::SmallerStep },
    ) + made_if(
        both_reach_one(step_x, step_y, 11),
        Attempt::Walk { step_x, step_y, tenths: 11, source: Source::LargerStep },
    )
}

/// The attempts before those with a round number of cells come in turn, and are just those asked for.
proof fn lemma_walks(step_x: Step, step_y: Step, matched: Step, agrees: bool, attempt: Attempt)
    ensures
        ({
            let list = walks(step_x, step_y, matched, agrees);
            &&& forall|k: int|
                0 <= k < list.len() ==> 0 <= turn(#[trigger] list[k]) <= 5 && !(list[k] is Uniform)
            &&& forall|i: int, j: int|
                0 <= i < j < list.len() ==> turn(#[trigger] list[i]) < turn(#[trigger] list[j])
            &&& list.contains(attempt) <==> {
                ||| attempt == (Attempt::Walk { step_x, step_y, tenths: 10, source: Source::Detected })
                ||| agrees && attempt == (Attempt::Walk {
                    step_x: matched,
                    step_y: matched,
                    tenths: 10,
                    source: Source::Autocorr,
                })
                ||| attempt == Attempt::LineMesh
                ||| attempt == Attempt::Reconstruction
                ||| both_reach_one(step_x, step_y, 9) && attempt == (Attempt::Walk {
                    step_x,
                    step_y,
                    tenths: 9,
                    source: Source::SmallerStep,
                })
                ||| both_reach_one(step_x, step_y, 11) && attempt == (Attempt::Walk {
                    step_x,
                    step_y,
                    tenths: 11,
                    source: Source::LargerStep,
                })
            }
        }),
{
    let list = walks(step_x, step_y, matched, agrees);
    let first: int = if agrees { 2 } else { 1 };
    let next: int = if both_reach_one(step_x, step_y, 9) { first + 3 } else { first + 2 };
    assert(list[0] == (Attempt::Walk { step_x, step_y, tenths: 10, source: Source::Detected }));
    if agrees {
        assert(list[1] == (Attempt::Walk {
            step_x: matched,
            step_y: matched,
            tenths: 10,
            source: Source::Autocorr,
        }));
    }
    assert(list[first] == Attempt::LineMesh);
    assert(list[first + 1] == Attempt::Reconstruction);
    if both_reach_one(step_x, step_y, 9) {
        assert(list[first + 2] == (Attempt::Walk {
            step_x,
            step_y,
            tenths: 9,
            source: Source::SmallerStep,
        }));
    }
    if both_reach_one(step_x, step_y, 11) {
        assert(list[next] == (Attempt::Walk {
            step_x,
            step_y,
            tenths: 11,
            source: Source::LargerStep,
        }));
    }
    if list.contains(attempt) {
        let k = choose|k: int| 0 <= k < list.len() && list[k] == attempt;
        assert(k == 0 || (agrees && k == 1) || k == first || k == first + 1 || k == first + 2 || k
            == next);
    }
}

/// What is planned, and in which order. The detected steps are walked, with ten tenths, and with nine and
/// eleven where those are at least a pixel for both; the step at which the profiles match themselves is walked
/// where it is known for an axis and close to both detected ones, taken as one pixel where they are less;
/// both kinds of even cuts are tried; and 16, 32 and 64 cells where they are worth it for the larger step.
/// Nothing else is planned, and nothing twice.
pub proof fn plan_is_in_order(
    step_x: Step,
    step_y: Step,
    matched_x: Option<u32>,
    matched_y: Option<u32>,
    width: u32,
    height: u32,
    segments: u32,
    max_ratio: Step,
    plan: Seq<Attempt>,
    matched: Step,
    side: u32,
    expected: u64,
    attempt: Attempt,
)
    requires
        plan == attempts(
            step_x,
            step_y,
            matched_x,
            matched_y,
            width,
            height,
            segments,
            max_ratio,
        ),
        matched == shared_step(matched_x, matched_y, width, height, segments, max_ratio),
        side == if width <= height { width } else { height },
        expected == rounded_count(side, at_least_one(larger_step(step_x, step_y))) as u64,
    ensures
        plan.contains(attempt) <==> match attempt {
            Attempt::Walk { step_x: x, step_y: y, tenths, source } => {
                ||| source == Source::Detected && tenths == 10 && x == step_x && y == step_y
                ||| source == Source::SmallerStep && tenths == 9 && x == step_x && y == step_y && 9
                    * x.num >= 10 * x.den && 9 * y.num >= 10 * y.den
                ||| source == Source::LargerStep && tenths == 11 && x == step_x && y == step_y && 11
                    * x.num >= 10 * x.den && 11 * y.num >= 10 * y.den
                ||| source == Source::Autocorr && tenths == 10 && x == matched && y == matched && (
                matched_x is Some || matched_y is Some) && is_close(matched, at_least_one(step_x))
                    && is_close(matched, at_least_one(step_y))
            },
            Attempt::LineMesh => true,
            Attempt::Reconstruction => true,
            Attempt::Uniform { segments: n, source } => is_worth_a_try(n, expected, side) && {
                ||| n == 16 && source == Source::Fixed16
                ||| n == 32 && source == Source::Fixed32
                ||| n == 64 && source == Source::Fixed64
            },
        },
        forall|i: int, j: int|
            0 <= i < j < plan.len() ==> turn(#[trigger] plan[i]) < turn(#[trigger] plan[j]),
{
    let agrees = (matched_x is Some || matched_y is Some) && is_close(matched, at_least_one(step_x))
        && is_close(matched, at_least_one(step_y));
    let list = walks(step_x, step_y, matched, agrees);
    lemma_walks(step_x, step_y, matched, agrees, attempt);
    let keep = |n: u32| is_worth_a_try(n, expected, side);
    let make = |n: u32| uniform_attempt(n);
    let kept = seq![16u32, 32u32, 64u32].filter(keep);
    let f = kept.map_values(make);
    assert(plan == list + f);
    lemma_fixed(keep);
    lemma_appended(list, kept, f, attempt);
}

/// Attempts with rising numbers of cells, after others, come in turn too.
proof fn lemma_appended(list: Seq<Attempt>, kept: Seq<u32>, f: Seq<Attempt>, attempt: Attempt)
    requires
        forall|k: int|
            0 <= k < list.len() ==> 0 <= turn(#[trigger] list[k]) <= 5 && !(list[k] is Uniform),
        forall|i: int, j: int|
            0 <= i < j < list.len() ==> turn(#[trigger] list[i]) < turn(#[trigger] list[j]),
        forall|i: int, j: int| 0 <= i < j < kept.len() ==> kept[i] < kept[j],
        f.len() == kept.len(),
        forall|k: int| 0 <= k < f.len() ==> #[trigger] f[k] == uniform_attempt(kept[k]),
    ensures
        (list + f).contains(attempt) <==> list.contains(attempt) || (attempt matches Attempt::Uniform {
            segments,
            source,
        } && kept.contains(segments) && attempt == uniform_attempt(segments)),
        forall|i: int, j: int|
            0 <= i < j < (list + f).len() ==> turn(#[trigger] (list + f)[i]) < turn(
                #[trigger] (list + f)[j],
            ),
{
    let plan = list + f;
    let n = list.len() as int;
    assert forall|i: int, j: int| 0 <= i < j < plan.len() implies turn(#[trigger] plan[i]) < turn(
        #[trigger] plan[j],
    ) by {
        if i >= n {
            assert(plan[i] == f[i - n] && plan[j] == f[j - n]);
            assert(kept[i - n] < kept[j - n]);
        } else if j >= n {
            assert(plan[i] == list[i] && plan[j] == f[j - n]);
        } else {
            assert(plan[i] == list[i] && plan[j] == list[j]);
        }
    }
    if plan.contains(attempt) {
        let k = choose|k: int| 0 <= k < plan.len() && plan[k] == attempt;
        if k >= n {
            assert(plan[k] == f[k - n]);
            assert(kept.contains(kept[k - n]));
        } else {
            assert(list[k] == attempt);
        }
    }
    if list.contains(attempt) {
        let k = choose|k: int| 0 <= k < list.len() && list[k] == attempt;
        assert(plan[k] == attempt);
    }
    if let Attempt::Uniform { segments, source } = attempt {
        if kept.contains(segments) && attempt == uniform_attempt(segments) {
            let m = choose|m: int| 0 <= m < kept.len() && kept[m] == segments;
            assert(plan[n + m] == f[m]);
        }
    }
}

/// What a filter leaves of the round numbers rises, and holds what the filter keeps.
proof fn lemma_fixed(keep: spec_fn(u32) -> bool)
    ensures
        ({
            let all = seq![16u32, 32u32, 64u32];
            let kept = all.filter(keep);
            &&& forall|i: int, j: int| 0 <= i < j < kept.len() ==> kept[i] < kept[j]
            &&& forall|n: u32| #[trigger]
                kept.contains(n) <==> keep(n) && (n == 16 || n == 32 || n == 64)
        }),
{
    reveal_with_fuel(Seq::filter, 4);
    let all = seq![16u32, 32u32, 64u32];
    let (two, one, none) = (seq![16u32, 32u32], seq![16u32], Seq::<u32>::empty());
    assert(all.drop_last() =~= two);
    assert(two.drop_last() =~= one);
    assert(one.drop_last() =~= none);
    let kept = all.filter(keep);
    assert(none.filter(keep) =~= none);
    let k1 = if keep(16) { seq![16u32] } else { none };
    assert(one.filter(keep) =~= k1);
    let k2 = if keep(32) { k1.push(32) } else { k1 };
    assert(two.filter(keep) =~= k2);
    let k3 = if keep(64) { k2.push(64) } else { k2 };
    assert(kept =~= k3);
    assert forall|n: u32| #[trigger] kept.contains(n) <==> keep(n) && (n == 16 || n == 32 || n == 64) by {
        if keep(16) {
            assert(kept[0] == 16);
        }
        if keep(32) {
            assert(kept[k1.len() as int] == 32);
        }
        if keep(64) {
            assert(kept[k2.len() as int] == 64);
        }
    }
}

/// The best outcome is a candidate that scores at least as high as every other, and higher than those before.
pub proof fn best_scores_highest(
    outcomes: Seq<Option<GridCandidate>>,
    k: int,
    i: int,
    other: GridCandidate,
)
    requires
        is_best(outcomes, k),
        0 <= i < outcomes.len(),
        outcomes[i] == Some(other),
    ensures
        outcomes[k] matches Some(best) && other.score <= best.score && (i < k ==> other.score
            < best.score),
{
}

} // verus!
