//! Mending cuts: an axis with too few of them, or with cells of another size than its sibling, is
//! divided anew.

use vstd::prelude::*;
use crate::cuts::{is_grid, sanitize_cuts, sanitized, sanitized_cuts_rise};
use crate::steps::Step;

verus! {

/// What becomes of the cuts of an axis.
#[derive(Debug)]
pub enum Stabilized {
    /// They stay, in good order.
    Keep(Vec<usize>),
    /// The axis is divided anew.
    Snap {
        /// The step to aim for.
        step: Step,
        /// How many cuts there must be.
        min_required: usize,
    },
}

/// How many cuts an axis must have: as many as asked for and at least its ends, but no more than it
/// has places.
pub open spec fn required_cuts(min_cuts: usize, limit: usize) -> int {
    let asked = if min_cuts > 2 { min_cuts as int } else { 2 };
    let places = if limit == usize::MAX { limit as int } else { limit + 1 };
    if asked < places { asked } else { places }
}

/// The cells between cuts.
pub open spec fn cells(cuts: nat) -> int {
    if cuts == 0 { 0 } else { cuts - 1 }
}

/// The sibling axis has enough cells to go by.
pub open spec fn has_grid(sibling_cuts: nat, sibling_limit: usize, required: int) -> bool {
    sibling_limit > 0 && cells(sibling_cuts) >= required - 1 && cells(sibling_cuts) > 0
}

/// The step to aim for: that of the sibling if it has a grid, else what divides the axis into the
/// fallback number of segments, else its own.
pub open spec fn aimed_step(
    cuts: nat,
    limit: usize,
    sibling_cuts: nat,
    sibling_limit: usize,
    required: int,
    segments: usize,
) -> Step {
    if has_grid(sibling_cuts, sibling_limit, required) {
        Step { num: sibling_limit as u64, den: cells(sibling_cuts) as u64 }
    } else if segments > 1 {
        Step { num: limit as u64, den: segments as u64 }
    } else {
        Step { num: limit as u64, den: cells(cuts) as u64 }
    }
}

/// What becomes of the cuts of an axis: they stay, in good order, if there are enough and they are not skewed
/// against a sibling with a grid; else the axis is divided anew.
pub open spec fn is_stabilized(
    cuts: Seq<usize>,
    limit: usize,
    sibling_cuts: nat,
    sibling_limit: usize,
    min_cuts: usize,
    segments: usize,
    skewed: bool,
    done: Stabilized,
) -> bool {
    let clean = sanitized(cuts, limit);
    let required = required_cuts(min_cuts, limit);
    let grid = has_grid(sibling_cuts, sibling_limit, required);
    if limit == 0 || (clean.len() >= required && !(skewed && grid)) {
        done matches Stabilized::Keep(kept) && kept@ == clean && is_grid(kept@, limit)
    } else {
        done matches Stabilized::Snap { step, min_required } && min_required == required && step
            == aimed_step(
            clean.len(),
            limit,
            sibling_cuts,
            sibling_limit,
            required,
            segments,
        ) && step.num > 0 && step.den > 0
    }
}

/// Decides what becomes of the cuts of an axis. `skewed` says that its cells and those of its sibling
/// differ in size by more than is allowed; it counts only where the sibling has a grid.
pub fn stabilize_cuts(
    cuts: &Vec<usize>,
    limit: usize,
    sibling_cuts: &Vec<usize>,
    sibling_limit: usize,
    min_cuts: usize,
    segments: usize,
    skewed: bool,
) -> (done: Stabilized)
    ensures
        is_stabilized(
            cuts@,
            limit,
            sibling_cuts@.len(),
            sibling_limit,
            min_cuts,
            segments,
            skewed,
            done,
        ),
{
    let clean: Vec<usize> = sanitize_cuts(cuts, limit);
    if limit == 0 {
        return Stabilized::Keep(clean);
    }
    proof {
        assert(clean@[0] == 0 && clean@.last() == limit);
        assert(clean@.len() >= 2);
    }
    let asked: usize = if min_cuts > 2 {
        min_cuts
    } else {
        2
    };
    let places: usize = if limit == usize::MAX {
        limit
    } else {
        limit + 1
    };
    let required: usize = if asked < places {
        asked
    } else {
        places
    };
    let sibling_cells: usize = if sibling_cuts.len() == 0 {
        0
    } else {
        sibling_cuts.len() - 1
    };
    let grid: bool = sibling_limit > 0 && sibling_cells >= required - 1 && sibling_cells > 0;
    if clean.len() >= required && !(skewed && grid) {
        return Stabilized::Keep(clean);
    }
    let step: Step = if grid {
        Step { num: sibling_limit as u64, den: sibling_cells as u64 }
    } else if segments > 1 {
        Step { num: limit as u64, den: segments as u64 }
    } else {
        Step { num: limit as u64, den: (clean.len() - 1) as u64 }
    };
    Stabilized::Snap { step, min_required: required }
}

/// Which axis is divided anew so that the two agree.
#[derive(Clone, Copy, Debug, PartialEq, Eq, Structural)]
pub enum Settlement {
    /// Neither.
    Keep,
    /// The columns, with the step of the rows.
    Columns(Step),
    /// The rows, with the step of the columns.
    Rows(Step),
}

/// The cells of an axis, counted as one where there are no cuts to bound them.
pub open spec fn cells_at_least_one(cuts: nat) -> int {
    if cuts < 2 { 1 } else { cuts - 1 }
}

/// An axis whose cells are larger than those of the other by more than a fifth is divided anew with the
/// step of the other.
pub open spec fn settlement(
    col_cuts: nat,
    row_cuts: nat,
    width: usize,
    height: usize,
    skewed: bool,
) -> Settlement {
    let cols = cells_at_least_one(col_cuts);
    let rows = cells_at_least_one(row_cuts);
    if skewed && 5 * (width * rows) > 6 * (height * cols) {
        Settlement::Columns(Step { num: height as u64, den: rows as u64 })
    } else if skewed && 5 * (height * cols) > 6 * (width * rows) {
        Settlement::Rows(Step { num: width as u64, den: cols as u64 })
    } else {
        Settlement::Keep
    }
}

/// Decides which axis is divided anew. `skewed` says that the cells of the two differ in size by more
/// than is allowed.
pub fn stabilize_both_axes(
    col_cuts: &Vec<usize>,
    row_cuts: &Vec<usize>,
    width: usize,
    height: usize,
    skewed: bool,
) -> (settled: Settlement)
    ensures
        settled == settlement(col_cuts@.len(), row_cuts@.len(), width, height, skewed),
{
    let cols: usize = if col_cuts.len() < 2 {
        1
    } else {
        col_cuts.len() - 1
    };
    let rows: usize = if row_cuts.len() < 2 {
        1
    } else {
        row_cuts.len() - 1
    };
    proof {
        assert(0 <= width * rows <= u128::MAX && 0 <= height * cols <= u128::MAX)
            by (nonlinear_arith)
            requires
                0 <= width <= 0xffff_ffff_ffff_ffff,
                0 <= height <= 0xffff_ffff_ffff_ffff,
                0 <= rows <= 0xffff_ffff_ffff_ffff,
                0 <= cols <= 0xffff_ffff_ffff_ffff,
        ;
    }
    let wide: u128 = width as u128 * rows as u128;
    let high: u128 = height as u128 * cols as u128;
    if skewed && wide > high && wide - high > high / 5 {
        Settlement::Columns(Step { num: height as u64, den: rows as u64 })
    } else if skewed && high > wide && high - wide > wide / 5 {
        Settlement::Rows(Step { num: width as u64, den: cols as u64 })
    } else {
        Settlement::Keep
    }
}

/// Axes with cells of the same size are left alone, and exchanging the axes exchanges the outcome.
pub proof fn settlement_is_symmetric(
    col_cuts: nat,
    row_cuts: nat,
    width: usize,
    height: usize,
    skewed: bool,
)
    ensures
        settlement(row_cuts, col_cuts, height, width, skewed) == match settlement(
            col_cuts,
            row_cuts,
            width,
            height,
            skewed,
        ) {
            Settlement::Keep => Settlement::Keep,
            Settlement::Columns(step) => Settlement::Rows(step),
            Settlement::Rows(step) => Settlement::Columns(step),
        },
        width * cells_at_least_one(row_cuts) == height * cells_at_least_one(col_cuts)
            ==> settlement(col_cuts, row_cuts, width, height, skewed) == Settlement::Keep,
{
    let cols = cells_at_least_one(col_cuts);
    let rows = cells_at_least_one(row_cuts);
    assert(width * rows >= 0 && height * cols >= 0) by (nonlinear_arith)
        requires
            width >= 0,
            height >= 0,
            cols >= 1,
            rows >= 1,
    ;
}

/// How many cuts an axis must have: at least two, as many as asked for, and no more than its places.
pub proof fn required_cuts_are_asked_for(min_cuts: usize, limit: usize)
    requires
        0 < limit < usize::MAX,
    ensures
        2 <= required_cuts(min_cuts, limit) <= limit + 1,
        required_cuts(min_cuts, limit) >= min_cuts || required_cuts(min_cuts, limit) == limit + 1,
        required_cuts(min_cuts, limit) <= min_cuts || required_cuts(min_cuts, limit) == 2,
{
}

/// When the cuts of an axis stay, and what it is divided by when they do not. Let `r` be the number of cuts
/// that it must have, and let the sibling have a grid if its side is not empty and it has at least `r` cuts.
/// The cuts stay, brought into order, just when there are at least `r` of them, and the axis is not skewed
/// against a sibling with a grid. Else the step aimed for is the side of the sibling divided by its cells, if
/// it has a grid; else the length of the axis divided by the fallback number of cells, if that is above one;
/// else the length divided by its own cells.
pub proof fn axes_are_stabilized(
    cuts: Seq<usize>,
    limit: usize,
    sibling_cuts: nat,
    sibling_limit: usize,
    min_cuts: usize,
    segments: usize,
    skewed: bool,
    done: Stabilized,
)
    requires
        is_stabilized(
            cuts,
            limit,
            sibling_cuts,
            sibling_limit,
            min_cuts,
            segments,
            skewed,
            done,
        ),
        0 < limit < usize::MAX,
        sibling_cuts <= usize::MAX,
    ensures
        ({
            let clean = sanitized(cuts, limit);
            let r = required_cuts(min_cuts, limit);
            let grid = sibling_limit > 0 && sibling_cuts >= r;
            &&& done is Keep <==> clean.len() >= r && !(skewed && grid)
            &&& done matches Stabilized::Keep(kept) ==> kept@ == clean
            &&& done matches Stabilized::Snap { step, min_required } ==> {
                &&& min_required == r
                &&& step.den > 0
                &&& grid ==> step.num * (sibling_cuts - 1) == sibling_limit * step.den
                &&& !grid && segments > 1 ==> step.num * segments == limit * step.den
                &&& !grid && segments <= 1 ==> step.num * (clean.len() - 1) == limit * step.den
            }
        }),
{
    let clean = sanitized(cuts, limit);
    sanitized_cuts_rise(cuts, limit);
    assert(clean.len() >= 2);
    assert(cells(sibling_cuts) as u64 == cells(sibling_cuts));
    if let Stabilized::Snap { step, min_required } = done {
        assert(clean.len() < min_required || (skewed && has_grid(
            sibling_cuts,
            sibling_limit,
            min_required as int,
        )));
        if !has_grid(sibling_cuts, sibling_limit, min_required as int) {
            assert(clean.len() - 1 <= usize::MAX);
        }
    }
}

/// An axis is divided anew just when the axes are skewed and its cells are longer than those of the other
/// axis by more than a fifth, and then with the length of those. An axis without cells counts as one.
pub proof fn longer_cells_are_divided(
    col_cuts: nat,
    row_cuts: nat,
    width: usize,
    height: usize,
    skewed: bool,
)
    requires
        col_cuts <= usize::MAX,
        row_cuts <= usize::MAX,
    ensures
        ({
            let cols = if col_cuts < 2 { 1 } else { col_cuts - 1 };
            let rows = if row_cuts < 2 { 1 } else { row_cuts - 1 };
            let settled = settlement(col_cuts, row_cuts, width, height, skewed);
            &&& settled is Columns <==> skewed && 5 * (width * rows) > 6 * (height * cols)
            &&& settled is Rows <==> skewed && 5 * (height * cols) > 6 * (width * rows)
            &&& settled matches Settlement::Columns(step) ==> step.den > 0 && step.num * rows == height
                * step.den
            &&& settled matches Settlement::Rows(step) ==> step.den > 0 && step.num * cols == width
                * step.den
        }),
{
    let cols = if col_cuts < 2 { 1 } else { col_cuts - 1 };
    let rows = if row_cuts < 2 { 1 } else { row_cuts - 1 };
    assert(width * rows >= 0 && height * cols >= 0) by (nonlinear_arith)
        requires
            width >= 0,
            height >= 0,
            cols >= 1,
            rows >= 1,
    ;
}

/// An axis without length keeps the one cut that it has room for.
pub proof fn empty_axes_have_one_cut(
    cuts: Seq<usize>,
    sibling_cuts: nat,
    sibling_limit: usize,
    min_cuts: usize,
    segments: usize,
    skewed: bool,
    done: Stabilized,
)
    requires
        is_stabilized(cuts, 0, sibling_cuts, sibling_limit, min_cuts, segments, skewed, done),
    ensures
        done matches Stabilized::Keep(kept) && kept@.len() == 1 && kept@[0] == 0,
{
    sanitized_cuts_rise(cuts, 0);
}

} // verus!
