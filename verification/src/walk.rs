//! Walking along an axis from edge to edge.
//!
//! The walk keeps a position that need not be whole. Where the next cut is expected is reckoned
//! from it outside; here it is decided where the cut falls and where the walk goes on.

use vstd::prelude::*;
use crate::cuts::{find_first_peak, first_peak, first_peak_is_highest, is_grid};
use crate::error::{processing_error, PixelSnapperError};
use crate::order::increasing;

verus! {

/// How far the next step of the walk reaches.
#[derive(Clone, Copy, Debug)]
pub enum Reach {
    /// To the end of the axis or past it.
    End,
    /// To a target inside the axis.
    Inside {
        /// First place at which to look for an edge.
        start: usize,
        /// The place after the last at which to look.
        end: usize,
        /// The whole place of the target.
        target: usize,
    },
}

/// Where the walk goes on.
#[derive(Clone, Copy, Debug, PartialEq, Eq, Structural)]
pub enum Position {
    /// At the edge at this place.
    Edge(usize),
    /// At the target.
    Target,
    /// Nowhere: the end is reached.
    Done,
}

/// A walk, and the cuts it has made.
#[derive(Debug)]
pub struct Walker {
    pub cuts: Vec<usize>,
}

/// Where the walk goes on after a step.
pub open spec fn next_position(levels: Seq<u64>, reach: Reach, threshold: u64) -> Position {
    match reach {
        Reach::End => Position::Done,
        Reach::Inside { start, end, target } => if end <= start {
            Position::Target
        } else {
            let best = first_peak(levels, start as int, end as int);
            if levels[best] > threshold {
                Position::Edge(best as usize)
            } else {
                Position::Target
            }
        },
    }
}

/// The cut that a step makes. None is made where there is no place at which to look.
pub open spec fn next_cut(levels: Seq<u64>, limit: usize, reach: Reach, threshold: u64) -> Option<
    usize,
> {
    match reach {
        Reach::End => Some(limit),
        Reach::Inside { start, end, target } => if end <= start {
            None
        } else {
            match next_position(levels, reach, threshold) {
                Position::Edge(at) => Some(at),
                _ => Some(target),
            }
        },
    }
}

/// The places at which a step looks, and its target, lie after a place.
pub open spec fn is_after(reach: Reach, place: usize, limit: usize) -> bool {
    match reach {
        Reach::End => place < limit,
        Reach::Inside { start, end, target } => place < start && place < target,
    }
}

/// The cuts after one more step.
pub open spec fn stepped(
    cuts: Seq<usize>,
    levels: Seq<u64>,
    limit: usize,
    reach: Reach,
    threshold: u64,
) -> Seq<usize> {
    match next_cut(levels, limit, reach, threshold) {
        Some(cut) => cuts.push(cut),
        None => cuts,
    }
}

/// The cuts of a walk from the beginning of an axis, after some steps.
pub open spec fn walked(
    levels: Seq<u64>,
    limit: usize,
    reaches: Seq<Reach>,
    threshold: u64,
) -> Seq<usize>
    decreases reaches.len(),
{
    if reaches.len() == 0 {
        seq![0usize]
    } else {
        stepped(
            walked(levels, limit, reaches.drop_last(), threshold),
            levels,
            limit,
            reaches.last(),
            threshold,
        )
    }
}

/// Every step of the walk lies after the last cut before it.
pub open spec fn goes_forward(
    levels: Seq<u64>,
    limit: usize,
    reaches: Seq<Reach>,
    threshold: u64,
) -> bool {
    forall|n: int|
        0 <= n < reaches.len() ==> is_after(
            #[trigger] reaches[n],
            walked(levels, limit, reaches.take(n), threshold).last(),
            limit,
        )
}

/// The cuts of a walk that goes forward rise from 0.
proof fn lemma_walk_rises(levels: Seq<u64>, limit: usize, reaches: Seq<Reach>, threshold: u64)
    requires
        goes_forward(levels, limit, reaches, threshold),
    ensures
        increasing(walked(levels, limit, reaches, threshold)),
        walked(levels, limit, reaches, threshold).len() > 0,
        walked(levels, limit, reaches, threshold)[0] == 0,
    decreases reaches.len(),
{
    if reaches.len() > 0 {
        let before = reaches.drop_last();
        let last = reaches.len() - 1;
        assert forall|n: int| 0 <= n < before.len() implies is_after(
            #[trigger] before[n],
            walked(levels, limit, before.take(n), threshold).last(),
            limit,
        ) by {
            assert(before.take(n) =~= reaches.take(n));
            assert(before[n] == reaches[n]);
        }
        lemma_walk_rises(levels, limit, before, threshold);
        assert(reaches.take(last) =~= before);
        assert(is_after(
            reaches[last],
            walked(levels, limit, before, threshold).last(),
            limit,
        ));
        if let Reach::Inside { start, end, target } = reaches[last] {
            if start < end {
                first_peak_is_highest(levels, start as int, end as int);
            }
        }
    }
}

/// A walk that goes forward to the end of the axis divides it.
pub proof fn walk_to_the_end_makes_a_grid(
    levels: Seq<u64>,
    limit: usize,
    reaches: Seq<Reach>,
    threshold: u64,
)
    requires
        goes_forward(levels, limit, reaches, threshold),
        reaches.len() > 0,
        reaches.last() is End,
    ensures
        is_grid(walked(levels, limit, reaches, threshold), limit),
{
    lemma_walk_rises(levels, limit, reaches, threshold);
}

impl Walker {
    /// Starts a walk at the beginning of an axis. There must be levels to walk on.
    pub fn start(levels: &Vec<u64>) -> (walker: Result<Walker, PixelSnapperError>)
        ensures
            walker is Ok <==> levels@.len() > 0,
            match walker {
                Ok(w) => w.cuts@ == seq![0usize],
                Err(e) => e.is_processing_error("Cannot walk on empty profile"@),
            },
    {
        if levels.len() == 0 {
            return Err(processing_error("Cannot walk on empty profile"));
        }
        let mut cuts: Vec<usize> = Vec::new();
        cuts.push(0);
        proof {
            assert(cuts@ =~= seq![0usize]);
        }
        Ok(Walker { cuts })
    }

    /// Makes one step: cuts at the strongest edge within reach if it is stronger than the threshold,
    /// else at the target.
    pub fn advance(&mut self, levels: &Vec<u64>, limit: usize, reach: Reach, threshold: u64) -> (at:
        Position)
        requires
            reach matches Reach::Inside { start, end, target } ==> end <= levels@.len(),
        ensures
            at == next_position(levels@, reach, threshold),
            final(self).cuts@ == stepped(old(self).cuts@, levels@, limit, reach, threshold),
            increasing(old(self).cuts@) && old(self).cuts@.len() > 0 && is_after(
                reach,
                old(self).cuts@.last(),
                limit,
            ) ==> increasing(final(self).cuts@),
    {
        match reach {
            Reach::End => {
                self.cuts.push(limit);
                Position::Done
            },
            Reach::Inside { start, end, target } => {
                if end <= start {
                    return Position::Target;
                }
                let best: usize = find_first_peak(levels, start, end);
                if levels[best] > threshold {
                    self.cuts.push(best);
                    Position::Edge(best)
                } else {
                    self.cuts.push(target);
                    Position::Target
                }
            },
        }
    }
}

/// A step that reaches inside the axis cuts at the first place of the whole window whose level is not below
/// any other of the window, and goes on from there, if a level of the window is above the threshold. If
/// none is, it cuts at the target and goes on from the target. Where the window holds no place it makes no
/// cut and goes on from the target.
pub proof fn step_cuts_at_strongest_edge(
    levels: Seq<u64>,
    limit: usize,
    start: usize,
    end: usize,
    target: usize,
    threshold: u64,
    cuts: Seq<usize>,
)
    requires
        end <= levels.len(),
    ensures
        ({
            let reach = Reach::Inside { start, end, target };
            let after = stepped(cuts, levels, limit, reach, threshold);
            &&& (exists|i: int| start <= i < end && #[trigger] levels[i] > threshold) ==> (
            next_position(levels, reach, threshold) matches Position::Edge(at) && {
                &&& start <= at < end
                &&& levels[at as int] > threshold
                &&& forall|i: int| start <= i < end ==> #[trigger] levels[i] <= levels[at as int]
                &&& forall|i: int| start <= i < at ==> #[trigger] levels[i] < levels[at as int]
                &&& after == cuts.push(at)
            })
            &&& start < end && (forall|i: int|
                start <= i < end ==> #[trigger] levels[i] <= threshold) ==> next_position(
                levels,
                reach,
                threshold,
            ) == Position::Target && after == cuts.push(target)
            &&& end <= start ==> next_position(levels, reach, threshold) == Position::Target && after
                == cuts
        }),
{
    if start < end {
        first_peak_is_highest(levels, start as int, end as int);
    }
}

/// A step that reaches the end of the axis cuts there, and the walk is done.
pub proof fn step_to_the_end_cuts_there(
    levels: Seq<u64>,
    limit: usize,
    threshold: u64,
    cuts: Seq<usize>,
)
    ensures
        next_position(levels, Reach::End, threshold) == Position::Done,
        stepped(cuts, levels, limit, Reach::End, threshold) == cuts.push(limit),
{
}

/// A walk that goes forward to the end makes cuts that rise strictly from 0 to the end of the axis.
pub proof fn walked_cuts_rise(
    levels: Seq<u64>,
    limit: usize,
    reaches: Seq<Reach>,
    threshold: u64,
    i: int,
    j: int,
)
    requires
        goes_forward(levels, limit, reaches, threshold),
        reaches.len() > 0,
        reaches.last() is End,
        0 <= i < j < walked(levels, limit, reaches, threshold).len(),
    ensures
        walked(levels, limit, reaches, threshold)[i] < walked(levels, limit, reaches, threshold)[j],
        walked(levels, limit, reaches, threshold)[0] == 0,
        walked(levels, limit, reaches, threshold).last() == limit,
{
    walk_to_the_end_makes_a_grid(levels, limit, reaches, threshold);
}

} // verus!
