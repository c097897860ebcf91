//! Cut positions along one axis, and snapping them to strong edges.
//!
//! An axis of length `limit` is divided by cuts. Edge strengths come in as levels: integers
//! that order as the measured strengths do, with level 0 for no edge at all.

use vstd::prelude::*;
use crate::order::{
    filter_counts_alike, increasing, increasing_unique, sort_values, sorted_set, sorted_values,
    sorted_values_arrange, sorting_forgets_order, sorting_rearranges,
};

verus! {

/// The cuts rise from 0 to the end of the axis.
pub open spec fn is_grid(cuts: Seq<usize>, limit: usize) -> bool {
    &&& increasing(cuts)
    &&& cuts.len() > 0
    &&& cuts[0] == 0
    &&& cuts.last() == limit
}

/// Every position of an axis, its end among them, in order.
pub open spec fn positions(limit: usize) -> Seq<usize> {
    Seq::new((limit + 1) as nat, |i: int| i as usize)
}

/// The position is an end of the axis or one of the cuts.
pub open spec fn is_kept(cuts: Seq<usize>, limit: usize) -> spec_fn(usize) -> bool {
    |v: usize| v == 0 || v == limit || cuts.contains(v)
}

/// The two ends of the axis and the cuts between them, in order and without repetitions.
pub open spec fn sanitized(cuts: Seq<usize>, limit: usize) -> Seq<usize> {
    positions(limit).filter(is_kept(cuts, limit))
}

/// What is left of an increasing sequence by a filter is increasing, and holds what the filter keeps.
pub proof fn filter_keeps_increasing(s: Seq<usize>, keep: spec_fn(usize) -> bool)
    requires
        increasing(s),
    ensures
        increasing(s.filter(keep)),
        forall|v: usize| s.filter(keep).contains(v) <==> s.contains(v) && keep(v),
    decreases s.len(),
{
    reveal(Seq::filter);
    if s.len() > 0 {
        let s0 = s.drop_last();
        filter_keeps_increasing(s0, keep);
        let f0 = s0.filter(keep);
        let f = s.filter(keep);
        assert forall|v: usize| s.contains(v) <==> s0.contains(v) || v == s.last() by {
            if s.contains(v) {
                let k = choose|k: int| 0 <= k < s.len() && s[k] == v;
                if k < s0.len() {
                    assert(s0[k] == v);
                }
            }
            if s0.contains(v) {
                let k = choose|k: int| 0 <= k < s0.len() && s0[k] == v;
                assert(s[k] == v);
            }
            if v == s.last() {
                assert(s[s.len() - 1] == v);
            }
        }
        if keep(s.last()) {
            assert(f == f0.push(s.last()));
            assert forall|i: int, j: int| 0 <= i < j < f.len() implies f[i] < f[j] by {
                if j == f0.len() {
                    assert(f0.contains(f0[i]));
                    assert(s0.contains(f0[i]));
                    let k = choose|k: int| 0 <= k < s0.len() && s0[k] == f0[i];
                    assert(s[k] < s.last());
                }
            }
            assert forall|v: usize| f.contains(v) <==> s.contains(v) && keep(v) by {
                if f.contains(v) {
                    let k = choose|k: int| 0 <= k < f.len() && f[k] == v;
                    if k < f0.len() {
                        assert(f0[k] == v);
                        assert(f0.contains(v));
                    }
                }
                if s.contains(v) && keep(v) {
                    if s0.contains(v) {
                        assert(f0.contains(v));
                        let k = choose|k: int| 0 <= k < f0.len() && f0[k] == v;
                        assert(f[k] == v);
                    } else {
                        assert(f[f.len() - 1] == v);
                    }
                }
            }
        } else {
            assert(f == f0);
        }
    }
}

/// The sanitized cuts rise from 0 to the end of the axis, and the cuts between those two are
/// exactly the given ones.
pub proof fn sanitized_is_grid(cuts: Seq<usize>, limit: usize)
    ensures
        is_grid(sanitized(cuts, limit), limit),
        forall|v: usize|
            sanitized(cuts, limit).contains(v) <==> v == 0 || v == limit || (v < limit
                && cuts.contains(v)),
{
    let all = positions(limit);
    let keep = is_kept(cuts, limit);
    filter_keeps_increasing(all, keep);
    let s = sanitized(cuts, limit);
    assert forall|v: usize| all.contains(v) <==> v <= limit by {
        if v <= limit {
            assert(all[v as int] == v);
        }
        if all.contains(v) {
            let k = choose|k: int| 0 <= k < all.len() && all[k] == v;
            assert(v == k);
        }
    }
    assert forall|v: usize|
        s.contains(v) <==> v == 0 || v == limit || (v < limit && cuts.contains(v)) by {
        assert(s.contains(v) <==> all.contains(v) && keep(v));
    }
    assert(all.contains(0usize) && keep(0usize));
    assert(all.contains(limit) && keep(limit));
    assert(s.contains(0usize) && s.contains(limit));
    let z = choose|z: int| 0 <= z < s.len() && s[z] == 0;
    let e = choose|e: int| 0 <= e < s.len() && s[e] == limit;
    assert(s.contains(s[s.len() - 1]));
}

/// Cuts that already rise from 0 to the end of the axis stay as they are.
pub proof fn sanitized_keeps_grids(cuts: Seq<usize>, limit: usize)
    requires
        is_grid(cuts, limit),
    ensures
        sanitized(cuts, limit) == cuts,
{
    sanitized_is_grid(cuts, limit);
    let s = sanitized(cuts, limit);
    assert(cuts.contains(cuts[0]));
    assert(cuts.contains(cuts.last()));
    assert forall|v: usize| s.contains(v) <==> cuts.contains(v) by {
        if cuts.contains(v) {
            let k = choose|k: int| 0 <= k < cuts.len() && cuts[k] == v;
            assert(v <= cuts.last());
        }
    }
    increasing_unique(s, cuts);
}

/// Sanitizing a second time changes nothing.
pub proof fn sanitized_is_idempotent(cuts: Seq<usize>, limit: usize)
    ensures
        sanitized(sanitized(cuts, limit), limit) == sanitized(cuts, limit),
{
    sanitized_is_grid(cuts, limit);
    sanitized_keeps_grids(sanitized(cuts, limit), limit);
}

/// Brings cuts into order: cuts past the end move to the end, both ends are added, and
/// repetitions are dropped.
pub fn sanitize_cuts(cuts: &Vec<usize>, limit: usize) -> (clean: Vec<usize>)
    ensures
        clean@ == sanitized(cuts@, limit),
        is_grid(clean@, limit),
{
    let mut values: Vec<usize> = Vec::new();
    values.push(0);
    values.push(limit);
    let mut i: usize = 0;
    proof {
        assert(values@ =~= seq![0usize, limit]);
        assert(values@[0] == 0 && values@[1] == limit);
    }
    while i < cuts.len()
        invariant
            i <= cuts.len(),
            values@.len() == i + 2,
            values@[0] == 0,
            values@[1] == limit,
            forall|k: int|
                0 <= k < i ==> #[trigger] values@[k + 2] == if cuts@[k] < limit {
                    cuts@[k]
                } else {
                    limit
                },
        decreases cuts.len() - i,
    {
        let cut: usize = cuts[i];
        if cut < limit {
            values.push(cut);
        } else {
            values.push(limit);
        }
        i += 1;
    }
    let clean: Vec<usize> = sorted_set(&values);
    proof {
        sanitized_is_grid(cuts@, limit);
        let s = sanitized(cuts@, limit);
        assert forall|v: usize| clean@.contains(v) <==> s.contains(v) by {
            if values@.contains(v) {
                let k = choose|k: int| 0 <= k < values@.len() && values@[k] == v;
                if k >= 2 {
                    assert(values@[(k - 2) + 2] == v);
                    if v != limit {
                        assert(cuts@[k - 2] == v);
                    }
                }
            }
            if v == 0 {
                assert(values@[0] == v);
            }
            if v == limit {
                assert(values@[1] == v);
            }
            if v < limit && cuts@.contains(v) {
                let k = choose|k: int| 0 <= k < cuts@.len() && cuts@[k] == v;
                assert(values@[k + 2] == v);
            }
        }
        increasing_unique(clean@, s);
    }
    clean
}

/// The first index of the highest level from `from` up to, not including, `to`.
pub open spec fn first_peak(levels: Seq<u64>, from: int, to: int) -> int
    decreases to - from,
{
    if to <= from + 1 {
        from
    } else {
        let best = first_peak(levels, from, to - 1);
        if levels[to - 1] > levels[best] {
            to - 1
        } else {
            best
        }
    }
}

/// No level of the range is above that of the first peak, and those before it are below.
pub proof fn first_peak_is_highest(levels: Seq<u64>, from: int, to: int)
    requires
        from < to,
    ensures
        from <= first_peak(levels, from, to) < to,
        forall|i: int|
            from <= i < to ==> #[trigger] levels[i] <= levels[first_peak(levels, from, to)],
        forall|i: int|
            from <= i < first_peak(levels, from, to) ==> #[trigger] levels[i]
                < levels[first_peak(levels, from, to)],
    decreases to - from,
{
    if to > from + 1 {
        first_peak_is_highest(levels, from, to - 1);
    }
}

/// Finds the first index of the highest level in a range that is not empty.
pub fn find_first_peak(levels: &Vec<u64>, from: usize, to: usize) -> (best: usize)
    requires
        from < to <= levels@.len(),
    ensures
        best == first_peak(levels@, from as int, to as int),
        from <= best < to,
{
    let mut best: usize = from;
    let mut i: usize = from + 1;
    while i < to
        invariant
            from < i <= to <= levels@.len(),
            from <= best < i,
            best == first_peak(levels@, from as int, i as int),
        decreases to - i,
    {
        if levels[i] > levels[best] {
            best = i;
        }
        i += 1;
    }
    best
}

/// Where a cut is wanted: the window in which to look for an edge, and the position to fall back to.
#[derive(Clone, Copy, Debug)]
pub struct Guide {
    /// First position of the window.
    pub lo: isize,
    /// Last position of the window.
    pub hi: isize,
    /// The position nearest to the ideal one.
    pub nearest: isize,
}

/// The strongest edge from `start` to `end`, both included, if there is one of at least `threshold`.
pub open spec fn edge_between(levels: Seq<u64>, start: int, end: int, threshold: u64) -> Option<int> {
    let last = if end < levels.len() { end } else { levels.len() - 1 };
    if start <= last && levels[first_peak(levels, start, last + 1)] >= threshold {
        Some(first_peak(levels, start, last + 1))
    } else {
        None
    }
}

/// Looks for the strongest edge of a window.
fn find_edge(levels: &Vec<u64>, start: usize, end: usize, threshold: u64) -> (found: Option<usize>)
    requires
        0 < start,
    ensures
        match found {
            Some(at) => edge_between(levels@, start as int, end as int, threshold) == Some(
                at as int,
            ) && start <= at <= end,
            None => edge_between(levels@, start as int, end as int, threshold) is None,
        },
{
    if levels.len() == 0 {
        return None;
    }
    let last: usize = if end < levels.len() {
        end
    } else {
        levels.len() - 1
    };
    if start > last {
        return None;
    }
    let best: usize = find_first_peak(levels, start, last + 1);
    if levels[best] >= threshold {
        Some(best)
    } else {
        None
    }
}

/// The cut that follows `previous` when cells need not keep their number.
pub open spec fn uniform_cut(
    levels: Seq<u64>,
    limit: usize,
    previous: int,
    guide: Guide,
    threshold: u64,
) -> int {
    let lo = if guide.lo > previous + 1 { guide.lo as int } else { previous + 1 };
    let hi = if guide.hi < limit - 1 { guide.hi as int } else { limit - 1 };
    let (start, end) = if hi < lo { (previous + 1, previous + 1) } else { (lo, hi) };
    match edge_between(levels, start, end, threshold) {
        Some(at) => at,
        None => if guide.nearest <= previous {
            previous + 1
        } else if guide.nearest >= limit {
            limit - 1
        } else {
            guide.nearest as int
        },
    }
}

/// The cuts that the first `n` guides give, from 0 on; none is added once the axis is used up.
pub open spec fn uniform_cuts(
    levels: Seq<u64>,
    limit: usize,
    guides: Seq<Guide>,
    threshold: u64,
    n: nat,
) -> Seq<usize>
    decreases n,
{
    if n == 0 {
        seq![0usize]
    } else {
        let cuts = uniform_cuts(levels, limit, guides, threshold, (n - 1) as nat);
        if cuts.last() + 1 >= limit {
            cuts
        } else {
            cuts.push(
                uniform_cut(levels, limit, cuts.last() as int, guides[n - 1], threshold) as usize,
            )
        }
    }
}

/// The cuts of an axis that is divided along guides.
pub open spec fn snapped_uniform(
    levels: Seq<u64>,
    limit: usize,
    guides: Seq<Guide>,
    threshold: u64,
) -> Seq<usize> {
    if limit == 0 {
        seq![0usize]
    } else {
        uniform_cuts(levels, limit, guides, threshold, guides.len()).push(limit)
    }
}

/// The number of cells an axis is divided into, from the number that the step asks for.
pub open spec fn cells_wanted(rounded: usize, min_required: usize, limit: usize) -> usize {
    let least = if min_required <= 2 { 1 } else { (min_required - 1) as usize };
    let most = if rounded > least { rounded } else { least };
    if most < limit { most } else { limit }
}

/// Each guide adds at most one cut.
proof fn lemma_uniform_cuts_len(
    levels: Seq<u64>,
    limit: usize,
    guides: Seq<Guide>,
    threshold: u64,
    n: nat,
)
    ensures
        uniform_cuts(levels, limit, guides, threshold, n).len() <= n + 1,
    decreases n,
{
    if n > 0 {
        lemma_uniform_cuts_len(levels, limit, guides, threshold, (n - 1) as nat);
    }
}

/// An axis with one guide for each inner cut that is wanted is divided into no more cells than wanted.
pub proof fn snapped_uniform_has_no_more_cells(
    levels: Seq<u64>,
    limit: usize,
    guides: Seq<Guide>,
    threshold: u64,
    rounded: usize,
    min_required: usize,
)
    requires
        guides.len() + 1 == cells_wanted(rounded, min_required, limit),
    ensures
        snapped_uniform(levels, limit, guides, threshold).len() <= guides.len() + 2,
        snapped_uniform(levels, limit, guides, threshold).len() <= cells_wanted(
            rounded,
            min_required,
            limit,
        ) + 1,
{
    lemma_uniform_cuts_len(levels, limit, guides, threshold, guides.len());
}

/// Decides into how many cells an axis is divided: at least what the required number of cuts
/// needs and at least one, but no more than there are positions.
pub fn desired_cells(rounded: usize, min_required: usize, limit: usize) -> (cells: usize)
    ensures
        cells == cells_wanted(rounded, min_required, limit),
{
    let least: usize = if min_required <= 2 {
        1
    } else {
        min_required - 1
    };
    let most: usize = if rounded > least {
        rounded
    } else {
        least
    };
    if most < limit {
        most
    } else {
        limit
    }
}

/// Snaps the inner cuts of an axis to the strongest edges near their guides. Where the edges near
/// a guide are weaker than the threshold, the cut is placed at the guide itself.
pub fn snap_uniform_cuts(
    levels: &Vec<u64>,
    limit: usize,
    guides: &Vec<Guide>,
    threshold: u64,
) -> (cuts: Vec<usize>)
    requires
        limit <= isize::MAX,
    ensures
        cuts@ == snapped_uniform(levels@, limit, guides@, threshold),
        is_grid(cuts@, limit),
        cuts@.len() <= guides@.len() + 2,
{
    let mut cuts: Vec<usize> = Vec::new();
    cuts.push(0);
    proof {
        assert(cuts@ =~= seq![0usize]);
    }
    if limit == 0 {
        return cuts;
    }
    let mut previous: usize = 0;
    let mut n: usize = 0;
    while n < guides.len()
        invariant
            0 < limit <= isize::MAX,
            n <= guides@.len(),
            cuts@ == uniform_cuts(levels@, limit, guides@, threshold, n as nat),
            0 < cuts@.len() <= n + 1,
            cuts@[0] == 0,
            previous == cuts@.last(),
            previous < limit,
            increasing(cuts@),
        decreases guides.len() - n,
    {
        if previous + 1 < limit {
            let guide: Guide = guides[n];
            let floor: isize = previous as isize + 1;
            let ceiling: isize = limit as isize - 1;
            let lo: isize = if guide.lo > floor {
                guide.lo
            } else {
                floor
            };
            let hi: isize = if guide.hi < ceiling {
                guide.hi
            } else {
                ceiling
            };
            let start: usize = if hi < lo {
                floor as usize
            } else {
                lo as usize
            };
            let end: usize = if hi < lo {
                floor as usize
            } else {
                hi as usize
            };
            let cut: usize = match find_edge(levels, start, end, threshold) {
                Some(at) => at,
                None => if guide.nearest < floor {
                    previous + 1
                } else if guide.nearest > ceiling {
                    limit - 1
                } else {
                    guide.nearest as usize
                },
            };
            proof {
                assert(cut == uniform_cut(levels@, limit, previous as int, guide, threshold));
            }
            cuts.push(cut);
            previous = cut;
        }
        n += 1;
    }
    cuts.push(limit);
    cuts
}

/// The cut that follows `previous` when the axis must have exactly `cells` cells and this is
/// cut number `index`.
pub open spec fn counted_cut(
    levels: Seq<u64>,
    limit: usize,
    cells: usize,
    index: int,
    previous: int,
    guide: Guide,
    threshold: u64,
) -> int {
    let min_cut = previous + 1;
    let max_cut = limit - (cells - index);
    let start = if guide.lo > max_cut {
        max_cut
    } else if guide.lo > min_cut {
        guide.lo as int
    } else {
        min_cut
    };
    let cap = if guide.hi < max_cut { guide.hi as int } else { max_cut };
    let end = if cap > start { cap } else { start };
    match edge_between(levels, start, end, threshold) {
        Some(at) => at,
        None => if guide.nearest < min_cut {
            min_cut
        } else if guide.nearest > max_cut {
            max_cut
        } else {
            guide.nearest as int
        },
    }
}

/// The first `n` cuts after 0 of an axis with exactly `cells` cells.
pub open spec fn counted_cuts(
    levels: Seq<u64>,
    limit: usize,
    cells: usize,
    guides: Seq<Guide>,
    threshold: u64,
    n: nat,
) -> Seq<usize>
    decreases n,
{
    if n == 0 {
        seq![0usize]
    } else {
        let cuts = counted_cuts(levels, limit, cells, guides, threshold, (n - 1) as nat);
        cuts.push(
            counted_cut(
                levels,
                limit,
                cells,
                n as int,
                cuts.last() as int,
                guides[n - 1],
                threshold,
            ) as usize,
        )
    }
}

/// The cuts of an axis with exactly `cells` cells.
pub open spec fn divided(
    levels: Seq<u64>,
    limit: usize,
    cells: usize,
    guides: Seq<Guide>,
    threshold: u64,
) -> Seq<usize> {
    counted_cuts(levels, limit, cells, guides, threshold, guides.len()).push(limit)
}

/// Each guide adds a cut.
proof fn lemma_counted_cuts_len(
    levels: Seq<u64>,
    limit: usize,
    cells: usize,
    guides: Seq<Guide>,
    threshold: u64,
    n: nat,
)
    ensures
        counted_cuts(levels, limit, cells, guides, threshold, n).len() == n + 1,
    decreases n,
{
    if n > 0 {
        lemma_counted_cuts_len(levels, limit, cells, guides, threshold, (n - 1) as nat);
    }
}

/// An axis that is divided into a number of cells has one cut more.
pub proof fn divided_has_its_cells(
    levels: Seq<u64>,
    limit: usize,
    cells: usize,
    guides: Seq<Guide>,
    threshold: u64,
)
    requires
        guides.len() == cells - 1,
    ensures
        divided(levels, limit, cells, guides, threshold).len() == cells + 1,
{
    lemma_counted_cuts_len(levels, limit, cells, guides, threshold, guides.len());
}

/// Divides an axis into exactly `cells` cells, each cut at the strongest edge near its guide that
/// still leaves room for the cells after it. Where those edges are weaker than the threshold, the cut
/// is placed at the guide itself, or as near to it as the room for the other cells allows.
pub fn snap_grid_size_cuts(
    levels: &Vec<u64>,
    limit: usize,
    cells: usize,
    guides: &Vec<Guide>,
    threshold: u64,
) -> (cuts: Vec<usize>)
    requires
        0 < cells <= limit <= isize::MAX,
        guides@.len() == cells - 1,
    ensures
        cuts@ == divided(levels@, limit, cells, guides@, threshold),
        cuts@.len() == cells + 1,
        is_grid(cuts@, limit),
{
    let mut cuts: Vec<usize> = Vec::new();
    cuts.push(0);
    proof {
        assert(cuts@ =~= seq![0usize]);
    }
    let mut previous: usize = 0;
    let mut n: usize = 0;
    while n < guides.len()
        invariant
            0 < cells <= limit <= isize::MAX,
            guides@.len() == cells - 1,
            n <= guides@.len(),
            cuts@ == counted_cuts(levels@, limit, cells, guides@, threshold, n as nat),
            cuts@.len() == n + 1,
            cuts@[0] == 0,
            previous == cuts@.last(),
            previous <= limit - (cells - n),
            increasing(cuts@),
        decreases guides.len() - n,
    {
        let guide: Guide = guides[n];
        let min_cut: usize = previous + 1;
        let max_cut: usize = limit - (cells - (n + 1));
        let start: usize = if guide.lo > max_cut as isize {
            max_cut
        } else if guide.lo > min_cut as isize {
            guide.lo as usize
        } else {
            min_cut
        };
        let cap: isize = if guide.hi < max_cut as isize {
            guide.hi
        } else {
            max_cut as isize
        };
        let end: usize = if cap > start as isize {
            cap as usize
        } else {
            start
        };
        let cut: usize = match find_edge(levels, start, end, threshold) {
            Some(at) => at,
            None => if guide.nearest < min_cut as isize {
                min_cut
            } else if guide.nearest > max_cut as isize {
                max_cut
            } else {
                guide.nearest as usize
            },
        };
        proof {
            assert(cut == counted_cut(
                levels@,
                limit,
                cells,
                n + 1,
                previous as int,
                guide,
                threshold,
            ));
        }
        cuts.push(cut);
        previous = cut;
        n += 1;
    }
    cuts.push(limit);
    cuts
}

/// The distances between neighbouring cuts, those that do not rise left out.
pub open spec fn spans(cuts: Seq<usize>, n: nat) -> Seq<usize>
    decreases n,
{
    if n < 2 {
        seq![]
    } else {
        let before = spans(cuts, (n - 1) as nat);
        if cuts[n - 1] > cuts[n - 2] {
            before.push((cuts[n - 1] - cuts[n - 2]) as usize)
        } else {
            before
        }
    }
}

/// Lists the distances between neighbouring cuts that rise.
pub fn rising_spans(cuts: &Vec<usize>) -> (distances: Vec<usize>)
    ensures
        distances@ == spans(cuts@, cuts@.len()),
{
    let mut distances: Vec<usize> = Vec::new();
    proof {
        assert(distances@ =~= spans(cuts@, 0));
        assert(distances@ =~= spans(cuts@, 1));
    }
    let mut i: usize = 1;
    while i < cuts.len()
        invariant
            1 <= i,
            i <= cuts@.len() || i == 1,
            distances@ == spans(cuts@, i as nat),
        decreases cuts.len() - i,
    {
        if cuts[i] > cuts[i - 1] {
            distances.push(cuts[i] - cuts[i - 1]);
        }
        i += 1;
    }
    distances
}

/// The middle value, the upper one of the two where their number is even.
pub open spec fn upper_median(s: Seq<usize>) -> Option<usize> {
    if s.len() == 0 {
        None
    } else {
        Some(sorted_values(s)[s.len() as int / 2])
    }
}

/// Picks the middle value of a list.
pub fn find_upper_median(values: &Vec<usize>) -> (middle: Option<usize>)
    ensures
        middle == upper_median(values@),
{
    if values.len() == 0 {
        return None;
    }
    let sorted: Vec<usize> = sort_values(values);
    proof {
        sorted_values_arrange(values@);
    }
    Some(sorted[sorted.len() / 2])
}

/// The typical distance between neighbouring lines.
pub fn median_spacing(lines: &Vec<usize>) -> (spacing: Option<usize>)
    ensures
        spacing == upper_median(spans(lines@, lines@.len())),
{
    find_upper_median(&rising_spans(lines))
}

/// The middle value of a list is one of its values. No more than half of the values are below it, and
/// fewer than half are above it. There is one unless the list is empty.
pub proof fn median_is_in_the_middle(s: Seq<usize>)
    ensures
        upper_median(s) is None <==> s.len() == 0,
        upper_median(s) matches Some(d) ==> {
            &&& s.contains(d)
            &&& s.filter(|v: usize| v < d).len() <= s.len() as int / 2
            &&& s.filter(|v: usize| v > d).len() <= s.len() - s.len() as int / 2 - 1
        },
{
    if s.len() > 0 {
        let t = sorted_values(s);
        sorting_rearranges(s);
        sorted_values_arrange(s);
        let half = s.len() as int / 2;
        let d = t[half];
        assert(t.contains(d));
        let below = |v: usize| v < d;
        let above = |v: usize| v > d;
        filter_counts_alike(s, t, below);
        filter_counts_alike(s, t, above);
        let (low, high) = (t.take(half), t.skip(half));
        assert(t =~= low + high);
        Seq::filter_distributes_over_add(low, high, below);
        lemma_filter_none(high, below);
        low.lemma_filter_len(below);
        let (first, rest) = (t.take(half + 1), t.skip(half + 1));
        assert(t =~= first + rest);
        Seq::filter_distributes_over_add(first, rest, above);
        lemma_filter_none(first, above);
        rest.lemma_filter_len(above);
    }
}

/// A filter that keeps no value of a list leaves nothing.
proof fn lemma_filter_none(s: Seq<usize>, keep: spec_fn(usize) -> bool)
    requires
        forall|i: int| 0 <= i < s.len() ==> !keep(#[trigger] s[i]),
    ensures
        s.filter(keep).len() == 0,
    decreases s.len(),
{
    reveal(Seq::filter);
    if s.len() > 0 {
        lemma_filter_none(s.drop_last(), keep);
        assert(s.last() == s[s.len() - 1]);
    }
}

/// The order of a list makes no difference to its middle value.
pub proof fn median_forgets_order(a: Seq<usize>, b: Seq<usize>)
    requires
        a.to_multiset() == b.to_multiset(),
    ensures
        upper_median(a) == upper_median(b),
{
    sorting_forgets_order(a, b);
    sorting_rearranges(a);
    sorting_rearranges(b);
}

/// The distances are the differences of neighbours, in order, without those that are not above zero.
pub proof fn spans_are_differences(cuts: Seq<usize>, n: nat)
    requires
        1 <= n <= cuts.len(),
    ensures
        spans(cuts, n).map_values(|v: usize| v as int) == Seq::new(
            (n - 1) as nat,
            |k: int| cuts[k + 1] - cuts[k],
        ).filter(|d: int| d > 0),
    decreases n,
{
    reveal(Seq::filter);
    let keep = |d: int| d > 0;
    let view = |v: usize| v as int;
    let all = Seq::new((n - 1) as nat, |k: int| cuts[k + 1] - cuts[k]);
    if n == 1 {
        assert(spans(cuts, n).map_values(view) =~= all.filter(keep));
    } else {
        spans_are_differences(cuts, (n - 1) as nat);
        let before = Seq::new((n - 2) as nat, |k: int| cuts[k + 1] - cuts[k]);
        assert(all.drop_last() =~= before);
        assert(all.last() == cuts[n - 1] - cuts[n - 2]);
        assert(spans(cuts, n).map_values(view) =~= all.filter(keep));
    }
}

/// Cuts that rise have one distance between each two neighbours.
pub proof fn spans_of_rising_cuts(cuts: Seq<usize>, n: nat)
    requires
        1 <= n <= cuts.len(),
        forall|i: int, j: int| 0 <= i < j < cuts.len() ==> cuts[i] < cuts[j],
    ensures
        spans(cuts, n).len() == n - 1,
        forall|k: int| 0 <= k < n - 1 ==> #[trigger] spans(cuts, n)[k] == cuts[k + 1] - cuts[k],
    decreases n,
{
    if n > 1 {
        spans_of_rising_cuts(cuts, (n - 1) as nat);
        assert(cuts[n - 2] < cuts[n - 1]);
    }
}

/// Brought into order, cuts rise strictly from 0 to the end of the axis. Those between are the given ones
/// that lie inside the axis, and no others.
pub proof fn sanitized_cuts_rise(cuts: Seq<usize>, limit: usize)
    ensures
        sanitized(cuts, limit).len() > 0,
        sanitized(cuts, limit)[0] == 0,
        sanitized(cuts, limit).last() == limit,
        forall|i: int, j: int|
            0 <= i < j < sanitized(cuts, limit).len() ==> #[trigger] sanitized(cuts, limit)[i]
                < #[trigger] sanitized(cuts, limit)[j],
        forall|v: usize|
            0 < v < limit ==> (#[trigger] sanitized(cuts, limit).contains(v) <==> cuts.contains(v)),
{
    sanitized_is_grid(cuts, limit);
}

/// The strongest edge of a window is a place of the window whose level is at least the threshold, not
/// below any other of the window, and above all before it. There is one just when some level of the
/// window reaches the threshold.
pub proof fn edge_is_strongest(levels: Seq<u64>, start: int, end: int, threshold: u64)
    requires
        0 <= start,
    ensures
        match edge_between(levels, start, end, threshold) {
            Some(at) => {
                &&& start <= at <= end
                &&& at < levels.len()
                &&& levels[at] >= threshold
                &&& forall|i: int|
                    start <= i <= end && i < levels.len() ==> #[trigger] levels[i] <= levels[at]
                &&& forall|i: int| start <= i < at ==> #[trigger] levels[i] < levels[at]
            },
            None => forall|i: int|
                start <= i <= end && i < levels.len() ==> #[trigger] levels[i] < threshold,
        },
{
    let last = if end < levels.len() { end } else { levels.len() - 1 };
    if start <= last {
        first_peak_is_highest(levels, start, last + 1);
    }
}

/// How the cuts of an axis with a fixed number of cells lie. There is one more than there are cells, from
/// 0 to the end of the axis. Each inner cut comes after the one before and leaves room for the cells to
/// come. Its window is held to that room, and to one place where it has none. If a place of the window has
/// a level of at least the threshold, the cut is at the first place there that is not below any other;
/// else it is at the place nearest to the ideal one that has the room.
pub proof fn counted_cuts_lie_at_edges(
    levels: Seq<u64>,
    limit: usize,
    cells: usize,
    guides: Seq<Guide>,
    threshold: u64,
    k: int,
)
    requires
        0 < cells <= limit,
        guides.len() == cells - 1,
    ensures
        ({
            let cuts = divided(levels, limit, cells, guides, threshold);
            &&& cuts.len() == cells + 1
            &&& cuts[0] == 0
            &&& cuts[cells as int] == limit
        }),
        0 < k < cells ==> ({
            let cuts = divided(levels, limit, cells, guides, threshold);
            let guide = guides[k - 1];
            let (low, high) = (cuts[k - 1] + 1, limit - (cells - k));
            let from = if guide.lo > high {
                high
            } else if guide.lo > low {
                guide.lo as int
            } else {
                low
            };
            let to = if from >= guide.hi || from >= high {
                from
            } else if guide.hi < high {
                guide.hi as int
            } else {
                high
            };
            &&& low <= cuts[k] <= high
            &&& (exists|i: int|
                from <= i <= to && i < levels.len() && #[trigger] levels[i] >= threshold) ==> {
                &&& from <= cuts[k] <= to
                &&& cuts[k] < levels.len()
                &&& forall|i: int|
                    from <= i <= to && i < levels.len() ==> #[trigger] levels[i]
                        <= levels[cuts[k] as int]
                &&& forall|i: int|
                    from <= i < cuts[k] ==> #[trigger] levels[i] < levels[cuts[k] as int]
            }
            &&& (forall|i: int|
                from <= i <= to && i < levels.len() ==> #[trigger] levels[i] < threshold) ==> {
                &&& low <= guide.nearest <= high ==> cuts[k] == guide.nearest
                &&& guide.nearest < low ==> cuts[k] == low
                &&& guide.nearest > high ==> cuts[k] == high
            }
        }),
{
    lemma_counted_chain(levels, limit, cells, guides, threshold, guides.len());
    if 0 < k < cells {
        lemma_counted_chain(levels, limit, cells, guides, threshold, (k - 1) as nat);
        lemma_counted_chain(levels, limit, cells, guides, threshold, k as nat);
        lemma_counted_prefix(levels, limit, cells, guides, threshold, k as nat, guides.len());
        lemma_counted_prefix(levels, limit, cells, guides, threshold, (k - 1) as nat, guides.len());
        let before = counted_cuts(levels, limit, cells, guides, threshold, (k - 1) as nat);
        let cuts = divided(levels, limit, cells, guides, threshold);
        let inner = counted_cuts(levels, limit, cells, guides, threshold, guides.len());
        assert(cuts[k] == inner[k] && cuts[k - 1] == inner[k - 1]);
        assert(before.last() == before[k - 1]);
        let guide = guides[k - 1];
        let (low, high) = (before.last() + 1, limit - (cells - k));
        let from = if guide.lo > high {
            high
        } else if guide.lo > low {
            guide.lo as int
        } else {
            low
        };
        let cap = if guide.hi < high { guide.hi as int } else { high };
        edge_is_strongest(levels, from, if cap > from { cap } else { from }, threshold);
    }
}

/// How the cuts of an axis lie whose cells need not keep their number. They rise from 0 to the end of the
/// axis. There is one inner cut for each guide, but no more once the last lies next to the end. The window
/// of a guide is held to the places after the cut before and before the end; where that leaves none, it is
/// the place next to the cut before. If a place of the window has a level of at least the threshold, the
/// cut is at the first place there that is not below any other; else it is at the place inside the axis,
/// after the cut before, that is nearest to the ideal one.
pub proof fn uniform_cuts_lie_at_edges(
    levels: Seq<u64>,
    limit: usize,
    guides: Seq<Guide>,
    threshold: u64,
    k: int,
)
    requires
        0 < limit,
    ensures
        ({
            let cuts = snapped_uniform(levels, limit, guides, threshold);
            let last = cuts.len() - 1;
            &&& 2 <= cuts.len() <= guides.len() + 2
            &&& cuts[0] == 0
            &&& cuts[last] == limit
            &&& cuts.len() < guides.len() + 2 ==> cuts[last - 1] + 1 == limit
        }),
        0 < k < snapped_uniform(levels, limit, guides, threshold).len() - 1 ==> ({
            let cuts = snapped_uniform(levels, limit, guides, threshold);
            let guide = guides[k - 1];
            let (low, high) = (cuts[k - 1] + 1, limit - 1);
            let lo = if guide.lo > low { guide.lo as int } else { low };
            let hi = if guide.hi < high { guide.hi as int } else { high };
            let from = if hi < lo { low } else { lo };
            let to = if hi < lo { low } else { hi };
            &&& low <= cuts[k] <= high
            &&& (exists|i: int|
                from <= i <= to && i < levels.len() && #[trigger] levels[i] >= threshold) ==> {
                &&& from <= cuts[k] <= to
                &&& cuts[k] < levels.len()
                &&& forall|i: int|
                    from <= i <= to && i < levels.len() ==> #[trigger] levels[i]
                        <= levels[cuts[k] as int]
                &&& forall|i: int|
                    from <= i < cuts[k] ==> #[trigger] levels[i] < levels[cuts[k] as int]
            }
            &&& (forall|i: int|
                from <= i <= to && i < levels.len() ==> #[trigger] levels[i] < threshold) ==> {
                &&& low <= guide.nearest <= high ==> cuts[k] == guide.nearest
                &&& guide.nearest < low ==> cuts[k] == low
                &&& guide.nearest > high ==> cuts[k] == high
            }
        }),
{
    let m = guides.len();
    lemma_uniform_chain(levels, limit, guides, threshold, m);
    let inner = uniform_cuts(levels, limit, guides, threshold, m);
    let cuts = snapped_uniform(levels, limit, guides, threshold);
    if 0 < k < cuts.len() - 1 {
        lemma_uniform_chain(levels, limit, guides, threshold, (k - 1) as nat);
        lemma_uniform_prefix(levels, limit, guides, threshold, (k - 1) as nat, m);
        lemma_uniform_prefix(levels, limit, guides, threshold, k as nat, m);
        let before = uniform_cuts(levels, limit, guides, threshold, (k - 1) as nat);
        let after = uniform_cuts(levels, limit, guides, threshold, k as nat);
        lemma_uniform_chain(levels, limit, guides, threshold, k as nat);
        assert(cuts[k] == inner[k] && cuts[k - 1] == inner[k - 1]);
        assert(before.len() == k);
        assert(after.len() == k + 1);
        assert(before[k - 1] == inner[k - 1] && after[k] == inner[k]);
        let guide = guides[k - 1];
        let (low, high) = (before.last() + 1, limit - 1);
        let lo = if guide.lo > low { guide.lo as int } else { low };
        let hi = if guide.hi < high { guide.hi as int } else { high };
        edge_is_strongest(
            levels,
            if hi < lo { low } else { lo },
            if hi < lo { low } else { hi },
            threshold,
        );
    }
}

/// The cuts rise inside the axis, one for each guide while there is room.
proof fn lemma_uniform_chain(
    levels: Seq<u64>,
    limit: usize,
    guides: Seq<Guide>,
    threshold: u64,
    n: nat,
)
    requires
        0 < limit,
        n <= guides.len(),
    ensures
        ({
            let cuts = uniform_cuts(levels, limit, guides, threshold, n);
            &&& 0 < cuts.len() <= n + 1
            &&& cuts[0] == 0
            &&& cuts.last() < limit
            &&& cuts.len() < n + 1 ==> cuts.last() + 1 == limit
            &&& n > 0 && uniform_cuts(levels, limit, guides, threshold, (n - 1) as nat).last() + 1
                < limit ==> {
                let previous = uniform_cuts(
                    levels,
                    limit,
                    guides,
                    threshold,
                    (n - 1) as nat,
                ).last() as int;
                let next = uniform_cut(levels, limit, previous, guides[n - 1], threshold);
                &&& previous < next < limit
                &&& cuts.last() == next
            }
        }),
    decreases n,
{
    if n > 0 {
        lemma_uniform_chain(levels, limit, guides, threshold, (n - 1) as nat);
        let before = uniform_cuts(levels, limit, guides, threshold, (n - 1) as nat);
        if before.last() + 1 < limit {
            let guide = guides[n - 1];
            let (low, high) = (before.last() + 1, limit - 1);
            let lo = if guide.lo > low { guide.lo as int } else { low };
            let hi = if guide.hi < high { guide.hi as int } else { high };
            edge_is_strongest(
                levels,
                if hi < lo { low } else { lo },
                if hi < lo { low } else { hi },
                threshold,
            );
        }
    }
}

/// Later cuts leave the earlier ones as they are, and are added one by one.
proof fn lemma_uniform_prefix(
    levels: Seq<u64>,
    limit: usize,
    guides: Seq<Guide>,
    threshold: u64,
    m: nat,
    n: nat,
)
    requires
        0 < limit,
        m <= n <= guides.len(),
    ensures
        ({
            let few = uniform_cuts(levels, limit, guides, threshold, m);
            let all = uniform_cuts(levels, limit, guides, threshold, n);
            &&& few.len() <= all.len()
            &&& all.len() > m ==> few.len() == m + 1
            &&& forall|i: int| 0 <= i < few.len() ==> #[trigger] all[i] == few[i]
        }),
    decreases n,
{
    lemma_uniform_chain(levels, limit, guides, threshold, m);
    lemma_uniform_chain(levels, limit, guides, threshold, n);
    if m < n {
        lemma_uniform_prefix(levels, limit, guides, threshold, m, (n - 1) as nat);
        lemma_uniform_chain(levels, limit, guides, threshold, (n - 1) as nat);
        let few = uniform_cuts(levels, limit, guides, threshold, m);
        let before = uniform_cuts(levels, limit, guides, threshold, (n - 1) as nat);
        let all = uniform_cuts(levels, limit, guides, threshold, n);
        assert forall|i: int| 0 <= i < few.len() implies #[trigger] all[i] == few[i] by {
            assert(all[i] == before[i]);
        }
        if before.len() <= m {
            assert(before.last() + 1 == limit);
        }
    }
}

/// The number of cells is one of those asked for, or the most there is room for. It is as large as both
/// numbers asked for, and at least one, unless there is no room for so many.
pub proof fn wanted_cells_are_enough(rounded: usize, min_required: usize, limit: usize)
    ensures
        ({
            let cells = cells_wanted(rounded, min_required, limit);
            &&& cells <= limit
            &&& cells == limit || cells >= 1 && cells >= rounded && cells >= min_required - 1
            &&& cells <= 1 || cells <= rounded || cells <= min_required - 1
            &&& limit >= 1 ==> cells >= 1
        }),
{
}

/// The cuts rise and leave room for the cells to come.
proof fn lemma_counted_chain(
    levels: Seq<u64>,
    limit: usize,
    cells: usize,
    guides: Seq<Guide>,
    threshold: u64,
    n: nat,
)
    requires
        0 < cells <= limit,
        guides.len() == cells - 1,
        n <= guides.len(),
    ensures
        ({
            let cuts = counted_cuts(levels, limit, cells, guides, threshold, n);
            &&& cuts.len() == n + 1
            &&& cuts[0] == 0
            &&& cuts.last() <= limit - (cells - n)
            &&& n > 0 ==> cuts.last() > counted_cuts(
                levels,
                limit,
                cells,
                guides,
                threshold,
                (n - 1) as nat,
            ).last()
            &&& n > 0 ==> cuts.last() == counted_cut(
                levels,
                limit,
                cells,
                n as int,
                counted_cuts(levels, limit, cells, guides, threshold, (n - 1) as nat).last() as int,
                guides[n - 1],
                threshold,
            )
        }),
    decreases n,
{
    if n > 0 {
        lemma_counted_chain(levels, limit, cells, guides, threshold, (n - 1) as nat);
        let before = counted_cuts(levels, limit, cells, guides, threshold, (n - 1) as nat);
        let guide = guides[n - 1];
        let min_cut = before.last() + 1;
        let max_cut = limit - (cells - n);
        let start = if guide.lo > max_cut {
            max_cut
        } else if guide.lo > min_cut {
            guide.lo as int
        } else {
            min_cut
        };
        let cap = if guide.hi < max_cut { guide.hi as int } else { max_cut };
        let end = if cap > start { cap } else { start };
        edge_is_strongest(levels, start, end, threshold);
    }
}

/// Later cuts leave the earlier ones as they are.
proof fn lemma_counted_prefix(
    levels: Seq<u64>,
    limit: usize,
    cells: usize,
    guides: Seq<Guide>,
    threshold: u64,
    m: nat,
    n: nat,
)
    requires
        0 < cells <= limit,
        guides.len() == cells - 1,
        m <= n <= guides.len(),
    ensures
        forall|i: int|
            0 <= i <= m ==> #[trigger] counted_cuts(levels, limit, cells, guides, threshold, n)[i]
                == counted_cuts(levels, limit, cells, guides, threshold, m)[i],
    decreases n,
{
    lemma_counted_chain(levels, limit, cells, guides, threshold, m);
    if m < n {
        lemma_counted_chain(levels, limit, cells, guides, threshold, (n - 1) as nat);
        lemma_counted_prefix(levels, limit, cells, guides, threshold, m, (n - 1) as nat);
        let before = counted_cuts(levels, limit, cells, guides, threshold, (n - 1) as nat);
        let all = counted_cuts(levels, limit, cells, guides, threshold, n);
        assert forall|i: int| 0 <= i <= m implies #[trigger] all[i] == counted_cuts(
            levels,
            limit,
            cells,
            guides,
            threshold,
            m,
        )[i] by {
            assert(all[i] == before[i]);
        }
    }
}

} // verus!
