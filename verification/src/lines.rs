//! Strong lines of an axis, and evenly spaced cuts laid along them.

use vstd::prelude::*;
use crate::cuts::{
    filter_keeps_increasing, find_first_peak, first_peak, first_peak_is_highest, is_grid,
    median_spacing, positions, spans, upper_median,
};
use crate::order::{
    find_first_lowest, first_lowest, first_lowest_is_lowest, increasing, increasing_unique,
};
use crate::steps::{
    find_trial_steps, is_close, rounded_mean, spans_of_spaced, step_close, trial_steps,
    tried_steps_are_near_the_mean, Step,
};

verus! {

/// All levels from one place to another, both included, reach the threshold.
pub open spec fn all_strong(levels: Seq<u64>, threshold: u64, from: int, to: int) -> bool {
    forall|i: int| from <= i <= to ==> #[trigger] levels[i] >= threshold
}

/// The place is the first highest of the run of strong levels around it. Runs lie between the first and
/// the last place, which belong to none, and a place next to the first is no crest: its line would fall
/// together with the start of the axis.
pub open spec fn is_crest(levels: Seq<u64>, threshold: u64, v: int) -> bool {
    &&& 2 <= v
    &&& v + 1 < levels.len()
    &&& levels[v] >= threshold
    &&& forall|u: int|
        1 <= u < v && all_strong(levels, threshold, u, v) ==> #[trigger] levels[u] < levels[v]
    &&& forall|u: int|
        v < u && u + 1 < levels.len() && all_strong(levels, threshold, v, u)
            ==> #[trigger] levels[u] <= levels[v]
}

/// The position is an end of the axis or a crest.
pub open spec fn is_line(levels: Seq<u64>, threshold: u64, limit: usize) -> spec_fn(usize) -> bool {
    |v: usize| v == 0 || v == limit || is_crest(levels, threshold, v as int)
}

/// All lines of an axis: its start, the crests, and its end, in order.
pub open spec fn strong_lines(levels: Seq<u64>, threshold: u64, limit: usize) -> Seq<usize> {
    positions(limit).filter(is_line(levels, threshold, limit))
}

/// A sequence of positions that a filter leaves rises from 0 to the end of the axis, if the filter keeps
/// both ends, and holds just the positions that the filter keeps.
proof fn lemma_kept_positions(limit: usize, keep: spec_fn(usize) -> bool)
    requires
        keep(0),
        keep(limit),
    ensures
        is_grid(positions(limit).filter(keep), limit),
        forall|v: usize|
            positions(limit).filter(keep).contains(v) <==> v <= limit && #[trigger] keep(v),
{
    let all = positions(limit);
    filter_keeps_increasing(all, keep);
    let s = all.filter(keep);
    assert forall|v: usize| all.contains(v) <==> v <= limit by {
        if v <= limit {
            assert(all[v as int] == v);
        }
    }
    assert forall|v: usize| s.contains(v) <==> v <= limit && #[trigger] keep(v) by {
        assert(s.contains(v) <==> all.contains(v) && keep(v));
    }
    assert(s.contains(0usize) && s.contains(limit));
    let z = choose|z: int| 0 <= z < s.len() && s[z] == 0;
    let e = choose|e: int| 0 <= e < s.len() && s[e] == limit;
    assert(s.contains(s[s.len() - 1]));
}

/// Lines rise from the start of the axis to its end and, but for the end, are at least two apart. Each
/// line inside the axis reaches the threshold and is above the level before it. It is not below the level
/// after it either, unless that is the last level, which belongs to no run.
pub proof fn strong_lines_stand_out(levels: Seq<u64>, threshold: u64, limit: usize, k: int)
    requires
        0 <= k < strong_lines(levels, threshold, limit).len(),
    ensures
        is_grid(strong_lines(levels, threshold, limit), limit),
        ({
            let v = strong_lines(levels, threshold, limit)[k];
            0 < v < limit ==> {
                &&& levels[v as int] >= threshold
                &&& levels[v - 1] < levels[v as int]
                &&& v + 2 < levels.len() ==> levels[v + 1] <= levels[v as int]
            }
        }),
        forall|j: int|
            0 <= j < k && strong_lines(levels, threshold, limit)[k] != limit ==> strong_lines(
                levels,
                threshold,
                limit,
            )[k] - #[trigger] strong_lines(levels, threshold, limit)[j] >= 2,
{
    let s = strong_lines(levels, threshold, limit);
    let keep = is_line(levels, threshold, limit);
    assert(keep(0) && keep(limit));
    lemma_kept_positions(limit, keep);
    let v = s[k];
    assert(s.contains(v));
    assert(keep(v));
    if 0 < v < limit {
        let w = v as int;
        assert(is_crest(levels, threshold, w));
        if levels[w - 1] >= threshold {
            assert(all_strong(levels, threshold, w - 1, w));
        }
        if w + 2 < levels.len() && levels[w + 1] >= threshold {
            assert(all_strong(levels, threshold, w, w + 1));
        }
    }
    assert forall|j: int| 0 <= j < k && v != limit implies v - #[trigger] s[j] >= 2 by {
        assert(s[j] < s[k]);
        assert(s[k] <= s.last());
        let u = s[j];
        assert(s.contains(u));
        assert(keep(u));
        if u > 0 && v == u + 1 {
            assert(is_crest(levels, threshold, u as int));
            assert(all_strong(levels, threshold, u as int, v as int));
            assert(levels[v as int] <= levels[u as int]);
            assert(levels[u as int] < levels[v as int]);
        }
    }
}

/// In a run of strong levels that cannot be made longer, the first highest is the crest, and no other
/// place.
proof fn lemma_run_crest(levels: Seq<u64>, threshold: u64, start: int, end: int, v: int)
    requires
        1 <= start <= v < end < levels.len(),
        all_strong(levels, threshold, start, end - 1),
        start == 1 || levels[start - 1] < threshold,
        end + 1 == levels.len() || levels[end] < threshold,
    ensures
        is_crest(levels, threshold, v) <==> v == first_peak(levels, start, end) && v >= 2,
{
    first_peak_is_highest(levels, start, end);
    let best = first_peak(levels, start, end);
    if v == best && v >= 2 {
        assert forall|u: int| 1 <= u < v && all_strong(levels, threshold, u, v) implies
            #[trigger] levels[u] < levels[v] by {
            if u < start {
                assert(levels[start - 1] >= threshold);
            }
        }
        assert forall|u: int|
            v < u && u + 1 < levels.len() && all_strong(levels, threshold, v, u) implies
            #[trigger] levels[u] <= levels[v] by {
            if u >= end {
                assert(levels[end] >= threshold);
            }
        }
        assert(levels[v] >= threshold);
    }
    if v < best {
        assert(all_strong(levels, threshold, v, best));
        assert(levels[v] < levels[best]);
    }
    if v > best {
        assert(all_strong(levels, threshold, best, v));
        assert(levels[v] <= levels[best]);
    }
}

/// Finds the strong lines of an axis, one for each run of levels that reach the threshold. There
/// must be at least two besides the ends of the axis.
pub fn detect_strong_line_positions(levels: &Vec<u64>, limit: usize, threshold: u64) -> (found:
    Option<Vec<usize>>)
    ensures
        found is Some <==> levels@.len() >= 3 && limit >= 2 && strong_lines(
            levels@,
            threshold,
            limit,
        ).len() >= 4,
        found matches Some(lines) ==> lines@ == strong_lines(levels@, threshold, limit) && is_grid(
            lines@,
            limit,
        ),
{
    let count: usize = levels.len();
    if count < 3 || limit < 2 {
        return None;
    }
    let mut lines: Vec<usize> = Vec::new();
    lines.push(0);
    proof {
        assert(lines@ =~= seq![0usize]);
        assert(lines@[0] == 0);
    }
    let mut i: usize = 1;
    while i < count - 1
        invariant
            count == levels@.len(),
            3 <= count,
            2 <= limit,
            1 <= i < count,
            lines@.len() > 0,
            lines@[0] == 0,
            increasing(lines@),
            lines@.last() < i,
            lines@.last() < limit,
            i == 1 || i + 1 == count || levels@[i - 1] < threshold || levels@[i as int] < threshold,
            forall|v: usize|
                #[trigger] lines@.contains(v) <==> v == 0 || (v < i && v < limit && is_crest(
                    levels@,
                    threshold,
                    v as int,
                )),
        decreases count - i,
    {
        if levels[i] < threshold {
            proof {
                assert(!is_crest(levels@, threshold, i as int));
            }
            i += 1;
            continue ;
        }
        let start: usize = i;
        while i < count - 1 && levels[i] >= threshold
            invariant
                count == levels@.len(),
                3 <= count,
                1 <= start <= i < count,
                start + 1 < count,
                levels@[start as int] >= threshold,
                all_strong(levels@, threshold, start as int, i - 1),
            decreases count - i,
        {
            i += 1;
        }
        let best: usize = find_first_peak(levels, start, i);
        let ghost before = lines@;
        proof {
            assert forall|v: usize| start <= v < i implies (#[trigger] is_crest(
                levels@,
                threshold,
                v as int,
            ) <==> v == best && v >= 2) by {
                lemma_run_crest(levels@, threshold, start as int, i as int, v as int);
            }
            let last = before.last();
            assert(before.contains(last));
            assert(last == 0 || last + 1 < start) by {
                if last > 0 {
                    assert(is_crest(levels@, threshold, last as int));
                }
            }
        }
        if best < limit && best > 1 {
            lines.push(best);
        }
        proof {
            assert forall|v: usize|
                #[trigger] lines@.contains(v) <==> v == 0 || (v < i && v < limit && is_crest(
                    levels@,
                    threshold,
                    v as int,
                )) by {
                if lines@.contains(v) {
                    let k = choose|k: int| 0 <= k < lines@.len() && lines@[k] == v;
                    if k < before.len() {
                        assert(before[k] == v);
                        assert(before.contains(v));
                    }
                }
                if before.contains(v) {
                    let k = choose|k: int| 0 <= k < before.len() && before[k] == v;
                    assert(lines@[k] == v);
                }
                if v == best && best < limit && best > 1 {
                    assert(lines@[before.len() as int] == v);
                }
            }
        }
    }
    let ghost inner = lines@;
    lines.push(limit);
    proof {
        let s = strong_lines(levels@, threshold, limit);
        let keep = is_line(levels@, threshold, limit);
        assert(keep(0) && keep(limit));
        lemma_kept_positions(limit, keep);
        assert forall|v: usize| lines@.contains(v) <==> s.contains(v) by {
            assert(s.contains(v) <==> v <= limit && keep(v));
            if lines@.contains(v) {
                let k = choose|k: int| 0 <= k < lines@.len() && lines@[k] == v;
                if k < inner.len() {
                    assert(inner[k] == v);
                    assert(inner.contains(v));
                }
            }
            if v == limit {
                assert(lines@[inner.len() as int] == v);
            } else if v <= limit && keep(v) {
                assert(inner.contains(v)) by {
                    if v > 0 {
                        assert(is_crest(levels@, threshold, v as int));
                    } else {
                        assert(inner[0] == v);
                    }
                }
                let k = choose|k: int| 0 <= k < inner.len() && inner[k] == v;
                assert(lines@[k] == v);
            }
        }
        increasing_unique(lines@, s);
    }
    if lines.len() >= 4 {
        Some(lines)
    } else {
        None
    }
}

/// The first line inside the axis, at neither end, or the start of the axis where there is none.
pub open spec fn first_inner(lines: Seq<usize>, limit: usize, n: int) -> usize
    decreases n,
{
    if n <= 0 {
        0
    } else {
        let before = first_inner(lines, limit, n - 1);
        if before == 0 && lines[n - 1] < limit {
            lines[n - 1]
        } else {
            before
        }
    }
}

/// The position is an end of the axis or whole steps away from the offset.
pub open spec fn is_even_cut(step: u64, offset: int, limit: usize) -> spec_fn(usize) -> bool {
    |v: usize|
        v == 0 || v == limit || (step > 0 && v as int % step as int == offset % step as int)
}

/// The ends of an axis and the positions that are whole steps away from an offset, in order.
pub open spec fn even_cuts(step: u64, offset: int, limit: usize) -> Seq<usize> {
    positions(limit).filter(is_even_cut(step, offset, limit))
}

/// Evenly spaced cuts rise from 0 to the end of the axis, and hold just the positions asked for.
pub proof fn even_cuts_is_grid(step: u64, offset: int, limit: usize)
    ensures
        is_grid(even_cuts(step, offset, limit), limit),
        forall|v: usize|
            even_cuts(step, offset, limit).contains(v) <==> v <= limit && is_even_cut(
                step,
                offset,
                limit,
            )(v),
{
    let keep = is_even_cut(step, offset, limit);
    assert(keep(0) && keep(limit));
    lemma_kept_positions(limit, keep);
}

/// Adding a step does not change what is left over by division by the step, and no number between has
/// the same remainder.
proof fn lemma_next_even(v: int, step: int)
    requires
        0 < step,
        0 <= v,
    ensures
        (v + step) % step == v % step,
        forall|u: int| v < u < v + step ==> #[trigger] (u % step) != v % step,
{
    vstd::arithmetic::div_mod::lemma_mod_add_multiples_vanish(v, step);
    assert((step + v) % step == v % step);
    assert forall|u: int| v < u < v + step implies #[trigger] (u % step) != v % step by {
        if u % step == v % step {
            vstd::arithmetic::div_mod::lemma_fundamental_div_mod(u, step);
            vstd::arithmetic::div_mod::lemma_fundamental_div_mod(v, step);
            assert(u - v == step * (u / step) - step * (v / step));
            assert(u - v == step * (u / step - v / step)) by (nonlinear_arith)
                requires
                    u - v == step * (u / step) - step * (v / step),
            ;
            let k = u / step - v / step;
            assert(k <= 0 || k >= 1);
            assert(step * k <= 0 || step * k >= step) by (nonlinear_arith)
                requires
                    0 < step,
                    k <= 0 || k >= 1,
            ;
        }
    }
}

/// What is left over where a number, which may be below zero, is divided by a step.
fn remainder(number: i128, step: u64) -> (rest: u64)
    requires
        step > 0,
    ensures
        rest == number as int % step as int,
{
    if number >= 0 {
        (number as u128 % step as u128) as u64
    } else {
        let below: u128 = (-(number + 1)) as u128;
        let short: u64 = (below % step as u128) as u64;
        proof {
            let s = step as int;
            let q = below as int / s;
            vstd::arithmetic::div_mod::lemma_fundamental_div_mod(below as int, s);
            assert(number == (-(q + 1)) * s + (s - 1 - short)) by (nonlinear_arith)
                requires
                    number == -(below + 1),
                    below == s * q + short,
            ;
            vstd::arithmetic::div_mod::lemma_fundamental_div_mod_converse(
                number as int,
                s,
                -(q + 1),
                s - 1 - short,
            );
        }
        step - 1 - short
    }
}

/// Cuts at an offset and at an offset that is a step further are the same.
pub proof fn even_cuts_repeat(step: u64, offset: int, limit: usize)
    requires
        step > 0,
    ensures
        even_cuts(step, offset + step, limit) == even_cuts(step, offset, limit),
{
    vstd::arithmetic::div_mod::lemma_mod_add_multiples_vanish(offset, step as int);
    let far = even_cuts(step, offset + step, limit);
    let near = even_cuts(step, offset, limit);
    even_cuts_is_grid(step, offset + step, limit);
    even_cuts_is_grid(step, offset, limit);
    assert forall|v: usize| far.contains(v) <==> near.contains(v) by {
        assert(is_even_cut(step, offset + step, limit)(v) == is_even_cut(step, offset, limit)(v));
    }
    increasing_unique(far, near);
}

/// Cuts an axis at even steps, so that a cut would fall on the offset.
pub fn make_uniform_offset_cuts(step: u64, offset: i128, limit: usize) -> (cuts: Vec<usize>)
    ensures
        cuts@ == even_cuts(step, offset as int, limit),
        is_grid(cuts@, limit),
{
    let mut cuts: Vec<usize> = Vec::new();
    cuts.push(0);
    let ghost keep = is_even_cut(step, offset as int, limit);
    proof {
        assert(cuts@ =~= seq![0usize]);
        assert(cuts@[0] == 0);
        even_cuts_is_grid(step, offset as int, limit);
    }
    if limit == 0 {
        proof {
            let s = even_cuts(step, offset as int, limit);
            assert forall|v: usize| cuts@.contains(v) <==> s.contains(v) by {
                if v == 0 {
                    assert(cuts@[0] == v);
                    assert(keep(0usize));
                }
            }
            increasing_unique(cuts@, s);
        }
        return cuts;
    }
    if step > 0 {
        let rest: u64 = remainder(offset, step);
        let mut pos: u128 = if rest == 0 {
            step as u128
        } else {
            rest as u128
        };
        proof {
            let s = step as int;
            if rest == 0 {
                assert(pos as int % s == 0) by {
                    lemma_next_even(0, s);
                    vstd::arithmetic::div_mod::lemma_small_mod(0, step as nat);
                }
            } else {
                vstd::arithmetic::div_mod::lemma_small_mod(rest as nat, step as nat);
            }
            vstd::arithmetic::div_mod::lemma_small_mod(0, step as nat);
            assert forall|u: int| 0 < u < pos implies #[trigger] (u % s) != offset as int % s by {
                vstd::arithmetic::div_mod::lemma_small_mod(u as nat, step as nat);
            }
        }
        while pos < limit as u128
            invariant
                0 < limit,
                0 < step,
                0 < pos <= limit + step,
                keep == is_even_cut(step, offset as int, limit),
                pos as int % step as int == offset as int % step as int,
                cuts@.len() > 0,
                cuts@[0] == 0,
                increasing(cuts@),
                cuts@.last() < pos,
                cuts@.last() < limit,
                forall|v: usize|
                    cuts@.contains(v) <==> v < pos && v < limit && keep(v),
            decreases limit + step - pos,
        {
            let ghost before = cuts@;
            let cut: usize = pos as usize;
            cuts.push(cut);
            proof {
                lemma_next_even(pos as int, step as int);
                assert forall|v: usize|
                    cuts@.contains(v) <==> v < pos + step && v < limit && keep(v) by {
                    if cuts@.contains(v) {
                        let k = choose|k: int| 0 <= k < cuts@.len() && cuts@[k] == v;
                        if k < before.len() {
                            assert(before[k] == v);
                            assert(before.contains(v));
                        }
                    }
                    if v < pos + step && v < limit && keep(v) {
                        if v < pos {
                            assert(before.contains(v));
                            let k = choose|k: int| 0 <= k < before.len() && before[k] == v;
                            assert(cuts@[k] == v);
                        } else if v == pos {
                            assert(cuts@[before.len() as int] == v);
                        } else {
                            assert(v as int % step as int != pos as int % step as int);
                        }
                    }
                }
            }
            pos += step as u128;
        }
    } else {
        proof {
            assert forall|v: usize| cuts@.contains(v) <==> v < limit && keep(v) by {
                if v == 0 {
                    assert(cuts@[0] == v);
                }
            }
        }
    }
    let ghost inner = cuts@;
    cuts.push(limit);
    proof {
        let s = even_cuts(step, offset as int, limit);
        assert forall|v: usize| cuts@.contains(v) <==> s.contains(v) by {
            if cuts@.contains(v) {
                let k = choose|k: int| 0 <= k < cuts@.len() && cuts@[k] == v;
                if k < inner.len() {
                    assert(inner[k] == v);
                    assert(inner.contains(v));
                }
            }
            if s.contains(v) {
                if v < limit {
                    assert(inner.contains(v));
                    let k = choose|k: int| 0 <= k < inner.len() && inner[k] == v;
                    assert(cuts@[k] == v);
                } else {
                    assert(cuts@[inner.len() as int] == v);
                }
            }
        }
        increasing_unique(cuts@, s);
    }
    cuts
}

/// The cuts of an axis that is divided evenly along its lines. With fewer than two lines, or a step of
/// nothing, the axis is left whole.
pub open spec fn homogenized(lines: Seq<usize>, step: u64, limit: usize) -> Seq<usize> {
    if lines.len() < 2 || step < 1 {
        seq![0usize, limit]
    } else {
        even_cuts(step, first_inner(lines, limit, lines.len() as int) as int, limit)
    }
}

/// Divides an axis evenly, so that a cut falls on the first line inside it.
pub fn homogenize_lines(lines: &Vec<usize>, step: u64, limit: usize) -> (cuts: Vec<usize>)
    ensures
        cuts@ == homogenized(lines@, step, limit),
{
    if lines.len() < 2 || step < 1 {
        let mut ends: Vec<usize> = Vec::new();
        ends.push(0);
        ends.push(limit);
        proof {
            assert(ends@ =~= seq![0usize, limit]);
        }
        return ends;
    }
    let mut offset: usize = 0;
    let mut i: usize = 0;
    while i < lines.len()
        invariant
            i <= lines@.len(),
            offset == first_inner(lines@, limit, i as int),
        decreases lines.len() - i,
    {
        if offset == 0 && lines[i] < limit {
            offset = lines[i];
        }
        i += 1;
    }
    make_uniform_offset_cuts(step, offset as i128, limit)
}

/// The first inner line is the first one that is at neither end.
pub proof fn first_inner_is_first(lines: Seq<usize>, limit: usize, n: int)
    requires
        0 <= n <= lines.len(),
    ensures
        first_inner(lines, limit, n) == 0 ==> forall|k: int|
            0 <= k < n ==> !(0 < #[trigger] lines[k] < limit),
        first_inner(lines, limit, n) != 0 ==> exists|k: int|
            0 <= k < n && #[trigger] lines[k] == first_inner(lines, limit, n) && lines[k] < limit
                && forall|j: int| 0 <= j < k ==> !(0 < #[trigger] lines[j] < limit),
    decreases n,
{
    if n > 0 {
        first_inner_is_first(lines, limit, n - 1);
        let before = first_inner(lines, limit, n - 1);
        let now = first_inner(lines, limit, n);
        if before != 0 {
            let k = choose|k: int|
                0 <= k < n - 1 && #[trigger] lines[k] == before && lines[k] < limit && forall|j: int|
                    0 <= j < k ==> !(0 < #[trigger] lines[j] < limit);
            assert(lines[k] == now);
        } else if now != 0 {
            assert(lines[n - 1] == now);
        }
    }
}

/// The cuts of both axes that are laid evenly along strong lines, if there are enough lines on both
/// and their distances are close to the steps expected.
pub open spec fn line_mesh(
    levels_x: Seq<u64>,
    levels_y: Seq<u64>,
    threshold_x: u64,
    threshold_y: u64,
    width: usize,
    height: usize,
    expected_x: Step,
    expected_y: Step,
) -> Option<(Seq<usize>, Seq<usize>)> {
    let cols = strong_lines(levels_x, threshold_x, width);
    let rows = strong_lines(levels_y, threshold_y, height);
    if levels_x.len() < 3 || width < 2 || cols.len() < 4 || levels_y.len() < 3 || height < 2
        || rows.len() < 4 {
        None
    } else {
        match (upper_median(spans(cols, cols.len())), upper_median(spans(rows, rows.len()))) {
            (Some(x), Some(y)) => if is_close(Step { num: x as u64, den: 1 }, expected_x) && is_close(
                Step { num: y as u64, den: 1 },
                expected_y,
            ) {
                Some((homogenized(cols, x as u64, width), homogenized(rows, y as u64, height)))
            } else {
                None
            },
            _ => None,
        }
    }
}

/// Lays cuts evenly along the strong lines of both axes.
pub fn build_line_mesh(
    levels_x: &Vec<u64>,
    levels_y: &Vec<u64>,
    threshold_x: u64,
    threshold_y: u64,
    width: usize,
    height: usize,
    expected_x: Step,
    expected_y: Step,
) -> (mesh: Option<(Vec<usize>, Vec<usize>)>)
    requires
        expected_x.wf(),
        expected_y.wf(),
    ensures
        match (
            mesh,
            line_mesh(
                levels_x@,
                levels_y@,
                threshold_x,
                threshold_y,
                width,
                height,
                expected_x,
                expected_y,
            ),
        ) {
            (Some((cols, rows)), Some((c, r))) => cols@ == c && rows@ == r,
            (None, None) => true,
            _ => false,
        },
{
    let cols: Vec<usize> = match detect_strong_line_positions(levels_x, width, threshold_x) {
        Some(lines) => lines,
        None => return None,
    };
    let rows: Vec<usize> = match detect_strong_line_positions(levels_y, height, threshold_y) {
        Some(lines) => lines,
        None => return None,
    };
    match (median_spacing(&cols), median_spacing(&rows)) {
        (Some(x), Some(y)) => {
            if step_close(Step { num: x as u64, den: 1 }, expected_x) && step_close(
                Step { num: y as u64, den: 1 },
                expected_y,
            ) {
                Some((homogenize_lines(&cols, x as u64, width), homogenize_lines(&rows, y as u64, height)))
            } else {
                None
            }
        },
        _ => None,
    }
}

/// Lines that were found always have a typical distance.
pub proof fn found_lines_have_spacing(lines: Seq<usize>, limit: usize)
    requires
        is_grid(lines, limit),
        lines.len() >= 2,
    ensures
        upper_median(spans(lines, lines.len())) is Some,
{
    spans_of_spaced(lines, lines.len(), 1);
}

/// The offsets that are tried for a whole step: every one below it, or every other one where the step is
/// at least six, and none of eight or more.
pub open spec fn offsets(step: u64) -> Seq<usize> {
    if step < 6 {
        Seq::new(step as nat, |n: int| n as usize)
    } else if step < 7 {
        seq![0usize, 2, 4]
    } else {
        seq![0usize, 2, 4, 6]
    }
}

/// Lists the offsets at which evenly spaced cuts are tried.
pub fn trial_offsets(step: u64) -> (list: Vec<usize>)
    ensures
        list@ == offsets(step),
{
    let most: usize = if step < 8 {
        step as usize
    } else {
        8
    };
    let stride: usize = if most / 3 > 1 {
        most / 3
    } else {
        1
    };
    let mut list: Vec<usize> = Vec::new();
    let mut offset: usize = 0;
    while offset < most
        invariant
            most == if step < 8 { step as int } else { 8 },
            stride == if step < 6 { 1int } else { 2 },
            offset == list@.len() * stride,
            offset <= most + stride - 1,
            forall|n: int| 0 <= n < list@.len() ==> #[trigger] list@[n] == n * stride,
        decreases most + stride - offset,
    {
        list.push(offset);
        offset += stride;
    }
    proof {
        assert(list@ =~= offsets(step));
    }
    list
}

/// Evenly spaced cuts to be tried.
#[derive(Clone, Copy, Debug, PartialEq, Eq, Structural)]
pub struct Trial {
    pub step: u64,
    pub offset_x: usize,
    pub offset_y: usize,
}

/// The trials with one step: every offset of the columns with every offset of the rows.
pub open spec fn step_trials(step: u64) -> Seq<Trial> {
    let o = offsets(step);
    Seq::new(
        o.len() * o.len(),
        |k: int| Trial { step, offset_x: o[k / o.len() as int], offset_y: o[k % o.len() as int] },
    )
}

/// The trials with each of some steps in turn.
pub open spec fn all_trials(steps: Seq<u64>) -> Seq<Trial>
    decreases steps.len(),
{
    if steps.len() == 0 {
        seq![]
    } else {
        all_trials(steps.drop_last()) + step_trials(steps.last())
    }
}

/// Adds the trials with one step.
fn add_step_trials(step: u64, trials: &mut Vec<Trial>)
    ensures
        final(trials)@ == old(trials)@ + step_trials(step),
{
    let list: Vec<usize> = trial_offsets(step);
    let ghost start = trials@;
    let ghost o = offsets(step);
    let ghost whole = step_trials(step);
    let ghost m = o.len() as int;
    let mut i: usize = 0;
    proof {
        assert(trials@ =~= start + whole.take(0));
        assert(0 * m == 0) by (nonlinear_arith);
    }
    while i < list.len()
        invariant
            i <= list@.len(),
            list@ == o,
            o == offsets(step),
            whole == step_trials(step),
            m == o.len(),
            0 <= i * m <= m * m,
            trials@ == start + whole.take(i * m),
        decreases list.len() - i,
    {
        let mut j: usize = 0;
        proof {
            assert(i * m + m <= m * m) by (nonlinear_arith)
                requires
                    0 <= i < m,
            ;
        }
        while j < list.len()
            invariant
                i < list@.len(),
                j <= list@.len(),
                list@ == o,
                o == offsets(step),
                whole == step_trials(step),
                m == o.len(),
                0 <= i * m,
                i * m + m <= m * m,
                trials@ == start + whole.take(i * m + j),
            decreases list.len() - j,
        {
            let trial: Trial = Trial { step, offset_x: list[i], offset_y: list[j] };
            let ghost before = trials@;
            trials.push(trial);
            proof {
                let k = i * m + j;
                vstd::arithmetic::div_mod::lemma_fundamental_div_mod_converse(k, m, i as int, j as int);
                assert(i * m == m * i) by (nonlinear_arith);
                assert(whole[k] == trial);
                assert(trials@ =~= start + whole.take(k + 1));
            }
            j += 1;
        }
        proof {
            assert((i + 1) * m == i * m + m) by (nonlinear_arith);
        }
        i += 1;
    }
    proof {
        assert(whole.take(m * m) =~= whole);
    }
}

/// The evenly spaced cuts that are tried around the steps expected.
pub open spec fn trials_around(expected_x: Step, expected_y: Step) -> Seq<Trial> {
    all_trials(trial_steps(expected_x, expected_y).map_values(|step: int| step as u64))
}

/// Lists the evenly spaced cuts to be tried around the steps expected.
pub fn reconstruction_trials(expected_x: Step, expected_y: Step) -> (trials: Vec<Trial>)
    requires
        expected_x.wf(),
        expected_y.wf(),
        expected_x.num < u64::MAX,
        expected_y.num < u64::MAX,
    ensures
        trials@ == trials_around(expected_x, expected_y),
{
    let steps: Vec<u64> = find_trial_steps(expected_x, expected_y);
    let mut trials: Vec<Trial> = Vec::new();
    let mut i: usize = 0;
    proof {
        assert(steps@.take(0) =~= Seq::<u64>::empty());
        assert(trials@ =~= all_trials(steps@.take(0)));
    }
    while i < steps.len()
        invariant
            i <= steps@.len(),
            trials@ == all_trials(steps@.take(i as int)),
        decreases steps.len() - i,
    {
        proof {
            assert(steps@.take(i + 1).drop_last() =~= steps@.take(i as int));
            assert(steps@.take(i + 1).last() == steps@[i as int]);
        }
        add_step_trials(steps[i], &mut trials);
        i += 1;
    }
    proof {
        let wanted = trial_steps(expected_x, expected_y);
        assert(steps@.take(i as int) =~= steps@);
        assert(wanted.len() == steps@.len());
        assert forall|k: int| 0 <= k < steps@.len() implies wanted[k] == steps@[k] by {
            assert(steps@.map_values(|s: u64| s as int)[k] == steps@[k]);
        }
        assert(steps@ =~= wanted.map_values(|step: int| step as u64));
    }
    trials
}

/// Lays the evenly spaced cuts of a trial on both axes.
pub fn lay_trial(trial: Trial, width: usize, height: usize) -> (cuts: (Vec<usize>, Vec<usize>))
    ensures
        cuts.0@ == even_cuts(trial.step, trial.offset_x as int, width),
        cuts.1@ == even_cuts(trial.step, trial.offset_y as int, height),
        is_grid(cuts.0@, width),
        is_grid(cuts.1@, height),
{
    (
        make_uniform_offset_cuts(trial.step, trial.offset_x as i128, width),
        make_uniform_offset_cuts(trial.step, trial.offset_y as i128, height),
    )
}

/// Picks the trial with the least error, the first of them where there are several. Errors are levels,
/// one for each trial.
pub fn pick_trial(trials: &Vec<Trial>, errors: &Vec<u64>) -> (picked: Option<Trial>)
    requires
        errors@.len() == trials@.len(),
    ensures
        match picked {
            Some(trial) => {
                let best = first_lowest(errors@, errors@.len() as int);
                &&& 0 <= best < trials@.len()
                &&& trial == trials@[best]
                &&& forall|i: int|
                    0 <= i < errors@.len() ==> errors@[best] <= #[trigger] errors@[i]
            },
            None => trials@.len() == 0,
        },
{
    if trials.len() == 0 {
        return None;
    }
    proof {
        first_lowest_is_lowest(errors@, errors@.len() as int);
    }
    Some(trials[find_first_lowest(errors)])
}

/// An offset is tried for a step if it is below the step and below eight, and a multiple of a third of
/// those, rounded down but at least one.
pub open spec fn is_tried_offset(step: u64, offset: usize) -> bool {
    let most = if step < 8 { step as int } else { 8 };
    let stride = if most / 3 > 1 { most / 3 } else { 1 };
    offset < most && offset as int % stride == 0
}

/// Every offset that is to be tried is listed.
proof fn lemma_offsets(step: u64, offset: usize)
    requires
        is_tried_offset(step, offset),
    ensures
        offsets(step).contains(offset),
{
    let o = offsets(step);
    if step < 6 {
        assert(o[offset as int] == offset);
    } else {
        assert(offset as int % 2 == 0 && offset < 8);
        assert(o[offset as int / 2] == offset);
    }
}

/// Every pair of offsets is among the trials with a step.
proof fn lemma_step_trials(step: u64, offset_x: usize, offset_y: usize)
    requires
        offsets(step).contains(offset_x),
        offsets(step).contains(offset_y),
    ensures
        step_trials(step).contains(Trial { step, offset_x, offset_y }),
{
    let o = offsets(step);
    let m = o.len() as int;
    let i = choose|i: int| 0 <= i < o.len() && o[i] == offset_x;
    let j = choose|j: int| 0 <= j < o.len() && o[j] == offset_y;
    let k = i * m + j;
    assert(0 <= k < m * m) by (nonlinear_arith)
        requires
            k == i * m + j,
            0 <= i < m,
            0 <= j < m,
    ;
    vstd::arithmetic::div_mod::lemma_fundamental_div_mod_converse(k, m, i, j);
    assert(step_trials(step)[k] == (Trial { step, offset_x, offset_y }));
}

/// The trials with each step are among all of them.
proof fn lemma_all_trials(steps: Seq<u64>, i: int, trial: Trial)
    requires
        0 <= i < steps.len(),
        step_trials(steps[i]).contains(trial),
    ensures
        all_trials(steps).contains(trial),
    decreases steps.len(),
{
    let before = all_trials(steps.drop_last());
    let last = step_trials(steps.last());
    if i == steps.len() - 1 {
        let k = choose|k: int| 0 <= k < last.len() && last[k] == trial;
        assert(all_trials(steps)[before.len() + k] == trial);
    } else {
        assert(steps.drop_last()[i] == steps[i]);
        lemma_all_trials(steps.drop_last(), i, trial);
        let k = choose|k: int| 0 <= k < before.len() && before[k] == trial;
        assert(all_trials(steps)[k] == trial);
    }
}

/// No even cuts with a whole step next to the mean of the expected ones, close to both of them, and with
/// offsets that are tried have a smaller error than the cuts that are picked.
pub proof fn picked_trial_has_least_error(
    expected_x: Step,
    expected_y: Step,
    errors: Seq<u64>,
    step: u64,
    offset_x: usize,
    offset_y: usize,
)
    requires
        errors.len() == trials_around(expected_x, expected_y).len(),
        rounded_mean(expected_x, expected_y) >= 2,
        step >= 2,
        rounded_mean(expected_x, expected_y) - 1 <= step <= rounded_mean(expected_x, expected_y) + 1,
        is_close(Step { num: step, den: 1 }, expected_x),
        is_close(Step { num: step, den: 1 }, expected_y),
        is_tried_offset(step, offset_x),
        is_tried_offset(step, offset_y),
    ensures
        exists|k: int|
            0 <= k < errors.len() && #[trigger] trials_around(expected_x, expected_y)[k] == (Trial {
                step,
                offset_x,
                offset_y,
            }) && errors[first_lowest(errors, errors.len() as int)] <= errors[k],
{
    let base = rounded_mean(expected_x, expected_y);
    let low = if base - 1 < 2 { 2 } else { base - 1 };
    let near = seq![low, base, base + 1];
    let keep = |s: int|
        is_close(Step { num: s as u64, den: 1 }, expected_x) && is_close(
            Step { num: s as u64, den: 1 },
            expected_y,
        );
    let kept = trial_steps(expected_x, expected_y);
    assert(kept == near.filter(keep));
    let at: int = if step == low {
        0
    } else if step == base {
        1
    } else {
        2
    };
    assert(near[at] == step && keep(near[at]));
    near.lemma_filter_contains(keep, at);
    let i = choose|i: int| 0 <= i < kept.len() && kept[i] == step;
    let steps = kept.map_values(|s: int| s as u64);
    assert(steps[i] == step);
    lemma_offsets(step, offset_x);
    lemma_offsets(step, offset_y);
    lemma_step_trials(step, offset_x, offset_y);
    let trial = Trial { step, offset_x, offset_y };
    lemma_all_trials(steps, i, trial);
    let all = trials_around(expected_x, expected_y);
    let k = choose|k: int| 0 <= k < all.len() && all[k] == trial;
    first_lowest_is_lowest(errors, errors.len() as int);
    assert(all[k] == trial && errors[first_lowest(errors, errors.len() as int)] <= errors[k]);
}

/// Which places are lines. The ends of the axis are. A place inside it is, at or after the second and before
/// the last level, if its level reaches the threshold, is above every level before it that it is joined to by
/// levels that reach the threshold, and is not below any level after it that it is so joined to. No other
/// place is. Lines rise strictly.
pub proof fn lines_are_first_highest_of_runs(levels: Seq<u64>, threshold: u64, limit: usize, v: usize)
    ensures
        strong_lines(levels, threshold, limit).contains(0),
        strong_lines(levels, threshold, limit).contains(limit),
        v > limit ==> !strong_lines(levels, threshold, limit).contains(v),
        0 < v < limit ==> (strong_lines(levels, threshold, limit).contains(v) <==> {
            &&& 2 <= v
            &&& v + 1 < levels.len()
            &&& levels[v as int] >= threshold
            &&& forall|u: int|
                1 <= u < v && (forall|w: int| u <= w <= v ==> #[trigger] levels[w] >= threshold)
                    ==> #[trigger] levels[u] < levels[v as int]
            &&& forall|u: int|
                v < u && u + 1 < levels.len() && (forall|w: int|
                    v <= w <= u ==> #[trigger] levels[w] >= threshold) ==> #[trigger] levels[u]
                    <= levels[v as int]
        }),
        forall|i: int, j: int|
            0 <= i < j < strong_lines(levels, threshold, limit).len() ==> #[trigger] strong_lines(
                levels,
                threshold,
                limit,
            )[i] < #[trigger] strong_lines(levels, threshold, limit)[j],
{
    let keep = is_line(levels, threshold, limit);
    assert(keep(0) && keep(limit));
    lemma_kept_positions(limit, keep);
    assert(strong_lines(levels, threshold, limit).contains(v) <==> v <= limit && keep(v));
    if 0 < v < limit {
        assert forall|u: int| 1 <= u < v implies (all_strong(levels, threshold, u, v as int) <==> (
        forall|w: int| u <= w <= v ==> #[trigger] levels[w] >= threshold)) by {}
        assert forall|u: int| v < u implies (all_strong(levels, threshold, v as int, u) <==> (forall|
            w: int,
        | v <= w <= u ==> #[trigger] levels[w] >= threshold)) by {}
    }
}

/// Even cuts rise strictly from 0 to the end of the axis. The places between that are cut are those whose
/// distance from the offset is a multiple of the step.
pub proof fn even_cuts_are_whole_steps_apart(step: u64, offset: int, limit: usize, v: usize)
    requires
        step > 0,
    ensures
        even_cuts(step, offset, limit).contains(0),
        even_cuts(step, offset, limit).contains(limit),
        v > limit ==> !even_cuts(step, offset, limit).contains(v),
        0 < v < limit ==> (even_cuts(step, offset, limit).contains(v) <==> (v - offset) % step as int
            == 0),
        forall|i: int, j: int|
            0 <= i < j < even_cuts(step, offset, limit).len() ==> #[trigger] even_cuts(
                step,
                offset,
                limit,
            )[i] < #[trigger] even_cuts(step, offset, limit)[j],
{
    even_cuts_is_grid(step, offset, limit);
    let keep = is_even_cut(step, offset, limit);
    assert(keep(0) && keep(limit));
    let s = step as int;
    vstd::arithmetic::div_mod::lemma_mod_equivalence(v as int, offset, s);
}

/// An axis that is divided along its lines has cuts that rise strictly from 0 to its end. Where there are two
/// lines and a step, those between lie whole steps away from the first line inside the axis; `o` is that line,
/// or 0 where there is none. Else there are none between.
pub proof fn homogenized_cuts_follow_the_first_line(
    lines: Seq<usize>,
    step: u64,
    limit: usize,
    o: usize,
    k: int,
    v: usize,
)
    requires
        o == 0 ==> forall|j: int| 0 <= j < lines.len() ==> !(0 < #[trigger] lines[j] < limit),
        o != 0 ==> {
            &&& 0 <= k < lines.len()
            &&& lines[k] == o
            &&& o < limit
            &&& forall|j: int| 0 <= j < k ==> !(0 < #[trigger] lines[j] < limit)
        },
        0 < v < limit,
    ensures
        homogenized(lines, step, limit).contains(v) <==> lines.len() >= 2 && step >= 1 && (v - o)
            % step as int == 0,
        homogenized(lines, step, limit).contains(0),
        homogenized(lines, step, limit).contains(limit),
{
    first_inner_is_first(lines, limit, lines.len() as int);
    let f = first_inner(lines, limit, lines.len() as int);
    assert(f == o) by {
        if f != 0 {
            let m = choose|m: int|
                0 <= m < lines.len() && #[trigger] lines[m] == f && lines[m] < limit && forall|j: int|
                    0 <= j < m ==> !(0 < #[trigger] lines[j] < limit);
            assert(0 < lines[m] < limit);
            if o != 0 {
                assert(0 < lines[k] < limit);
            }
        } else if o != 0 {
            assert(0 < lines[k] < limit);
        }
    }
    if lines.len() < 2 || step < 1 {
        let ends = seq![0usize, limit];
        assert(ends[0] == 0 && ends[1] == limit);
        assert(homogenized(lines, step, limit) == ends);
    } else {
        even_cuts_are_whole_steps_apart(step, f as int, limit, v);
    }
}

/// When cuts are laid along lines. Both axes must have at least three levels, two places and two lines inside,
/// and the middle distance of their lines must be close to the step expected; the axes are then divided along
/// their lines with those distances.
pub proof fn meshes_follow_lines(
    levels_x: Seq<u64>,
    levels_y: Seq<u64>,
    threshold_x: u64,
    threshold_y: u64,
    width: usize,
    height: usize,
    expected_x: Step,
    expected_y: Step,
)
    ensures
        ({
            let cols = strong_lines(levels_x, threshold_x, width);
            let rows = strong_lines(levels_y, threshold_y, height);
            let x = upper_median(spans(cols, cols.len()));
            let y = upper_median(spans(rows, rows.len()));
            let mesh = line_mesh(
                levels_x,
                levels_y,
                threshold_x,
                threshold_y,
                width,
                height,
                expected_x,
                expected_y,
            );
            &&& mesh is Some <==> {
                &&& levels_x.len() >= 3 && width >= 2 && cols.len() >= 4
                &&& levels_y.len() >= 3 && height >= 2 && rows.len() >= 4
                &&& x matches Some(a) && is_close(Step { num: a as u64, den: 1 }, expected_x)
                &&& y matches Some(b) && is_close(Step { num: b as u64, den: 1 }, expected_y)
            }
            &&& mesh matches Some((c, r)) ==> c == homogenized(cols, x->0 as u64, width) && r
                == homogenized(rows, y->0 as u64, height)
        }),
{
}

/// The offsets that are tried rise, and are those below the step and below eight that are multiples of a
/// third of that bound, rounded down but at least one.
pub proof fn tried_offsets_are_multiples(step: u64, offset: usize)
    ensures
        ({
            let most = if step < 8 { step as int } else { 8 };
            let stride = if most / 3 > 1 { most / 3 } else { 1 };
            offsets(step).contains(offset) <==> offset < most && offset as int % stride == 0
        }),
        forall|i: int, j: int|
            0 <= i < j < offsets(step).len() ==> #[trigger] offsets(step)[i]
                < #[trigger] offsets(step)[j],
{
    if is_tried_offset(step, offset) {
        lemma_offsets(step, offset);
    }
    if offsets(step).contains(offset) {
        let k = choose|k: int| 0 <= k < offsets(step).len() && offsets(step)[k] == offset;
        assert(offsets(step)[k] == offset);
        let most = if step < 8 { step as int } else { 8 };
        let stride = if most / 3 > 1 { most / 3 } else { 1 };
        assert(stride == if step < 6 { 1int } else { 2 });
        if step < 6 {
            assert(offset as int % 1 == 0);
        } else {
            assert(offset as int % 2 == 0);
        }
    }
}

/// What is tried around the expected steps: every whole step that is to be tried with every pair of offsets
/// that are tried for it, and nothing else.
pub proof fn trials_pair_offsets(expected_x: Step, expected_y: Step, trial: Trial)
    requires
        trial_steps(expected_x, expected_y).len() > 0 ==> rounded_mean(expected_x, expected_y)
            < u64::MAX,
    ensures
        trials_around(expected_x, expected_y).contains(trial) <==> {
            &&& trial_steps(expected_x, expected_y).contains(trial.step as int)
            &&& offsets(trial.step).contains(trial.offset_x)
            &&& offsets(trial.step).contains(trial.offset_y)
        },
{
    let kept = trial_steps(expected_x, expected_y);
    let steps = kept.map_values(|s: int| s as u64);
    tried_steps_are_near_the_mean(expected_x, expected_y);
    if trials_around(expected_x, expected_y).contains(trial) {
        lemma_trials_from(steps, trial);
        let i = choose|i: int|
            0 <= i < steps.len() && step_trials(#[trigger] steps[i]).contains(trial);
        assert(kept.contains(kept[i]));
        let s = kept[i];
        assert(is_close(Step { num: s as u64, den: 1 }, expected_x));
        assert(steps[i] == s);
        let all = step_trials(steps[i]);
        let o = offsets(steps[i]);
        let m = choose|m: int| 0 <= m < all.len() && all[m] == trial;
        let n = o.len() as int;
        assert(0 <= m / n < n && 0 <= m % n < n) by (nonlinear_arith)
            requires
                0 <= m < n * n,
                n >= 0,
        ;
        assert(o[m / n] == trial.offset_x && o[m % n] == trial.offset_y);
        assert(trial.step == s);
    }
    if kept.contains(trial.step as int) && offsets(trial.step).contains(trial.offset_x) && offsets(
        trial.step,
    ).contains(trial.offset_y) {
        let i = choose|i: int| 0 <= i < kept.len() && kept[i] == trial.step as int;
        assert(steps[i] == trial.step);
        lemma_step_trials(trial.step, trial.offset_x, trial.offset_y);
        lemma_all_trials(steps, i, trial);
    }
}

/// Each of all the trials is one with some step.
proof fn lemma_trials_from(steps: Seq<u64>, trial: Trial)
    requires
        all_trials(steps).contains(trial),
    ensures
        exists|i: int| 0 <= i < steps.len() && step_trials(#[trigger] steps[i]).contains(trial),
    decreases steps.len(),
{
    let all = all_trials(steps);
    let k = choose|k: int| 0 <= k < all.len() && all[k] == trial;
    if steps.len() > 0 {
        let few = steps.drop_last();
        let before = all_trials(few);
        let last = step_trials(steps.last());
        if k < before.len() {
            assert(before[k] == trial);
            lemma_trials_from(few, trial);
            let i = choose|i: int|
                0 <= i < few.len() && step_trials(#[trigger] few[i]).contains(trial);
            assert(steps[i] == few[i]);
        } else {
            assert(last[k - before.len()] == trial);
            assert(step_trials(steps[steps.len() - 1]).contains(trial));
        }
    }
}

} // verus!
