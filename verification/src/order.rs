//! Sorting of positions, with and without repetitions.

use vstd::prelude::*;
use vstd::relations::*;
use vstd::seq_lib::*;

verus! {

/// The usual order of positions, as a relation.
pub open spec fn at_most() -> spec_fn(usize, usize) -> bool {
    |a: usize, b: usize| a <= b
}

/// The values in non-decreasing order, repetitions kept.
pub open spec fn sorted_values(s: Seq<usize>) -> Seq<usize> {
    s.sort_by(at_most())
}

/// Every value is smaller than all values after it.
pub open spec fn increasing(s: Seq<usize>) -> bool {
    forall|i: int, j: int| 0 <= i < j < s.len() ==> s[i] < s[j]
}

/// The two sequences hold the same values.
pub open spec fn same_values(a: Seq<usize>, b: Seq<usize>) -> bool {
    forall|v: usize| a.contains(v) <==> b.contains(v)
}

/// An increasing sequence is determined by the values that it holds.
pub proof fn increasing_unique(a: Seq<usize>, b: Seq<usize>)
    requires
        increasing(a),
        increasing(b),
        same_values(a, b),
    ensures
        a == b,
    decreases a.len(),
{
    if a.len() == 0 {
        if b.len() > 0 {
            assert(b.contains(b[0]));
            assert(a.contains(b[0]));
        }
    } else {
        assert(a.contains(a.last()));
        assert(b.contains(a.last()));
        assert(b.contains(b.last()));
        assert(a.contains(b.last()));
        let i = choose|i: int| 0 <= i < b.len() && b[i] == a.last();
        let j = choose|j: int| 0 <= j < a.len() && a[j] == b.last();
        assert(a.last() == b.last());
        let a0 = a.drop_last();
        let b0 = b.drop_last();
        assert forall|v: usize| a0.contains(v) <==> b0.contains(v) by {
            if a0.contains(v) {
                let k = choose|k: int| 0 <= k < a0.len() && a0[k] == v;
                assert(a[k] == v);
                assert(b.contains(v));
                let m = choose|m: int| 0 <= m < b.len() && b[m] == v;
                assert(b0[m] == v);
            }
            if b0.contains(v) {
                let k = choose|k: int| 0 <= k < b0.len() && b0[k] == v;
                assert(b[k] == v);
                assert(a.contains(v));
                let m = choose|m: int| 0 <= m < a.len() && a[m] == v;
                assert(a0[m] == v);
            }
        }
        increasing_unique(a0, b0);
        assert(a == a0.push(a.last()));
        assert(b == b0.push(b.last()));
    }
}

/// A non-decreasing arrangement of the values is the sorted one.
proof fn lemma_sorted_arrangement(s: Seq<usize>, t: Seq<usize>)
    requires
        forall|i: int, j: int| 0 <= i <= j < t.len() ==> t[i] <= t[j],
        s.to_multiset() == t.to_multiset(),
    ensures
        t == sorted_values(s),
{
    assert(total_ordering(at_most()));
    s.lemma_sort_by_ensures(at_most());
    assert(sorted_by(t, at_most()));
    lemma_sorted_unique(t, sorted_values(s), at_most());
}

/// Sorting keeps the values and puts them in non-decreasing order.
pub proof fn sorted_values_arrange(s: Seq<usize>)
    ensures
        sorted_values(s).len() == s.len(),
        forall|v: usize| sorted_values(s).contains(v) <==> s.contains(v),
        forall|i: int, j: int|
            0 <= i <= j < s.len() ==> sorted_values(s)[i] <= sorted_values(s)[j],
{
    broadcast use group_to_multiset_ensures;

    assert(total_ordering(at_most()));
    s.lemma_sort_by_ensures(at_most());
    let t = sorted_values(s);
    assert(t.len() == t.to_multiset().len());
    assert(s.len() == s.to_multiset().len());
    assert forall|v: usize| t.contains(v) <==> s.contains(v) by {
        assert(t.contains(v) <==> t.to_multiset().count(v) > 0);
        assert(s.contains(v) <==> s.to_multiset().count(v) > 0);
    }
    assert forall|i: int, j: int| 0 <= i <= j < s.len() implies t[i] <= t[j] by {
        if i < j {
            assert(at_most()(t[i], t[j]));
        }
    }
}

/// Every value is at most as large as all values after it.
pub open spec fn non_decreasing(s: Seq<usize>) -> bool {
    forall|i: int, j: int| 0 <= i <= j < s.len() ==> s[i] <= s[j]
}

/// Merges two sorted lists.
fn merge(a: &Vec<usize>, b: &Vec<usize>) -> (c: Vec<usize>)
    requires
        non_decreasing(a@),
        non_decreasing(b@),
    ensures
        non_decreasing(c@),
        c@.to_multiset() == a@.to_multiset().add(b@.to_multiset()),
{
    let mut c: Vec<usize> = Vec::new();
    let mut i: usize = 0;
    let mut j: usize = 0;
    proof {
        assert(a@.take(0) =~= Seq::<usize>::empty());
        assert(b@.take(0) =~= Seq::<usize>::empty());
        assert(c@ =~= Seq::<usize>::empty());
        to_multiset_len(c@);
        assert(c@.to_multiset() =~= a@.take(0).to_multiset().add(b@.take(0).to_multiset()));
    }
    while i < a.len() || j < b.len()
        invariant
            i <= a@.len(),
            j <= b@.len(),
            non_decreasing(a@),
            non_decreasing(b@),
            non_decreasing(c@),
            c@.len() > 0 && i < a@.len() ==> c@.last() <= a@[i as int],
            c@.len() > 0 && j < b@.len() ==> c@.last() <= b@[j as int],
            c@.to_multiset() == a@.take(i as int).to_multiset().add(
                b@.take(j as int).to_multiset(),
            ),
        decreases a.len() - i + b.len() - j,
    {
        let ghost before = c@;
        if j == b.len() || (i < a.len() && a[i] <= b[j]) {
            let value: usize = a[i];
            proof {
                assert(a@.take(i + 1) =~= a@.take(i as int).push(value));
                to_multiset_build(a@.take(i as int), value);
                to_multiset_build(before, value);
                assert(before.to_multiset().insert(value) =~= a@.take(
                    i as int,
                ).to_multiset().insert(value).add(b@.take(j as int).to_multiset()));
            }
            c.push(value);
            i += 1;
        } else {
            let value: usize = b[j];
            proof {
                assert(b@.take(j + 1) =~= b@.take(j as int).push(value));
                to_multiset_build(b@.take(j as int), value);
                to_multiset_build(before, value);
                assert(before.to_multiset().insert(value) =~= a@.take(i as int).to_multiset().add(
                    b@.take(j as int).to_multiset().insert(value),
                ));
            }
            c.push(value);
            j += 1;
        }
        proof {
            assert forall|x: int, y: int| 0 <= x <= y < c@.len() implies c@[x] <= c@[y] by {
                if y == before.len() && x < y {
                    assert(before[x] <= before.last());
                }
            }
        }
    }
    proof {
        assert(a@.take(i as int) =~= a@);
        assert(b@.take(j as int) =~= b@);
    }
    c
}

/// Sorts the values from `from` up to, not including, `to`.
fn sort_range(values: &Vec<usize>, from: usize, to: usize) -> (sorted: Vec<usize>)
    requires
        from <= to <= values@.len(),
    ensures
        non_decreasing(sorted@),
        sorted@.to_multiset() == values@.subrange(from as int, to as int).to_multiset(),
    decreases to - from,
{
    let ghost whole = values@.subrange(from as int, to as int);
    if to - from < 2 {
        let mut sorted: Vec<usize> = Vec::new();
        if from < to {
            sorted.push(values[from]);
        }
        proof {
            assert(sorted@ =~= whole);
        }
        return sorted;
    }
    let middle: usize = from + (to - from) / 2;
    let left: Vec<usize> = sort_range(values, from, middle);
    let right: Vec<usize> = sort_range(values, middle, to);
    proof {
        let a = values@.subrange(from as int, middle as int);
        let b = values@.subrange(middle as int, to as int);
        assert(whole =~= a + b);
        lemma_multiset_commutative(a, b);
    }
    merge(&left, &right)
}

/// Sorts the values, keeping repetitions.
pub fn sort_values(values: &Vec<usize>) -> (sorted: Vec<usize>)
    ensures
        sorted@ == sorted_values(values@),
{
    let sorted: Vec<usize> = sort_range(values, 0, values.len());
    proof {
        assert(values@.subrange(0, values@.len() as int) =~= values@);
        lemma_sorted_arrangement(values@, sorted@);
    }
    sorted
}

/// Sorts the values and drops repetitions.
pub fn sorted_set(values: &Vec<usize>) -> (set: Vec<usize>)
    ensures
        increasing(set@),
        same_values(set@, values@),
{
    let sorted: Vec<usize> = sort_values(values);
    proof {
        sorted_values_arrange(values@);
    }
    let mut set: Vec<usize> = Vec::new();
    let mut i: usize = 0;
    while i < sorted.len()
        invariant
            i <= sorted.len(),
            forall|a: int, b: int| 0 <= a <= b < sorted@.len() ==> sorted@[a] <= sorted@[b],
            increasing(set@),
            forall|k: int| 0 <= k < set@.len() ==> sorted@.take(i as int).contains(#[trigger] set@[k]),
            forall|k: int| 0 <= k < i ==> set@.contains(#[trigger] sorted@[k]),
            i > 0 ==> set@.len() > 0 && set@.last() == sorted@[i - 1],
        decreases sorted.len() - i,
    {
        let value: usize = sorted[i];
        let ghost before = set@;
        if set.len() == 0 || set[set.len() - 1] != value {
            set.push(value);
            proof {
                assert forall|a: int, b: int| 0 <= a < b < set@.len() implies set@[a] < set@[b] by {
                    assert(before.last() < value);
                    if b < before.len() {
                        assert(set@[b] == before[b]);
                    } else if a < before.len() - 1 {
                        assert(before[a] < before.last());
                    }
                }
                assert(set@.last() == value);
            }
        }
        proof {
            assert forall|k: int| 0 <= k < set@.len() implies sorted@.take(i + 1).contains(
                #[trigger] set@[k],
            ) by {
                if k < before.len() {
                    assert(set@[k] == before[k]);
                    let m = choose|m: int| 0 <= m < i && sorted@.take(i as int)[m] == before[k];
                    assert(sorted@.take(i + 1)[m] == before[k]);
                } else {
                    assert(sorted@.take(i + 1)[i as int] == value);
                }
            }
            assert forall|k: int| 0 <= k < i + 1 implies set@.contains(#[trigger] sorted@[k]) by {
                if k < i {
                    let m = choose|m: int| 0 <= m < before.len() && before[m] == sorted@[k];
                    assert(set@[m] == sorted@[k]);
                } else {
                    assert(set@[set@.len() - 1] == value);
                }
            }
        }
        i += 1;
    }
    proof {
        assert(sorted@.take(i as int) =~= sorted@);
        assert forall|v: usize| set@.contains(v) <==> values@.contains(v) by {
            if set@.contains(v) {
                let k = choose|k: int| 0 <= k < set@.len() && set@[k] == v;
                assert(sorted@.contains(set@[k]));
            }
            if values@.contains(v) {
                assert(sorted@.contains(v));
                let k = choose|k: int| 0 <= k < sorted@.len() && sorted@[k] == v;
                assert(set@.contains(sorted@[k]));
            }
        }
    }
    set
}

/// The first index of the lowest of the first `n` levels.
pub open spec fn first_lowest(levels: Seq<u64>, n: int) -> int
    decreases n,
{
    if n <= 1 {
        0
    } else {
        let best = first_lowest(levels, n - 1);
        if levels[n - 1] < levels[best] {
            n - 1
        } else {
            best
        }
    }
}

/// No level is below the one at the first lowest index, and those before it are above.
pub proof fn first_lowest_is_lowest(levels: Seq<u64>, n: int)
    requires
        0 < n,
    ensures
        0 <= first_lowest(levels, n) < n,
        forall|i: int| 0 <= i < n ==> levels[first_lowest(levels, n)] <= #[trigger] levels[i],
        forall|i: int|
            0 <= i < first_lowest(levels, n) ==> levels[first_lowest(levels, n)]
                < #[trigger] levels[i],
    decreases n,
{
    if n > 1 {
        first_lowest_is_lowest(levels, n - 1);
    }
}

/// Finds the first index of the lowest level.
pub fn find_first_lowest(levels: &Vec<u64>) -> (best: usize)
    requires
        levels@.len() > 0,
    ensures
        best == first_lowest(levels@, levels@.len() as int),
        best < levels@.len(),
{
    let mut best: usize = 0;
    let mut i: usize = 1;
    while i < levels.len()
        invariant
            1 <= i <= levels@.len(),
            best < i,
            best == first_lowest(levels@, i as int),
        decreases levels.len() - i,
    {
        if levels[i] < levels[best] {
            best = i;
        }
        i += 1;
    }
    best
}

/// Sorting puts values in order and keeps each as often as it is there.
pub proof fn sorting_rearranges(s: Seq<usize>)
    ensures
        sorted_values(s).len() == s.len(),
        sorted_values(s).to_multiset() == s.to_multiset(),
        forall|i: int, j: int|
            0 <= i <= j < s.len() ==> #[trigger] sorted_values(s)[i] <= #[trigger] sorted_values(
                s,
            )[j],
{
    sorted_values_arrange(s);
    assert(total_ordering(at_most()));
    s.lemma_sort_by_ensures(at_most());
}

/// Lists of the same values, whatever their order, are sorted alike.
pub proof fn sorting_forgets_order(a: Seq<usize>, b: Seq<usize>)
    requires
        a.to_multiset() == b.to_multiset(),
    ensures
        sorted_values(a) == sorted_values(b),
{
    sorting_rearranges(b);
    lemma_sorted_arrangement(a, sorted_values(b));
}

/// A filter keeps as many values of a list as of any rearrangement of it.
pub proof fn filter_counts_alike(a: Seq<usize>, b: Seq<usize>, keep: spec_fn(usize) -> bool)
    requires
        a.to_multiset() == b.to_multiset(),
    ensures
        a.filter(keep).len() == b.filter(keep).len(),
    decreases a.len(),
{
    broadcast use group_to_multiset_ensures;

    reveal(Seq::filter);
    assert(a.to_multiset().len() == a.len());
    assert(b.to_multiset().len() == b.len());
    if a.len() > 0 {
        let x = a.last();
        let rest = a.drop_last();
        assert(a == rest.push(x));
        assert(a.contains(x));
        assert(b.to_multiset().count(x) > 0);
        assert(b.contains(x));
        let i = choose|i: int| 0 <= i < b.len() && b[i] == x;
        let left = b.take(i);
        let right = b.skip(i + 1);
        let one = seq![x];
        let others = left + right;
        assert(b =~= left + one + right);
        assert(others =~= b.remove(i));
        assert(b.remove(i).to_multiset() =~= b.to_multiset().remove(x));
        assert(rest.to_multiset() =~= a.to_multiset().remove(x));
        filter_counts_alike(rest, others, keep);
        Seq::filter_distributes_over_add(left + one, right, keep);
        Seq::filter_distributes_over_add(left, one, keep);
        Seq::filter_distributes_over_add(left, right, keep);
        assert(one.drop_last() =~= Seq::<usize>::empty());
        assert(one.drop_last().filter(keep).len() == 0);
        assert(one.last() == x);
        assert(one.filter(keep).len() == if keep(x) { 1nat } else { 0 });
    }
}

} // verus!
