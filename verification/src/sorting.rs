//! Orders: of a listing by size, and of indices from the largest down.
use vstd::prelude::*;
use vstd::seq_lib::*;

verus! {

/// The order of a listing: larger keys first, and among equal keys the
/// smaller position first.
pub open spec fn comes_before(a: (u64, usize), b: (u64, usize)) -> bool {
    a.0 > b.0 || (a.0 == b.0 && a.1 <= b.1)
}

/// `pairs` is in listing order.
pub open spec fn in_listing_order(pairs: Seq<(u64, usize)>) -> bool {
    forall|i: int, j: int| 0 <= i < j < pairs.len() ==> comes_before(pairs[i], pairs[j])
}

fn precedes(a: (u64, usize), b: (u64, usize)) -> (before: bool)
    ensures
        before == comes_before(a, b),
{
    a.0 > b.0 || (a.0 == b.0 && a.1 <= b.1)
}

/// Merges two runs in listing order into one.
fn merge(left: &Vec<(u64, usize)>, right: &Vec<(u64, usize)>) -> (merged: Vec<(u64, usize)>)
    requires
        in_listing_order(left@),
        in_listing_order(right@),
    ensures
        in_listing_order(merged@),
        merged@.to_multiset() == left@.to_multiset().add(right@.to_multiset()),
{
    let mut merged: Vec<(u64, usize)> = Vec::new();
    let mut i: usize = 0;
    let mut j: usize = 0;
    proof {
        assert(left@.take(0) =~= Seq::empty());
        assert(right@.take(0) =~= Seq::empty());
        broadcast use vstd::seq_lib::group_to_multiset_ensures;
        assert(merged@.to_multiset() =~= left@.take(0).to_multiset().add(
            right@.take(0).to_multiset(),
        ));
    }
    while i < left.len() || j < right.len()
        invariant
            i <= left.len(),
            j <= right.len(),
            in_listing_order(left@),
            in_listing_order(right@),
            in_listing_order(merged@),
            merged@.to_multiset() == left@.take(i as int).to_multiset().add(
                right@.take(j as int).to_multiset(),
            ),
            forall|k: int|
                0 <= k < merged@.len() && i < left.len() ==> comes_before(
                    #[trigger] merged@[k],
                    left@[i as int],
                ),
            forall|k: int|
                0 <= k < merged@.len() && j < right.len() ==> comes_before(
                    #[trigger] merged@[k],
                    right@[j as int],
                ),
        decreases left.len() - i + (right.len() - j),
    {
        let from_left = if j >= right.len() {
            true
        } else if i >= left.len() {
            false
        } else {
            precedes(left[i], right[j])
        };
        let ghost before = merged@;
        if from_left {
            let item = left[i];
            merged.push(item);
            proof {
                assert(left@.take(i + 1) =~= left@.take(i as int).push(item));
                to_multiset_build(left@.take(i as int), item);
                to_multiset_build(before, item);
                assert(merged@.to_multiset() =~= left@.take(i + 1).to_multiset().add(
                    right@.take(j as int).to_multiset(),
                ));
                assert forall|k: int| 0 <= k < merged@.len() && i + 1 < left.len() implies comes_before(
                    #[trigger] merged@[k],
                    left@[i + 1],
                ) by {
                    assert(comes_before(left@[i as int], left@[i + 1]));
                    if k < before.len() {
                        assert(merged@[k] == before[k]);
                        assert(comes_before(before[k], left@[i as int]));
                    }
                }
                assert forall|k: int| 0 <= k < merged@.len() && j < right.len() implies comes_before(
                    #[trigger] merged@[k],
                    right@[j as int],
                ) by {
                    if k < before.len() {
                        assert(merged@[k] == before[k]);
                    }
                }
                assert forall|a: int, b: int| 0 <= a < b < merged@.len() implies comes_before(
                    merged@[a],
                    merged@[b],
                ) by {
                    if b < before.len() {
                        assert(comes_before(before[a], before[b]));
                    } else {
                        assert(comes_before(before[a], left@[i as int]));
                    }
                }
            }
            i += 1;
        } else {
            let item = right[j];
            merged.push(item);
            proof {
                assert(right@.take(j + 1) =~= right@.take(j as int).push(item));
                to_multiset_build(right@.take(j as int), item);
                to_multiset_build(before, item);
                assert(merged@.to_multiset() =~= left@.take(i as int).to_multiset().add(
                    right@.take(j + 1).to_multiset(),
                ));
                assert forall|k: int| 0 <= k < merged@.len() && j + 1 < right.len() implies comes_before(
                    #[trigger] merged@[k],
                    right@[j + 1],
                ) by {
                    assert(comes_before(right@[j as int], right@[j + 1]));
                    if k < before.len() {
                        assert(merged@[k] == before[k]);
                        assert(comes_before(before[k], right@[j as int]));
                    }
                }
                assert forall|k: int| 0 <= k < merged@.len() && i < left.len() implies comes_before(
                    #[trigger] merged@[k],
                    left@[i as int],
                ) by {
                    if k < before.len() {
                        assert(merged@[k] == before[k]);
                    }
                }
                assert forall|a: int, b: int| 0 <= a < b < merged@.len() implies comes_before(
                    merged@[a],
                    merged@[b],
                ) by {
                    if b < before.len() {
                        assert(comes_before(before[a], before[b]));
                    } else {
                        assert(comes_before(before[a], right@[j as int]));
                    }
                }
            }
            j += 1;
        }
    }
    proof {
        assert(left@.take(left.len() as int) =~= left@);
        assert(right@.take(right.len() as int) =~= right@);
    }
    merged
}

/// Copies `pairs[from..to]`.
fn copy_range(pairs: &Vec<(u64, usize)>, from: usize, to: usize) -> (part: Vec<(u64, usize)>)
    requires
        from <= to <= pairs.len(),
    ensures
        part@ == pairs@.subrange(from as int, to as int),
{
    let mut part: Vec<(u64, usize)> = Vec::new();
    let mut i: usize = from;
    while i < to
        invariant
            from <= i <= to <= pairs.len(),
            part@ == pairs@.subrange(from as int, i as int),
        decreases to - i,
    {
        part.push(pairs[i]);
        assert(part@ =~= pairs@.subrange(from as int, i + 1));
        i += 1;
    }
    part
}

/// Puts `pairs` in listing order: larger keys first, and among equal keys
/// the smaller position first. Nothing is added and nothing is lost.
pub fn sort_for_listing(pairs: Vec<(u64, usize)>) -> (sorted: Vec<(u64, usize)>)
    ensures
        in_listing_order(sorted@),
        sorted@.to_multiset() == pairs@.to_multiset(),
        sorted@.len() == pairs@.len(),
    decreases pairs@.len(),
{
    proof {
        broadcast use vstd::seq_lib::group_to_multiset_ensures;
    }
    if pairs.len() <= 1 {
        return pairs;
    }
    let middle = pairs.len() / 2;
    let left = copy_range(&pairs, 0, middle);
    let right = copy_range(&pairs, middle, pairs.len());
    proof {
        assert(pairs@ =~= left@ + right@);
        lemma_multiset_commutative(left@, right@);
    }
    let left = sort_for_listing(left);
    let right = sort_for_listing(right);
    let sorted = merge(&left, &right);
    proof {
        sorted@.to_multiset_ensures();
        pairs@.to_multiset_ensures();
    }
    sorted
}

/// Sorting adds and loses nothing: a pair is in the sorted sequence exactly
/// when it was in the unsorted one, and pairs that were distinct stay
/// distinct.
pub proof fn lemma_same_pairs(sorted: Seq<(u64, usize)>, pairs: Seq<(u64, usize)>)
    requires
        sorted.to_multiset() == pairs.to_multiset(),
    ensures
        sorted.len() == pairs.len(),
        forall|p: (u64, usize)| sorted.contains(p) <==> pairs.contains(p),
        pairs.no_duplicates() ==> sorted.no_duplicates(),
{
    sorted.to_multiset_ensures();
    pairs.to_multiset_ensures();
    assert forall|p: (u64, usize)| sorted.contains(p) <==> pairs.contains(p) by {
        assert(sorted.contains(p) <==> sorted.to_multiset().count(p) > 0);
        assert(pairs.contains(p) <==> pairs.to_multiset().count(p) > 0);
    }
    if pairs.no_duplicates() {
        pairs.lemma_multiset_has_no_duplicates();
        sorted.lemma_multiset_has_no_duplicates_conv();
    }
}

/// `indices` from the largest to the smallest, each as often as it occurs.
pub open spec fn descending(indices: Seq<usize>) -> Seq<usize> {
    indices.sort_by(|a: usize, b: usize| a >= b)
}

/// `indices` is ordered from the largest to the smallest.
pub open spec fn is_descending(indices: Seq<usize>) -> bool {
    forall|i: int, j: int| 0 <= i < j < indices.len() ==> indices[i] >= indices[j]
}

/// What [`descending`] yields: the same indices, from the largest to the
/// smallest.
pub proof fn lemma_descending(indices: Seq<usize>)
    ensures
        is_descending(descending(indices)),
        descending(indices).to_multiset() == indices.to_multiset(),
        descending(indices).len() == indices.len(),
        forall|x: usize| descending(indices).contains(x) <==> indices.contains(x),
{
    let geq = |a: usize, b: usize| a >= b;
    assert(vstd::relations::total_ordering(geq));
    indices.lemma_sort_by_ensures(geq);
    let sorted = descending(indices);
    assert forall|i: int, j: int| 0 <= i < j < sorted.len() implies sorted[i] >= sorted[j] by {
        assert(geq(sorted[i], sorted[j]));
    }
    sorted.to_multiset_ensures();
    indices.to_multiset_ensures();
    assert forall|x: usize| sorted.contains(x) <==> indices.contains(x) by {
        assert(sorted.contains(x) <==> sorted.to_multiset().count(x) > 0);
        assert(indices.contains(x) <==> indices.to_multiset().count(x) > 0);
    }
}

/// A single index is in order as it is.
pub proof fn lemma_descending_one(index: usize)
    ensures
        descending(seq![index]) == seq![index],
{
    lemma_descending(seq![index]);
    let sorted = descending(seq![index]);
    assert(seq![index].contains(index)) by {
        assert(seq![index][0] == index);
    }
    assert(sorted.contains(sorted[0]));
    assert(seq![index].contains(sorted[0]));
    assert(sorted =~= seq![index]);
}

/// Orders `indices` from the largest to the smallest.
pub fn sort_descending(indices: &Vec<usize>) -> (sorted: Vec<usize>)
    ensures
        sorted@ == descending(indices@),
{
    let mut sorted: Vec<usize> = Vec::new();
    let mut i: usize = 0;
    proof {
        assert(indices@.take(0) =~= Seq::empty());
        broadcast use vstd::seq_lib::group_to_multiset_ensures;
        assert(sorted@.to_multiset() =~= indices@.take(0).to_multiset());
    }
    while i < indices.len()
        invariant
            i <= indices.len(),
            is_descending(sorted@),
            sorted@.to_multiset() == indices@.take(i as int).to_multiset(),
        decreases indices.len() - i,
    {
        let index = indices[i];
        let mut at: usize = 0;
        while at < sorted.len() && sorted[at] >= index
            invariant
                at <= sorted.len(),
                forall|k: int| 0 <= k < at ==> sorted@[k] >= index,
            decreases sorted.len() - at,
        {
            at += 1;
        }
        let ghost before = sorted@;
        sorted.insert(at, index);
        proof {
            to_multiset_insert(before, at as int, index);
            assert(indices@.take(i + 1) =~= indices@.take(i as int).push(index));
            to_multiset_build(indices@.take(i as int), index);
            assert forall|a: int, b: int| 0 <= a < b < sorted@.len() implies sorted@[a]
                >= sorted@[b] by {
                if b < at {
                    assert(sorted@[a] == before[a] && sorted@[b] == before[b]);
                } else if b == at {
                    assert(sorted@[a] == before[a]);
                } else if a < at {
                    assert(sorted@[a] == before[a] && sorted@[b] == before[b - 1]);
                } else if a == at {
                    assert(sorted@[b] == before[b - 1]);
                    assert(before[at as int] < index);
                    assert(b - 1 == at || before[at as int] >= before[b - 1]);
                } else {
                    assert(sorted@[a] == before[a - 1] && sorted@[b] == before[b - 1]);
                }
            }
        }
        i += 1;
    }
    proof {
        assert(indices@.take(indices.len() as int) =~= indices@);
        let geq = |a: usize, b: usize| a >= b;
        assert(vstd::relations::total_ordering(geq));
        indices@.lemma_sort_by_ensures(geq);
        assert(vstd::relations::sorted_by(sorted@, geq));
        lemma_sorted_unique(sorted@, descending(indices@), geq);
    }
    sorted
}

} // verus!
