//! The order in which edits are applied: by descending start, edits with
//! one start in the order given.

use crate::diff::{views, Edit, TextEdit};
use vstd::prelude::*;
use vstd::seq_lib::{
    to_multiset_build, to_multiset_contains, to_multiset_insert, to_multiset_len,
    to_multiset_remove,
};

verus! {

/// How many leading edits of `sorted` start at or after `edit`.
pub open spec fn rank(sorted: Seq<Edit>, edit: Edit) -> int
    decreases sorted.len(),
{
    if sorted.len() == 0 || sorted[0].start < edit.start {
        0
    } else {
        1 + rank(sorted.drop_first(), edit)
    }
}

/// `sorted` with `edit` put behind the leading edits that start at or after it.
pub open spec fn place(sorted: Seq<Edit>, edit: Edit) -> Seq<Edit> {
    sorted.insert(rank(sorted, edit), edit)
}

/// The edits ordered by descending start; edits with one start keep the
/// order in which they were given.
pub open spec fn by_start_descending(edits: Seq<Edit>) -> Seq<Edit>
    decreases edits.len(),
{
    if edits.len() == 0 {
        Seq::empty()
    } else {
        place(by_start_descending(edits.drop_last()), edits.last())
    }
}

/// The edits that `order` picks from `edits`, in that order.
pub open spec fn picked(edits: Seq<TextEdit>, order: Seq<usize>) -> Seq<Edit> {
    Seq::new(order.len(), |k: int| edits[order[k] as int]@)
}

/// Where the first `upto` edits all start at or after `edit`, the rank is
/// `upto` plus the rank in what follows them.
proof fn lemma_rank_skip(sorted: Seq<Edit>, edit: Edit, upto: int)
    requires
        0 <= upto <= sorted.len(),
        forall|k: int| 0 <= k < upto ==> sorted[k].start >= edit.start,
    ensures
        rank(sorted, edit) == upto + rank(sorted.skip(upto), edit),
    decreases upto,
{
    if upto == 0 {
        assert(sorted.skip(0) =~= sorted);
    } else {
        lemma_rank_skip(sorted.drop_first(), edit, upto - 1);
        assert(sorted.drop_first().skip(upto - 1) =~= sorted.skip(upto));
    }
}

/// The positions of the edits, ordered by descending start; positions of
/// edits with one start ascend.
pub(crate) fn order_by_start_descending(edits: &Vec<TextEdit>) -> (order: Vec<usize>)
    ensures
        order@.len() == edits@.len(),
        forall|k: int| 0 <= k < order@.len() ==> order@[k] < edits@.len(),
        picked(edits@, order@) == by_start_descending(views(edits@)),
{
    let mut order: Vec<usize> = Vec::new();
    let mut i: usize = 0;
    while i < edits.len()
        invariant
            i <= edits.len(),
            order@.len() == i,
            forall|k: int| 0 <= k < order@.len() ==> order@[k] < i,
            picked(edits@, order@) == by_start_descending(views(edits@).take(i as int)),
        decreases edits.len() - i,
    {
        let ghost sorted = picked(edits@, order@);
        let ghost edit = edits@[i as int]@;
        let start = edits[i].start;
        let mut r: usize = 0;
        while r < order.len() && edits[order[r]].start >= start
            invariant
                r <= order@.len(),
                order@.len() == i,
                i < edits.len(),
                start == edit.start,
                sorted == picked(edits@, order@),
                forall|k: int| 0 <= k < order@.len() ==> order@[k] < i,
                forall|k: int| 0 <= k < r ==> sorted[k].start >= edit.start,
            decreases order@.len() - r,
        {
            r += 1;
        }
        proof {
            lemma_rank_skip(sorted, edit, r as int);
            lemma_rank(sorted, edit);
            assert(views(edits@).take(i + 1).drop_last() =~= views(edits@).take(i as int));
        }
        order.insert(r, i);
        i += 1;
    }
    assert(views(edits@).take(i as int) =~= views(edits@));
    order
}

/// The starts never ascend.
pub open spec fn descending(edits: Seq<Edit>) -> bool {
    forall|i: int, j: int|
        0 <= i < j < edits.len() ==> (#[trigger] edits[i]).start >= (#[trigger] edits[j]).start
}

/// No two edits start at one place.
pub open spec fn distinct_starts(edits: Seq<Edit>) -> bool {
    forall|i: int, j: int|
        0 <= i < j < edits.len() ==> (#[trigger] edits[i]).start != (#[trigger] edits[j]).start
}

/// Whether an edit starts at `start`.
pub open spec fn starts_at(start: int) -> spec_fn(Edit) -> bool {
    |edit: Edit| edit.start == start
}

/// The rank is a place in the list: the edits before it start at or after
/// `edit`, and the edit at it starts before `edit`.
pub proof fn lemma_rank(sorted: Seq<Edit>, edit: Edit)
    ensures
        0 <= rank(sorted, edit) <= sorted.len(),
        forall|k: int| 0 <= k < rank(sorted, edit) ==> (#[trigger] sorted[k]).start >= edit.start,
        rank(sorted, edit) < sorted.len() ==> sorted[rank(sorted, edit)].start < edit.start,
    decreases sorted.len(),
{
    if sorted.len() > 0 && sorted[0].start >= edit.start {
        let rest = sorted.drop_first();
        lemma_rank(rest, edit);
        assert forall|k: int| 0 <= k < rank(sorted, edit) implies (#[trigger] sorted[k]).start
            >= edit.start by {
            if k > 0 {
                assert(rest[k - 1] == sorted[k]);
            }
        }
    }
}

/// An edit put in its place keeps a descending list descending.
proof fn lemma_place_descending(sorted: Seq<Edit>, edit: Edit)
    requires
        descending(sorted),
    ensures
        descending(place(sorted, edit)),
{
    lemma_rank(sorted, edit);
}

/// The edits in the order of application are the edits given, each as often
/// as it was given, and their starts never ascend.
pub proof fn lemma_by_start_descending(edits: Seq<Edit>)
    ensures
        by_start_descending(edits).len() == edits.len(),
        by_start_descending(edits).to_multiset() == edits.to_multiset(),
        descending(by_start_descending(edits)),
    decreases edits.len(),
{
    if edits.len() > 0 {
        let rest = edits.drop_last();
        let sorted = by_start_descending(rest);
        lemma_by_start_descending(rest);
        lemma_rank(sorted, edits.last());
        lemma_place_descending(sorted, edits.last());
        assert(rest.push(edits.last()) =~= edits);
        to_multiset_insert(sorted, rank(sorted, edits.last()), edits.last());
        to_multiset_build(rest, edits.last());
    } else {
        assert(by_start_descending(edits) =~= edits);
    }
}

/// The edits that start at one place are applied in the order given.
pub proof fn lemma_keeps_order_of_one_start(edits: Seq<Edit>, start: int)
    ensures
        by_start_descending(edits).filter(starts_at(start)) == edits.filter(starts_at(start)),
    decreases edits.len(),
{
    let here = starts_at(start);
    if edits.len() > 0 {
        let rest = edits.drop_last();
        let last = edits.last();
        let sorted = by_start_descending(rest);
        let r = rank(sorted, last);
        let front = sorted.subrange(0, r);
        let back = sorted.subrange(r, sorted.len() as int);
        lemma_keeps_order_of_one_start(rest, start);
        lemma_by_start_descending(rest);
        lemma_rank(sorted, last);
        assert(sorted =~= front + back);
        assert(rest.push(last) =~= edits);
        Seq::filter_distributes_over_add(front, back, here);
        Seq::filter_distributes_over_add(front.push(last), back, here);
        front.lemma_filter_push(last, here);
        rest.lemma_filter_push(last, here);
        if last.start == start {
            back.lemma_all_neg_filter_empty(here);
        }
    }
}

/// Where no two edits start at one place, no two do in another arrangement
/// of the same edits.
pub proof fn lemma_distinct_starts_rearranged(edits: Seq<Edit>, others: Seq<Edit>)
    requires
        distinct_starts(edits),
        edits.to_multiset() == others.to_multiset(),
    ensures
        distinct_starts(others),
{
    assert(edits.no_duplicates());
    edits.lemma_multiset_has_no_duplicates();
    others.lemma_multiset_has_no_duplicates_conv();
    assert forall|i: int, j: int| 0 <= i < j < others.len() implies (#[trigger] others[i]).start
        != (#[trigger] others[j]).start by {
        to_multiset_contains(others, others[i]);
        to_multiset_contains(others, others[j]);
        to_multiset_contains(edits, others[i]);
        to_multiset_contains(edits, others[j]);
    }
}

/// Edits that start at different places come in strictly descending order.
proof fn lemma_strictly_descending(edits: Seq<Edit>)
    requires
        distinct_starts(edits),
    ensures
        forall|i: int, j: int|
            0 <= i < j < edits.len() ==> (#[trigger] by_start_descending(edits)[i]).start > (
            #[trigger] by_start_descending(edits)[j]).start,
{
    let sorted = by_start_descending(edits);
    lemma_by_start_descending(edits);
    lemma_distinct_starts_rearranged(edits, sorted);
}

/// Two lists of the same edits in strictly descending order are one list.
proof fn lemma_one_descending_list(left: Seq<Edit>, right: Seq<Edit>)
    requires
        left.to_multiset() == right.to_multiset(),
        forall|i: int, j: int|
            0 <= i < j < left.len() ==> (#[trigger] left[i]).start > (#[trigger] left[j]).start,
        forall|i: int, j: int|
            0 <= i < j < right.len() ==> (#[trigger] right[i]).start > (#[trigger] right[j]).start,
    ensures
        left == right,
    decreases left.len(),
{
    to_multiset_len(left);
    to_multiset_len(right);
    if left.len() > 0 {
        to_multiset_contains(left, left[0]);
        to_multiset_contains(right, left[0]);
        to_multiset_contains(left, right[0]);
        to_multiset_contains(right, right[0]);
        to_multiset_remove(left, 0);
        to_multiset_remove(right, 0);
        lemma_one_descending_list(left.drop_first(), right.drop_first());
        assert(right =~= seq![right[0]] + right.drop_first());
    }
}

/// Edits that start at different places are applied in one order, in
/// whatever order they are given.
pub proof fn lemma_given_order_does_not_matter(edits: Seq<Edit>, others: Seq<Edit>)
    requires
        distinct_starts(edits),
        edits.to_multiset() == others.to_multiset(),
    ensures
        by_start_descending(edits) == by_start_descending(others),
{
    lemma_distinct_starts_rearranged(edits, others);
    lemma_by_start_descending(edits);
    lemma_by_start_descending(others);
    lemma_strictly_descending(edits);
    lemma_strictly_descending(others);
    lemma_one_descending_list(by_start_descending(edits), by_start_descending(others));
}

} // verus!
