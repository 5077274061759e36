//! Laws of the spaced list: what holds of every list that is in order, and
//! of sequences of appends and insertions.

use vstd::prelude::*;
use vstd::arithmetic::power2::*;
use crate::links::{
    degree_count, lemma_aligned_span_fits, lemma_capacity_shape, lemma_link_slot_range, link_slot,
    necessary_capacity,
};
use crate::deep::{is_path, lemma_path_contained, path_position};
use crate::list::SpacedList;
use crate::model::ListView;
use crate::packing::{
    all_positive, lemma_position_after_push, lemma_position_increases, lemma_top_link,
    position_in,
};
use crate::shallow::TraversalResult;
use crate::spacing::Spacing;

verus! {

/// The sum of `distances`.
pub open spec fn total(distances: Seq<int>) -> int
    decreases distances.len(),
{
    if distances.len() == 0 {
        0
    } else {
        total(distances.drop_last()) + distances.last()
    }
}

/// The list that `list` becomes when nodes are appended at `distances`, one
/// after the other.
pub open spec fn append_all(list: ListView, distances: Seq<int>) -> ListView
    decreases distances.len(),
{
    if distances.len() == 0 {
        list
    } else {
        append_all(list, distances.drop_last()).append(distances.last())
    }
}

/// Appending nodes at positive distances to a new list gives a list whose
/// gaps are those distances in order and whose length is their sum.
pub proof fn lemma_appended_distances(distances: Seq<int>)
    requires
        all_positive(distances),
    ensures
        append_all(ListView::empty(), distances).wf(),
        append_all(ListView::empty(), distances).gaps == distances,
        append_all(ListView::empty(), distances).length() == total(distances),
    decreases distances.len(),
{
    let built = append_all(ListView::empty(), distances);
    if distances.len() == 0 {
        assert(built.gaps =~= distances);
    } else {
        let front = distances.drop_last();
        let before = append_all(ListView::empty(), front);
        assert forall|k: int| 0 <= k < front.len() implies #[trigger] front[k] > 0 by {
            assert(front[k] == distances[k]);
        }
        lemma_appended_distances(front);
        assert(built.gaps =~= distances);
        lemma_position_after_push(front, distances.last(), distances.len() as int);
        assert forall|k: int| 0 <= k < built.sublists.len() implies match #[trigger] built.sublists[k] {
            Some(sublist) => sublist.wf() && sublist.length() < built.gaps[k],
            None => true,
        } by {
            if k < before.sublists.len() {
                assert(built.sublists[k] == before.sublists[k]);
                assert(built.gaps[k] == before.gaps[k]);
            }
        }
    }
}

impl<S: Spacing> SpacedList<S> {
    /// The sum of the `count` degree-0 links from node `from` on.
    pub open spec fn degree_zero_sum(&self, from: nat, count: nat) -> int
        decreases count,
    {
        if count == 0 {
            0
        } else {
            self.degree_zero_sum(from, (count - 1) as nat) + self.link(
                (from + count - 1) as nat,
                0,
            )
        }
    }

    /// The degree-0 links from node `from` on add up to the distance between
    /// the nodes at the two ends, as long as they are links of this list.
    proof fn lemma_degree_zero_sum(&self, from: nat, count: nat)
        requires
            self.links_wf(),
            2 * (from + count) <= self.link_lengths.len() + 1,
        ensures
            self.degree_zero_sum(from, count) == position_in(self.gaps(), (from + count) as int)
                - position_in(self.gaps(), from as int),
        decreases count,
    {
        if count > 0 {
            let degrees = degree_count(self.size as nat);
            let last = (from + count - 1) as nat;
            self.lemma_degree_zero_sum(from, (count - 1) as nat);
            lemma2_to64();
            assert(last % pow2(0) == 0);
            assert(self.link_values()[link_slot(last, 0) as int] == position_in(
                self.gaps(),
                (last + pow2(0)) as int,
            ) - position_in(self.gaps(), last as int));
            lemma_pow2_unfold(degrees);
            lemma_link_slot_range(last, 0, degrees);
        }
    }

    /// Every link holds the sum of the degree-0 links that it spans: for a
    /// degree in use and a node at a multiple of the span of that degree, the
    /// link of that degree from that node is as long as the `pow2(degree)`
    /// degree-0 links from that node on together.
    pub proof fn lemma_link_is_sum(&self, node_index: nat, degree: nat)
        requires
            self.links_wf(),
            degree < degree_count(self.size as nat),
            2 * node_index < self.link_lengths.len() + 1,
            node_index % pow2(degree) == 0,
        ensures
            link_slot(node_index, degree) < self.link_lengths.len(),
            self.link(node_index, degree) == self.degree_zero_sum(node_index, pow2(degree)),
    {
        let degrees = degree_count(self.size as nat);
        lemma_pow2_unfold(degrees);
        lemma_link_slot_range(node_index, degree, degrees);
        assert(self.link_values()[link_slot(node_index, degree) as int] == position_in(
            self.gaps(),
            (node_index + pow2(degree)) as int,
        ) - position_in(self.gaps(), node_index as int));
        // The link ends within the half of the array that holds the gaps.
        lemma_aligned_span_fits(node_index, degree, (degrees - 1) as nat);
        self.lemma_degree_zero_sum(node_index, pow2(degree));
    }

    /// The length of a list with more than one node is its top link: the one
    /// link of the highest degree in use.
    pub proof fn lemma_length_is_top_link(&self)
        requires
            self.links_wf(),
            self.size >= 2,
        ensures
            degree_count(self.size as nat) >= 1,
            link_slot(0, (degree_count(self.size as nat) - 1) as nat) < self.link_lengths.len(),
            self.length.value() == self.link(0, (degree_count(self.size as nat) - 1) as nat),
    {
        lemma_capacity_shape(self.size as nat);
        lemma_top_link(self.link_values(), self.gaps(), degree_count(self.size as nat));
    }

    /// A list in order has exactly as many link slots as its size needs.
    pub proof fn lemma_capacity_is_necessary(&self)
        requires
            self.links_wf(),
        ensures
            self.link_lengths.len() == necessary_capacity(self.size as nat),
    {
    }
}

/// Each of the four directions names at most one node of a list for a
/// target.
pub proof fn lemma_query_index_unique(list: ListView, one: int, other: int, target: int)
    ensures
        list.is_last_before(one, target) && list.is_last_before(other, target) ==> one == other,
        list.is_last_at_or_before(one, target) && list.is_last_at_or_before(other, target) ==> one
            == other,
        list.is_first_at_or_after(one, target) && list.is_first_at_or_after(other, target) ==> one
            == other,
        list.is_first_after(one, target) && list.is_first_after(other, target) ==> one == other,
{
    if list.is_last_before(one, target) && list.is_last_before(other, target) {
        assert(list.position(one) < target && list.position(other) < target);
    }
    if list.is_last_at_or_before(one, target) && list.is_last_at_or_before(other, target) {
        assert(list.position(one) <= target && list.position(other) <= target);
    }
    if list.is_first_at_or_after(one, target) && list.is_first_at_or_after(other, target) {
        assert(target <= list.position(one) && target <= list.position(other));
    }
    if list.is_first_after(one, target) && list.is_first_after(other, target) {
        assert(target < list.position(one) && target < list.position(other));
    }
}

/// How the directions hang together: the node at a target is the last node
/// at or before it where that node lies on the target; the first node after
/// a target is the successor of the last node at or before it; and the first
/// node at or after a target is the last node at or before it where that
/// lies on the target, and its successor where it does not.
pub proof fn lemma_query_siblings(list: ListView, index: int, target: int)
    requires
        all_positive(list.gaps),
        list.is_last_at_or_before(index, target),
    ensures
        list.has_node_at(target) == (list.position(index) == target),
        index < list.gaps.len() ==> list.is_first_after(index + 1, target),
        list.position(index) == target ==> list.is_first_at_or_after(index, target),
        list.position(index) < target && index < list.gaps.len() ==> list.is_first_at_or_after(
            index + 1,
            target,
        ),
        index == list.gaps.len() ==> forall|other: int|
            list.has_node(other) ==> #[trigger] list.position(other) <= target,
        target > 0 && list.position(index) < target ==> list.is_last_before(index, target),
{
    let gaps = list.gaps;
    if list.has_node_at(target) {
        let at = choose|at: int| list.has_node(at) && #[trigger] list.position(at) == target;
        if at < index {
            lemma_position_increases(gaps, at, index);
        }
    }
    if index < gaps.len() {
        assert(list.has_node(index + 1));
        if list.position(index + 1) <= target {
            assert(index + 1 <= index);
        }
    }
    assert forall|other: int| list.has_node(other) && other <= index implies #[trigger] list.position(
        other,
    ) <= list.position(index) by {
        lemma_position_increases(gaps, other, index);
    }
    assert forall|other: int| list.has_node(other) && other < index implies #[trigger] list.position(
        other,
    ) < list.position(index) by {
        lemma_position_increases(gaps, other, index);
    }
}

/// After the insertion of a node at a position, the list contains that
/// position, so that the query for the node at that position finds a path to
/// it; and it contains every position that it contained before.
pub proof fn lemma_insert_then_at<S: Spacing>(
    before: &SpacedList<S>,
    after: &SpacedList<S>,
    target: int,
)
    requires
        before.wf(),
        target >= 0,
        !before@.contains(target),
        after@ == before@.insert(target),
    ensures
        after@.contains(target),
        forall|other: int| before@.contains(other) ==> after@.contains(other),
        forall|other: int| after@.contains(other) ==> before@.contains(other) || other == target,
{
    before.lemma_view_wf();
    before@.lemma_insert(target);
}

/// An insertion behind the last node adds one gap and leaves every list below
/// as it was. An insertion before the last node leaves the nodes of the list
/// itself where they are, and changes nothing but the list that subdivides
/// the gap around the new node: that list takes the node, at its distance
/// from the node before the gap.
pub proof fn lemma_insert_touches_one_gap(list: ListView, target: int)
    requires
        list.wf(),
        target >= 0,
        !list.contains(target),
    ensures
        target > list.length() ==> list.insert(target).gaps == list.gaps.push(
            target - list.length(),
        ) && list.insert(target).sublists == list.sublists.push(None),
        target < list.length() ==> 0 <= list.index_at_or_before(target) < list.gaps.len(),
        target < list.length() ==> list.position(list.index_at_or_before(target)) < target
            < list.position(list.index_at_or_before(target) + 1),
        target < list.length() ==> list.insert(target).gaps == list.gaps,
        target < list.length() ==> list.insert(target).sublists.len() == list.sublists.len(),
        target < list.length() ==> forall|j: int|
            0 <= j < list.sublists.len() && j != list.index_at_or_before(target) ==> list.insert(
                target,
            ).sublists[j] == list.sublists[j],
        target < list.length() ==> list.insert(target).sublists[list.index_at_or_before(target)]
            == Some(
            list.inserted_below(list.index_at_or_before(target), target),
        ),
{
    let count = list.gaps.len() as int;
    list.lemma_contains_node(count);
    if target < list.length() {
        let k = list.index_at_or_before(target);
        list.lemma_last_at_or_before_exists(target);
        list.lemma_enclosing_gap(k, target);
        list.lemma_contains_node(k);
    }
}

/// The node at the end of a path lies from the node of the first step on and
/// before the successor of that node.
proof fn lemma_path_within_gap<'a, S: Spacing>(
    list: &SpacedList<S>,
    path: Seq<TraversalResult<'a, S>>,
)
    requires
        list.wf(),
        is_path(list, path),
    ensures
        list@.position(path[0].index as int) <= path_position(path),
        path[0].index < list.size - 1 ==> path_position(path) < list@.position(
            path[0].index + 1,
        ),
        path[0].index == list.size - 1 ==> path.len() == 1,
{
    let first = path[0].index as int;
    let rest = path.subrange(1, path.len() as int);
    list.lemma_view_wf();
    if path.len() == 1 {
        assert(path_position(rest) == 0);
        if first < list.size - 1 {
            lemma_position_increases(list.gaps(), first, first + 1);
        }
    } else {
        let sublist = list.sublists[first]->0;
        lemma_path_contained(&sublist, rest);
        sublist.lemma_view_wf();
        sublist@.lemma_contained_range(path_position(rest));
    }
}

/// Two paths of a list that end at the same position are the same path: a
/// position names at most one node of the hierarchy, and a node has one path.
pub proof fn lemma_path_unique<'a, S: Spacing>(
    list: &SpacedList<S>,
    one: Seq<TraversalResult<'a, S>>,
    other: Seq<TraversalResult<'a, S>>,
)
    requires
        list.wf(),
        is_path(list, one),
        is_path(list, other),
        path_position(one) == path_position(other),
    ensures
        one == other,
    decreases one.len(),
{
    let i = one[0].index as int;
    let j = other[0].index as int;
    let gaps = list.gaps();
    lemma_path_within_gap(list, one);
    lemma_path_within_gap(list, other);
    if i < j {
        lemma_position_increases(gaps, i + 1, j);
    }
    if j < i {
        lemma_position_increases(gaps, j + 1, i);
    }
    assert(i == j);
    S::lemma_value_injective(one[0].position, other[0].position);
    assert(one[0] == other[0]);
    let one_rest = one.subrange(1, one.len() as int);
    let other_rest = other.subrange(1, other.len() as int);
    if one.len() == 1 && other.len() == 1 {
    } else if one.len() == 1 {
        let sublist = list.sublists[i]->0;
        assert(path_position(one_rest) == 0);
        lemma_path_contained(&sublist, other_rest);
        assert(other_rest.last() == other.last());
        assert(false);
    } else if other.len() == 1 {
        let sublist = list.sublists[i]->0;
        assert(path_position(other_rest) == 0);
        lemma_path_contained(&sublist, one_rest);
        assert(one_rest.last() == one.last());
        assert(false);
    } else {
        let sublist = list.sublists[i]->0;
        lemma_path_unique(&sublist, one_rest, other_rest);
        assert(one =~= seq![one[0]] + one_rest);
        assert(other =~= seq![other[0]] + other_rest);
    }
    assert(one =~= other);
}

} // verus!
