//! The mathematical model of a spaced list: the lengths of its gaps and, for
//! each gap, the list that subdivides it, if there is one.

use vstd::prelude::*;
use crate::packing::{
    all_positive, lemma_position_after_push, lemma_position_increases,
    lemma_position_nonnegative, position_in,
};

verus! {

/// What a spaced list holds, apart from how it stores it.
pub ghost struct ListView {
    /// The lengths of the gaps between consecutive nodes, in order.
    pub gaps: Seq<int>,
    /// For each gap, the list that subdivides it, if any.
    pub sublists: Seq<Option<ListView>>,
}

impl ListView {
    /// The list with the anchor node alone.
    pub open spec fn empty() -> ListView {
        ListView { gaps: Seq::empty(), sublists: Seq::empty() }
    }

    /// The number of nodes.
    pub open spec fn size(self) -> nat {
        self.gaps.len() + 1
    }

    /// The position of node `index` in the frame of this list.
    pub open spec fn position(self, index: int) -> int {
        position_in(self.gaps, index)
    }

    /// The position of the last node.
    pub open spec fn length(self) -> int {
        position_in(self.gaps, self.gaps.len() as int)
    }

    /// Every gap has a positive length, and a list that subdivides a gap ends
    /// before the gap does; the same holds of every list below.
    pub open spec fn wf(self) -> bool
        decreases self,
    {
        &&& self.sublists.len() == self.gaps.len()
        &&& all_positive(self.gaps)
        &&& forall|k: int|
            0 <= k < self.sublists.len() ==> match #[trigger] self.sublists[k] {
                Some(sublist) => sublist.wf() && sublist.length() < self.gaps[k],
                None => true,
            }
    }

    /// Whether `index` is a node of this list.
    pub open spec fn has_node(self, index: int) -> bool {
        0 <= index <= self.gaps.len()
    }

    /// Whether node `index` is the last node at or before `target`: of the
    /// nodes whose position is at most `target`, the one with the greatest
    /// index.
    pub open spec fn is_last_at_or_before(self, index: int, target: int) -> bool {
        &&& self.has_node(index)
        &&& self.position(index) <= target
        &&& forall|other: int|
            self.has_node(other) && #[trigger] self.position(other) <= target ==> other <= index
    }

    /// Whether node `index` is the last node before `target`: of the nodes
    /// whose position is less than `target`, the one with the greatest index.
    pub open spec fn is_last_before(self, index: int, target: int) -> bool {
        &&& self.has_node(index)
        &&& self.position(index) < target
        &&& forall|other: int|
            self.has_node(other) && #[trigger] self.position(other) < target ==> other <= index
    }

    /// Whether node `index` is the first node at or after `target`: of the
    /// nodes whose position is at least `target`, the one with the least
    /// index.
    pub open spec fn is_first_at_or_after(self, index: int, target: int) -> bool {
        &&& self.has_node(index)
        &&& target <= self.position(index)
        &&& forall|other: int|
            self.has_node(other) && target <= #[trigger] self.position(other) ==> index <= other
    }

    /// Whether node `index` is the first node after `target`: of the nodes
    /// whose position is greater than `target`, the one with the least index.
    pub open spec fn is_first_after(self, index: int, target: int) -> bool {
        &&& self.has_node(index)
        &&& target < self.position(index)
        &&& forall|other: int|
            self.has_node(other) && target < #[trigger] self.position(other) ==> index <= other
    }

    /// Whether some node of this list itself lies at `target`.
    pub open spec fn has_node_at(self, target: int) -> bool {
        exists|index: int| self.has_node(index) && #[trigger] self.position(index) == target
    }

    /// The index of the last node at or before `target`.
    pub open spec fn index_at_or_before(self, target: int) -> int {
        choose|index: int| self.is_last_at_or_before(index, target)
    }

    /// Whether some node of this list or of a list below it lies at `target`,
    /// in the frame of this list.
    pub open spec fn contains(self, target: int) -> bool
        decreases self,
    {
        ||| self.has_node_at(target)
        ||| exists|k: int|
            0 <= k < self.sublists.len() && match #[trigger] self.sublists[k] {
                Some(sublist) => sublist.contains(target - self.position(k)),
                None => false,
            }
    }

    /// The list with one more node, `distance` behind the last.
    pub open spec fn append(self, distance: int) -> ListView {
        ListView { gaps: self.gaps.push(distance), sublists: self.sublists.push(None) }
    }

    /// What the list in gap `k` becomes when it takes a node at `target`, a
    /// position in the frame of this list: the list that is there with the
    /// node inserted, or a new list with the node appended.
    pub open spec fn inserted_below(self, k: int, target: int) -> ListView
        decreases self, 0nat,
    {
        let local = target - self.position(k);
        if 0 <= k < self.sublists.len() {
            match self.sublists[k] {
                Some(sublist) => sublist.insert(local),
                None => Self::empty().append(local),
            }
        } else {
            Self::empty()
        }
    }

    /// The list with one more node at `target`: behind the last node if
    /// `target` lies there, and else in the list that subdivides the gap
    /// around `target`.
    pub open spec fn insert(self, target: int) -> ListView
        decreases self, 1nat,
    {
        if target >= self.length() {
            self.append(target - self.length())
        } else {
            let k = self.index_at_or_before(target);
            if 0 <= k < self.sublists.len() {
                ListView {
                    gaps: self.gaps,
                    sublists: self.sublists.update(k, Some(self.inserted_below(k, target))),
                }
            } else {
                self
            }
        }
    }

    /// How many lists the insertion of `target` walks down before it appends.
    pub open spec fn insertion_depth(self, target: int) -> nat
        decreases self,
    {
        if target >= self.length() {
            0
        } else {
            let k = self.index_at_or_before(target);
            if 0 <= k < self.sublists.len() {
                match self.sublists[k] {
                    Some(sublist) => 1 + sublist.insertion_depth(target - self.position(k)),
                    None => 1,
                }
            } else {
                0
            }
        }
    }

    /// The size of the list to which the insertion of `target` appends.
    pub open spec fn landing_size(self, target: int) -> nat
        decreases self,
    {
        if target >= self.length() {
            self.size()
        } else {
            let k = self.index_at_or_before(target);
            if 0 <= k < self.sublists.len() {
                match self.sublists[k] {
                    Some(sublist) => sublist.landing_size(target - self.position(k)),
                    None => 1,
                }
            } else {
                self.size()
            }
        }
    }

    /// At most one node is the last at or before a target.
    pub proof fn lemma_last_at_or_before_unique(self, index: int, target: int)
        requires
            self.is_last_at_or_before(index, target),
        ensures
            self.index_at_or_before(target) == index,
    {
        let chosen = self.index_at_or_before(target);
        assert(self.is_last_at_or_before(chosen, target));
        assert(self.position(chosen) <= target);
        assert(self.position(index) <= target);
    }

    /// The last node at or before a target that lies before the end of the
    /// list has a successor, and the target lies before that successor.
    pub proof fn lemma_enclosing_gap(self, index: int, target: int)
        requires
            self.wf(),
            self.is_last_at_or_before(index, target),
            target < self.length(),
        ensures
            0 <= index < self.gaps.len(),
            self.position(index) <= target < self.position(index + 1),
            self.position(index + 1) == self.position(index) + self.gaps[index],
    {
        let last = self.gaps.len() as int;
        if index == last {
            assert(false);
        }
        assert(self.has_node(index + 1));
        if self.position(index + 1) <= target {
            assert(index + 1 <= index);
        }
    }

    /// Every node of a list and of the lists below it lies between the
    /// anchor and the last node of the list.
    pub proof fn lemma_contained_range(self, target: int)
        requires
            self.wf(),
            self.contains(target),
        ensures
            0 <= target <= self.length(),
        decreases self,
    {
        if self.has_node_at(target) {
            let index = choose|index: int|
                self.has_node(index) && #[trigger] self.position(index) == target;
            lemma_position_nonnegative(self.gaps, index);
            lemma_position_increases(self.gaps, index, self.gaps.len() as int);
        } else {
            let k = choose|k: int|
                0 <= k < self.sublists.len() && match #[trigger] self.sublists[k] {
                    Some(sublist) => sublist.contains(target - self.position(k)),
                    None => false,
                };
            let sublist = self.sublists[k]->0;
            sublist.lemma_contained_range(target - self.position(k));
            lemma_position_nonnegative(self.gaps, k);
            lemma_position_increases(self.gaps, k + 1, self.gaps.len() as int);
        }
    }

    /// A node that lies from node `index` on and before the next node of this
    /// list is node `index` itself or a node of the list in the gap behind
    /// it.
    pub proof fn lemma_locate(self, target: int, index: int)
        requires
            self.wf(),
            self.contains(target),
            self.has_node(index),
            self.position(index) <= target,
            index < self.gaps.len() ==> target < self.position(index + 1),
        ensures
            target == self.position(index) || (index < self.gaps.len() && target > self.position(
                index,
            ) && self.sublists[index] is Some && self.sublists[index]->0.contains(
                target - self.position(index),
            )),
    {
        let last = self.gaps.len() as int;
        if self.has_node_at(target) {
            let other = choose|other: int|
                self.has_node(other) && #[trigger] self.position(other) == target;
            if other < index {
                lemma_position_increases(self.gaps, other, index);
            }
            if other > index {
                lemma_position_increases(self.gaps, index + 1, other);
            }
        } else {
            let k = choose|k: int|
                0 <= k < self.sublists.len() && match #[trigger] self.sublists[k] {
                    Some(sublist) => sublist.contains(target - self.position(k)),
                    None => false,
                };
            let sublist = self.sublists[k]->0;
            sublist.lemma_contained_range(target - self.position(k));
            if k < index {
                lemma_position_increases(self.gaps, k + 1, index);
            }
            if k > index {
                lemma_position_increases(self.gaps, index + 1, k);
            }
            if target == self.position(index) {
            }
        }
    }

    /// What a list in a gap contains, the list around it contains too, moved
    /// by the position of the node before the gap.
    pub proof fn lemma_contains_from_sublist(self, k: int, local: int)
        requires
            0 <= k < self.sublists.len(),
            self.sublists[k] is Some,
            self.sublists[k]->0.contains(local),
        ensures
            self.contains(self.position(k) + local),
    {
        let target = self.position(k) + local;
        assert(match self.sublists[k] {
            Some(sublist) => sublist.contains(target - self.position(k)),
            None => false,
        });
    }

    /// The list with the anchor alone contains the position zero and no
    /// other.
    pub proof fn lemma_empty_contains(target: int)
        ensures
            Self::empty().contains(target) == (target == 0),
            Self::empty().wf(),
            Self::empty().length() == 0,
    {
        let empty = Self::empty();
        assert(empty.has_node(0) && empty.position(0) == 0);
        if empty.contains(target) {
            if empty.has_node_at(target) {
                let index = choose|index: int|
                    empty.has_node(index) && #[trigger] empty.position(index) == target;
                assert(index == 0);
            }
        }
    }

    /// A list without gaps contains the position zero and no other.
    pub proof fn lemma_single_node_contains(self, target: int)
        requires
            self.wf(),
            self.gaps.len() == 0,
        ensures
            self.contains(target) == (target == 0),
    {
        assert(self.has_node(0) && self.position(0) == 0);
        if self.contains(target) {
            if self.has_node_at(target) {
                let index = choose|index: int|
                    self.has_node(index) && #[trigger] self.position(index) == target;
                assert(index == 0);
            }
        }
    }

    /// A node of the list itself is contained.
    pub proof fn lemma_contains_node(self, index: int)
        requires
            self.has_node(index),
        ensures
            self.contains(self.position(index)),
    {
        assert(self.has_node_at(self.position(index)));
    }

    /// Where a contained position lies: at a node of the list itself (then
    /// the result is `true` and the index of the node), or in the list that
    /// subdivides a gap (then the result is `false` and the index of the
    /// gap).
    pub proof fn lemma_contains_witness(self, target: int) -> (place: (bool, int))
        requires
            self.contains(target),
        ensures
            place.0 ==> self.has_node(place.1) && self.position(place.1) == target,
            !place.0 ==> 0 <= place.1 < self.sublists.len() && self.sublists[place.1] is Some
                && self.sublists[place.1]->0.contains(target - self.position(place.1)),
    {
        if self.has_node_at(target) {
            let index = choose|index: int|
                self.has_node(index) && #[trigger] self.position(index) == target;
            (true, index)
        } else {
            let k = choose|k: int|
                0 <= k < self.sublists.len() && match #[trigger] self.sublists[k] {
                    Some(sublist) => sublist.contains(target - self.position(k)),
                    None => false,
                };
            (false, k)
        }
    }

    /// Searches downwards from node `upto` for the last node at or before
    /// `target`, where every node behind `upto` lies behind `target`.
    proof fn lemma_find_last_at_or_before(self, target: int, upto: int) -> (index: int)
        requires
            all_positive(self.gaps),
            target >= 0,
            self.has_node(upto),
            forall|other: int|
                upto < other && self.has_node(other) ==> #[trigger] self.position(other) > target,
        ensures
            self.is_last_at_or_before(index, target),
        decreases upto,
    {
        if self.position(upto) <= target {
            upto
        } else {
            self.lemma_find_last_at_or_before(target, upto - 1)
        }
    }

    /// Every target that is not negative has a last node at or before it.
    pub proof fn lemma_last_at_or_before_exists(self, target: int)
        requires
            all_positive(self.gaps),
            target >= 0,
        ensures
            self.is_last_at_or_before(self.index_at_or_before(target), target),
    {
        let index = self.lemma_find_last_at_or_before(target, self.gaps.len() as int);
    }

    /// A list with one more node behind its last is in order, ends at the
    /// new node, and contains the new node besides what it contained.
    pub proof fn lemma_append(self, distance: int)
        requires
            self.wf(),
            distance > 0,
        ensures
            self.append(distance).wf(),
            self.append(distance).length() == self.length() + distance,
            forall|other: int|
                self.append(distance).contains(other) <==> (self.contains(other) || other
                    == self.length() + distance),
    {
        let longer = self.append(distance);
        let count = self.gaps.len() as int;
        assert forall|index: int| index <= count + 1 implies #[trigger] longer.position(index) == (if index
            <= count {
            self.position(index)
        } else {
            self.length() + distance
        }) by {
            lemma_position_after_push(self.gaps, distance, index);
        }
        assert(longer.position(count + 1) == self.length() + distance);
        assert forall|k: int| 0 <= k < longer.sublists.len() implies match #[trigger] longer.sublists[k] {
            Some(sublist) => sublist.wf() && sublist.length() < longer.gaps[k],
            None => true,
        } by {
            if k < count {
                assert(longer.sublists[k] == self.sublists[k]);
                assert(longer.gaps[k] == self.gaps[k]);
            }
        }
        assert forall|other: int| longer.contains(other) implies (self.contains(other) || other
            == self.length() + distance) by {
            let place = longer.lemma_contains_witness(other);
            if place.0 {
                if place.1 <= count {
                    assert(longer.position(place.1) == self.position(place.1));
                    self.lemma_contains_node(place.1);
                }
            } else {
                assert(place.1 < count);
                assert(longer.sublists[place.1] == self.sublists[place.1]);
                assert(longer.position(place.1) == self.position(place.1));
                self.lemma_contains_from_sublist(place.1, other - self.position(place.1));
            }
        }
        assert forall|other: int|
            (self.contains(other) || other == self.length() + distance) implies longer.contains(
            other,
        ) by {
            if other == self.length() + distance {
                assert(longer.has_node(count + 1));
                longer.lemma_contains_node(count + 1);
            } else {
                let place = self.lemma_contains_witness(other);
                assert(longer.position(place.1) == self.position(place.1));
                if place.0 {
                    assert(longer.has_node(place.1));
                    longer.lemma_contains_node(place.1);
                } else {
                    assert(longer.sublists[place.1] == self.sublists[place.1]);
                    longer.lemma_contains_from_sublist(place.1, other - self.position(place.1));
                }
            }
        }
    }

    /// The insertion of a node at a position where there is none keeps the
    /// list in order, moves the end of the list only if the node lies behind
    /// it, and adds that position to the positions the list contains and
    /// nothing else.
    pub proof fn lemma_insert(self, target: int)
        requires
            self.wf(),
            target >= 0,
            !self.contains(target),
        ensures
            self.insert(target).wf(),
            target > self.length() ==> self.insert(target).length() == target,
            target <= self.length() ==> self.insert(target).length() == self.length(),
            forall|other: int|
                self.insert(target).contains(other) <==> (self.contains(other) || other == target),
        decreases self,
    {
        let count = self.gaps.len() as int;
        let after = self.insert(target);
        self.lemma_contains_node(count);
        if target >= self.length() {
            self.lemma_append(target - self.length());
        } else {
            let k = self.index_at_or_before(target);
            self.lemma_last_at_or_before_exists(target);
            self.lemma_enclosing_gap(k, target);
            self.lemma_contains_node(k);
            let start = self.position(k);
            let local = target - start;
            let old_sublist = match self.sublists[k] {
                Some(sublist) => sublist,
                None => Self::empty(),
            };
            let new_sublist = after.sublists[k]->0;
            // What the list in the gap contains before and after.
            assert(old_sublist.wf() && !old_sublist.contains(local)) by {
                Self::lemma_empty_contains(local);
                if self.sublists[k] is Some {
                    if old_sublist.contains(local) {
                        self.lemma_contains_from_sublist(k, local);
                    }
                }
            }
            assert(new_sublist.wf() && new_sublist.length() < self.gaps[k] && forall|below: int|
                new_sublist.contains(below) <==> (old_sublist.contains(below) || below == local))
                by {
                match self.sublists[k] {
                    Some(sublist) => {
                        sublist.lemma_insert(local);
                    },
                    None => {
                        Self::lemma_empty_contains(local);
                        Self::empty().lemma_append(local);
                    },
                }
            }
            assert forall|j: int| 0 <= j < after.sublists.len() implies match #[trigger] after.sublists[j] {
                Some(sublist) => sublist.wf() && sublist.length() < after.gaps[j],
                None => true,
            } by {
                if j != k {
                    assert(after.sublists[j] == self.sublists[j]);
                }
            }
            assert forall|other: int| after.contains(other) implies (self.contains(other) || other
                == target) by {
                let place = after.lemma_contains_witness(other);
                if place.0 {
                    self.lemma_contains_node(place.1);
                } else if place.1 != k {
                    assert(after.sublists[place.1] == self.sublists[place.1]);
                    self.lemma_contains_from_sublist(place.1, other - self.position(place.1));
                } else {
                    let below = other - start;
                    if below != local {
                        assert(old_sublist.contains(below));
                        if self.sublists[k] is Some {
                            self.lemma_contains_from_sublist(k, below);
                        } else {
                            Self::lemma_empty_contains(below);
                        }
                    }
                }
            }
            assert forall|other: int|
                (self.contains(other) || other == target) implies after.contains(other) by {
                if other == target {
                    assert(new_sublist.contains(local));
                    after.lemma_contains_from_sublist(k, local);
                } else {
                    let place = self.lemma_contains_witness(other);
                    if place.0 {
                        assert(after.has_node(place.1));
                        after.lemma_contains_node(place.1);
                    } else if place.1 != k {
                        assert(after.sublists[place.1] == self.sublists[place.1]);
                        after.lemma_contains_from_sublist(
                            place.1,
                            other - self.position(place.1),
                        );
                    } else {
                        let below = other - start;
                        assert(new_sublist.contains(below));
                        after.lemma_contains_from_sublist(k, below);
                    }
                }
            }
        }
    }
}

} // verus!
