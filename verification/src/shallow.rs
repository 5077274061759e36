//! Position queries within one list, not looking into the lists that
//! subdivide its gaps.

use vstd::prelude::*;
use vstd::arithmetic::div_mod::*;
use vstd::arithmetic::power2::*;
use vstd::bits::*;
use crate::links::{degree_count, lemma_capacity_shape, lemma_link_slot_range, link_slot};
use crate::list::SpacedList;
use crate::packing::{lemma_position_increases, lemma_position_nonnegative, position_in};
use crate::spacing::Spacing;

verus! {

/// A node found by a query: the list it belongs to, its position in the
/// frame of that list, and its index there.
#[derive(PartialEq, Eq, Debug)]
pub struct TraversalResult<'a, S: Spacing> {
    /// The list that the node belongs to.
    pub list: &'a SpacedList<S>,
    /// The position of the node in the frame of that list.
    pub position: S,
    /// The index of the node in that list.
    pub index: usize,
}

impl<'a, S: Spacing> TraversalResult<'a, S> {
    /// The result names node `index` of `list` with the position that the
    /// node has there.
    pub open spec fn names(&self, list: &SpacedList<S>, index: int) -> bool {
        &&& self.list == list
        &&& self.index == index
        &&& list@.has_node(index)
        &&& self.position.value() == list@.position(index)
    }
}

/// A multiple of a power of two is a multiple of the next lower power, and
/// stays a multiple of that power when the power is added to it.
proof fn lemma_step_down(index: nat, degree: nat)
    requires
        index % pow2(degree + 1) == 0,
    ensures
        index % pow2(degree) == 0,
        (index + pow2(degree)) % pow2(degree) == 0,
{
    let p = pow2(degree) as int;
    lemma_pow2_pos(degree);
    lemma_pow2_unfold(degree + 1);
    lemma_fundamental_div_mod(index as int, 2 * p);
    let q = index as int / (2 * p);
    assert(index as int == p * (2 * q) + 0) by (nonlinear_arith)
        requires
            index as int == (2 * p) * q,
    ;
    lemma_fundamental_div_mod_converse(index as int, p, 2 * q, 0);
    assert(index as int + p == p * (2 * q + 1) + 0) by (nonlinear_arith)
        requires
            index as int == (2 * p) * q,
    ;
    lemma_fundamental_div_mod_converse(index as int + p, p, 2 * q + 1, 0);
}

impl<S: Spacing> SpacedList<S> {
    /// Walks down the degrees from the highest, and takes each link whose
    /// far end still lies before `target` (for `strict`) or at or before it.
    fn descend(&self, target: S, strict: bool) -> (reached: TraversalResult<'_, S>)
        requires
            self.links_wf(),
            target.value() >= 0,
            strict ==> target.value() > 0,
        ensures
            reached.names(self, reached.index as int),
            strict ==> self@.is_last_before(reached.index as int, target.value()),
            !strict ==> self@.is_last_at_or_before(reached.index as int, target.value()),
    {
        let ghost gaps = self.gaps();
        let ghost degrees = degree_count(self.size as nat);
        let ghost goal = target.value();
        let mut position = S::zero();
        let mut index: usize = 0;
        let depth = self.depth();
        let mut degree = depth;
        proof {
            lemma_capacity_shape(self.size as nat);
            lemma_pow2_pos(degrees);
            lemma_small_mod(0, pow2(degrees));
            if degrees >= 1 {
                lemma_pow2_unfold(degrees);
                lemma_pow2_pos((degrees - 1) as nat);
            } else {
                lemma2_to64();
            }
            position.lemma_value_fits();
            self.length.lemma_value_fits();
        }
        while degree > 0
            invariant
                self.links_wf(),
                gaps == self.gaps(),
                degrees == degree_count(self.size as nat),
                goal == target.value(),
                degree <= depth == degrees,
                depth < usize::BITS,
                index < self.size,
                index as nat % pow2(degree as nat) == 0,
                position.value() == position_in(gaps, index as int),
                S::fits(0),
                S::fits(self.length.value()),
                if strict {
                    position.value() < goal
                } else {
                    position.value() <= goal
                },
                index + pow2(degree as nat) < self.size ==> if strict {
                    goal <= position_in(gaps, index + pow2(degree as nat))
                } else {
                    goal < position_in(gaps, index + pow2(degree as nat))
                },
            decreases degree,
        {
            degree -= 1;
            proof {
                lemma_capacity_shape(self.size as nat);
                lemma_pow2_unfold(degrees);
                lemma_pow2_unfold((degree + 1) as nat);
                lemma_step_down(index as nat, degree as nat);
                lemma_usize_pow2_no_overflow(degree as nat);
                lemma_usize_shl_is_mul(1, degree);
                if degree < degrees - 1 {
                    lemma_pow2_strictly_increases(degree as nat, (degrees - 1) as nat);
                }
            }
            let possibly_next_index = index + (1 << degree);
            if possibly_next_index < self.size {
                proof {
                    lemma_link_slot_range(index as nat, degree as nat, degrees);
                    assert(self.link_values()[link_slot(index as nat, degree as nat) as int]
                        == position_in(gaps, (index as nat + pow2(degree as nat)) as int)
                        - position_in(gaps, index as nat as int));
                    lemma_position_nonnegative(gaps, possibly_next_index as int);
                    lemma_position_increases(gaps, possibly_next_index as int, self.size - 1);
                    S::lemma_fits_between(
                        0,
                        position_in(gaps, possibly_next_index as int),
                        self.length.value(),
                    );
                }
                let possibly_next_position = position.plus(self.link_length(index, degree));
                let passes = if strict {
                    possibly_next_position.less(&target)
                } else {
                    possibly_next_position.at_most(&target)
                };
                if passes {
                    position = possibly_next_position;
                    index = possibly_next_index;
                }
            }
        }
        proof {
            lemma2_to64();
            let found = index as int;
            assert forall|other: int|
                self@.has_node(other) && (if strict {
                    self@.position(other) < goal
                } else {
                    self@.position(other) <= goal
                }) implies other <= found by {
                if other > found {
                    lemma_position_increases(gaps, found + 1, other);
                }
            }
        }
        TraversalResult { list: self, position, index }
    }

    /// The last node before or at `target_position` (the one with the
    /// greatest position that is at most `target_position`) in this list, not
    /// in sublists. The target must not be negative.
    pub fn node_before_or_at_shallow(&self, target_position: S) -> (node: TraversalResult<'_, S>)
        requires
            self.links_wf(),
            target_position.value() >= 0,
        ensures
            node.names(self, node.index as int),
            self@.is_last_at_or_before(node.index as int, target_position.value()),
    {
        self.descend(target_position, false)
    }

    /// The last node before `target_position` (the one with the greatest
    /// position less than `target_position`) in this list, not in sublists;
    /// none for a target that is not positive.
    pub fn node_before_shallow(&self, target_position: S) -> (node: Option<TraversalResult<'_, S>>)
        requires
            self.links_wf(),
        ensures
            (node is None) == (target_position.value() <= 0),
            node matches Some(found) ==> found.names(self, found.index as int)
                && self@.is_last_before(found.index as int, target_position.value()),
    {
        let zero = S::zero();
        if !zero.less(&target_position) {
            return None;
        }
        Some(self.descend(target_position, true))
    }

    /// The last node at or before `target_position` in this list, not in
    /// sublists; none for a negative target.
    pub fn node_at_or_before_shallow(&self, target_position: S) -> (node: Option<
        TraversalResult<'_, S>,
    >)
        requires
            self.links_wf(),
        ensures
            (node is None) == (target_position.value() < 0),
            node matches Some(found) ==> found.names(self, found.index as int)
                && self@.is_last_at_or_before(found.index as int, target_position.value()),
    {
        let zero = S::zero();
        if target_position.less(&zero) {
            return None;
        }
        Some(self.node_before_or_at_shallow(target_position))
    }

    /// The node at `target_position` in this list, not in sublists; none if
    /// this list has no node there.
    pub fn node_at_shallow(&self, target_position: S) -> (node: Option<TraversalResult<'_, S>>)
        requires
            self.links_wf(),
        ensures
            (node is Some) == self@.has_node_at(target_position.value()),
            node matches Some(found) ==> found.names(self, found.index as int)
                && found.position.value() == target_position.value(),
    {
        let zero = S::zero();
        if target_position.less(&zero) {
            proof {
                assert forall|index: int| self@.has_node(index) implies #[trigger] self@.position(
                    index,
                ) != target_position.value() by {
                    lemma_position_nonnegative(self.gaps(), index);
                }
            }
            return None;
        }
        let reached = self.node_before_or_at_shallow(target_position);
        if reached.position.same(&target_position) {
            Some(reached)
        } else {
            proof {
                let found = reached.index as int;
                assert forall|index: int| self@.has_node(index) implies #[trigger] self@.position(
                    index,
                ) != target_position.value() by {
                    if index < found {
                        lemma_position_increases(self.gaps(), index, found);
                    }
                }
            }
            None
        }
    }

    /// The first node at or after `target_position` in this list, not in
    /// sublists; none for a target behind the last node.
    pub fn node_at_or_after_shallow(&self, target_position: S) -> (node: Option<
        TraversalResult<'_, S>,
    >)
        requires
            self.links_wf(),
        ensures
            (node is None) == (target_position.value() > self.length.value()),
            node matches Some(found) ==> found.names(self, found.index as int)
                && self@.is_first_at_or_after(found.index as int, target_position.value()),
    {
        if self.length.less(&target_position) {
            return None;
        }
        let zero = S::zero();
        if !zero.less(&target_position) {
            proof {
                assert forall|other: int| self@.has_node(other) implies 0 <= other by {}
            }
            return Some(TraversalResult { list: self, position: zero, index: 0 });
        }
        let reached = self.node_before_or_at_shallow(target_position);
        if reached.position.same(&target_position) {
            proof {
                let found = reached.index as int;
                assert forall|other: int|
                    self@.has_node(other) && target_position.value() <= #[trigger] self@.position(
                        other,
                    ) implies found <= other by {
                    if other < found {
                        lemma_position_increases(self.gaps(), other, found);
                    }
                }
            }
            Some(reached)
        } else {
            Some(self.step(reached, target_position))
        }
    }

    /// The first node after `target_position` in this list, not in sublists;
    /// none for a target at or behind the last node.
    pub fn node_after_shallow(&self, target_position: S) -> (node: Option<TraversalResult<'_, S>>)
        requires
            self.links_wf(),
        ensures
            (node is None) == (target_position.value() >= self.length.value()),
            node matches Some(found) ==> found.names(self, found.index as int)
                && self@.is_first_after(found.index as int, target_position.value()),
    {
        if !target_position.less(&self.length) {
            return None;
        }
        let zero = S::zero();
        if target_position.less(&zero) {
            proof {
                assert forall|other: int| self@.has_node(other) implies 0 <= other by {}
            }
            return Some(TraversalResult { list: self, position: zero, index: 0 });
        }
        let reached = self.node_before_or_at_shallow(target_position);
        let next = self.step(reached, target_position);
        proof {
            let found = reached.index as int;
            assert forall|other: int|
                self@.has_node(other) && target_position.value() < #[trigger] self@.position(
                    other,
                ) implies found + 1 <= other by {
                if other <= found {
                    lemma_position_increases(self.gaps(), other, found);
                }
            }
        }
        Some(next)
    }

    /// The node that follows `reached` over its degree-0 link, where
    /// `reached` is the last node at or before a target that lies before the
    /// end of the list or is not a node.
    pub(crate) fn step<'a>(&'a self, reached: TraversalResult<'a, S>, target: S) -> (next: TraversalResult<
        'a,
        S,
    >)
        requires
            self.links_wf(),
            reached.names(self, reached.index as int),
            self@.is_last_at_or_before(reached.index as int, target.value()),
            target.value() < self.length.value() || (target.value() <= self.length.value()
                && reached.position.value() != target.value()),
        ensures
            next.names(self, reached.index + 1),
            target.value() < next.position.value(),
            self@.is_first_at_or_after(next.index as int, target.value())
                || reached.position.value() == target.value(),
    {
        proof {
            let found = reached.index as int;
            assert(self@.position(self.size - 1) == self.length.value());
            assert(found < self.size - 1);
            self.lemma_gap(found);
            lemma2_to64();
            self.length.lemma_value_fits();
            reached.position.lemma_value_fits();
            S::lemma_fits_between(
                reached.position.value(),
                self@.position(found + 1),
                self.length.value(),
            );
            assert(self@.has_node(found + 1));
            assert forall|other: int|
                self@.has_node(other) && target.value() <= #[trigger] self@.position(
                    other,
                ) && reached.position.value() != target.value() implies found + 1 <= other by {
                if other <= found {
                    lemma_position_increases(self.gaps(), other, found);
                }
            }
        }
        let position = reached.position.plus(self.link_length(reached.index, 0));
        TraversalResult { list: self, position, index: reached.index + 1 }
    }
}

} // verus!
