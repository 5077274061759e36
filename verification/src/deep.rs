//! Position queries through the whole hierarchy: each returns the path from
//! this list down to the list that holds the node it found.

use vstd::prelude::*;
use crate::list::SpacedList;
use crate::packing::{lemma_position_increases, lemma_position_nonnegative};
use crate::shallow::TraversalResult;
use crate::spacing::Spacing;

verus! {

/// Whether `path` leads from `list` to a node of its hierarchy.
///
/// The first step names a node of `list`. Every further step names a node of
/// the list that subdivides the gap behind the node of the step before it. A
/// path of more than one step does not end at the anchor of a sublist: that
/// anchor is the node of the step before.
pub open spec fn is_path<'a, S: Spacing>(
    list: &SpacedList<S>,
    path: Seq<TraversalResult<'a, S>>,
) -> bool
    decreases path.len(),
{
    &&& path.len() >= 1
    &&& path[0].names(list, path[0].index as int)
    &&& path.len() > 1 ==> {
        &&& path[0].index < list.sublists.len()
        &&& list.sublists[path[0].index as int] is Some
        &&& is_path(&list.sublists[path[0].index as int]->0, path.subrange(1, path.len() as int))
        &&& path.last().index > 0
    }
}

/// The position of the node at the end of `path`, in the frame of the list
/// at its start: the sum of the positions of its steps.
pub open spec fn path_position<'a, S: Spacing>(path: Seq<TraversalResult<'a, S>>) -> int
    decreases path.len(),
{
    if path.len() == 0 {
        0
    } else {
        path[0].position.value() + path_position(path.subrange(1, path.len() as int))
    }
}

/// A path ends at a node that the list contains, and that node lies at the
/// anchor only if the path is the anchor alone.
pub proof fn lemma_path_contained<'a, S: Spacing>(
    list: &SpacedList<S>,
    path: Seq<TraversalResult<'a, S>>,
)
    requires
        list.wf(),
        is_path(list, path),
    ensures
        list@.contains(path_position(path)),
        path_position(path) >= 0,
        path_position(path) == 0 ==> path.len() == 1 && path[0].index == 0,
    decreases path.len(),
{
    let first = path[0].index as int;
    let rest = path.subrange(1, path.len() as int);
    list.lemma_view_wf();
    lemma_position_nonnegative(list.gaps(), first);
    assert(list@.has_node(first));
    if path.len() == 1 {
        assert(path_position(rest) == 0);
        if first > 0 {
            lemma_position_increases(list.gaps(), 0, first);
        }
    } else {
        let sublist = list.sublists[first]->0;
        lemma_path_contained(&sublist, rest);
        list@.lemma_contains_from_sublist(first, path_position(rest));
        assert(rest.last() == path.last());
        if path_position(rest) == 0 {
            assert(false);
        }
    }
}

/// The path of one step.
proof fn lemma_single_step<'a, S: Spacing>(list: &SpacedList<S>, path: Seq<TraversalResult<'a, S>>)
    requires
        path.len() == 1,
        path[0].names(list, path[0].index as int),
    ensures
        is_path(list, path),
        path_position(path) == path[0].position.value(),
{
    assert(path_position(path.subrange(1, path.len() as int)) == 0);
}

/// A path into the list behind a node, put behind the step to that node, is
/// a path of the list around.
proof fn lemma_longer_path<'a, S: Spacing>(
    list: &SpacedList<S>,
    first: TraversalResult<'a, S>,
    below: Seq<TraversalResult<'a, S>>,
)
    requires
        list.wf(),
        first.names(list, first.index as int),
        first.index < list.sublists.len(),
        list.sublists[first.index as int] is Some,
        is_path(&list.sublists[first.index as int]->0, below),
        below.len() > 1 || below[0].index > 0,
    ensures
        is_path(list, seq![first] + below),
        path_position(seq![first] + below) == first.position.value() + path_position(below),
{
    let path = seq![first] + below;
    assert(path.subrange(1, path.len() as int) =~= below);
    assert(path[0] == first);
    assert(path.last() == below.last());
    if below.len() > 1 {
        assert(below.subrange(1, below.len() as int).len() >= 1);
    }
}

impl<S: Spacing> SpacedList<S> {
    /// What the sublist in the gap after node `k` contributes: its view is
    /// the one the view of this list holds for the gap, it is in order, and
    /// it ends before the gap does.
    proof fn lemma_sublist(&self, k: int)
        requires
            self.wf(),
            0 <= k < self.sublists.len(),
            self.sublists[k] is Some,
        ensures
            self@.sublists[k] == Some(self.sublists[k]->0@),
            self.sublists[k]->0.wf(),
            self.sublists[k]->0@.wf(),
            self.sublists[k]->0@.length() == self.sublists[k]->0.length.value(),
            self.sublists[k]->0.length.value() < self@.gaps[k],
            self@.position(k + 1) == self@.position(k) + self@.gaps[k],
            self.sublists[k]->0.size == 1 ==> self.sublists[k]->0@.gaps.len() == 0,
    {
        let sublist = self.sublists[k]->0;
        sublist.lemma_view_wf();
    }

    /// Whether `position` lies before `bound`, or not behind it where
    /// `strict` is not set.
    pub open spec fn lies_before(position: int, bound: int, strict: bool) -> bool {
        if strict {
            position < bound
        } else {
            position <= bound
        }
    }

    /// Whether `position` lies behind `bound`, or not before it where
    /// `strict` is not set.
    pub open spec fn lies_behind(position: int, bound: int, strict: bool) -> bool {
        if strict {
            bound < position
        } else {
            bound <= position
        }
    }

    /// A node of the hierarchy that lies before the successor of node `k` of
    /// this list lies at or before node `k`, or in the list that subdivides
    /// the gap behind it.
    proof fn lemma_nothing_between(&self, k: int, other: int)
        requires
            self.wf(),
            self@.has_node(k),
            self@.contains(other),
            k < self.sublists.len() ==> other < self@.position(k + 1),
        ensures
            other <= self@.position(k) || (k < self.sublists.len() && self.sublists[k] is Some
                && other > self@.position(k) && self.sublists[k]->0@.contains(
                other - self@.position(k),
            )),
    {
        self.lemma_view_wf();
        if other > self@.position(k) {
            self@.lemma_locate(other, k);
        }
    }

    /// The successor of the last node before (or at or before) a target lies
    /// at or behind (or behind) the target.
    proof fn lemma_successor_of_last(&self, k: int, target: int, strict: bool)
        requires
            self.wf(),
            strict ==> self@.is_last_before(k, target),
            !strict ==> self@.is_last_at_or_before(k, target),
        ensures
            k < self.sublists.len() ==> !Self::lies_before(self@.position(k + 1), target, strict),
    {
        if k < self.sublists.len() {
            assert(self@.has_node(k + 1));
            if Self::lies_before(self@.position(k + 1), target, strict) {
                assert(k + 1 <= k);
            }
        }
    }

    /// Where node `k` has no sublist behind it, or one with the anchor alone,
    /// the list behind it contains its anchor and nothing else.
    proof fn lemma_no_sublist(&self, k: int)
        requires
            self.wf(),
            self@.has_node(k),
            !(k < self.sublists.len() && self.sublists[k] is Some && self.sublists[k]->0.size
                != 1),
        ensures
            k < self.sublists.len() && self.sublists[k] is Some ==> forall|local: int| #[trigger]
                self.sublists[k]->0@.contains(local) ==> local == 0,
    {
        if k < self.sublists.len() && self.sublists[k] is Some {
            self.lemma_sublist(k);
            let sublist = self.sublists[k]->0;
            assert forall|local: int| #[trigger] sublist@.contains(local) implies local == 0 by {
                sublist@.lemma_single_node_contains(local);
            }
        }
    }

    /// Where the target lies before the successor of node `k`, and `below`
    /// bounds the nodes before the target in the list behind node `k`, then
    /// node `k` moved by `below` bounds the nodes before the target in the
    /// hierarchy.
    proof fn lemma_greatest(&self, k: int, target: int, below: int, strict: bool)
        requires
            self.wf(),
            self@.has_node(k),
            below >= 0,
            k < self.sublists.len() ==> !Self::lies_before(self@.position(k + 1), target, strict),
            k < self.sublists.len() && self.sublists[k] is Some ==> forall|local: int|
             #[trigger]
                self.sublists[k]->0@.contains(local) && Self::lies_before(
                    local,
                    target - self@.position(k),
                    strict,
                ) ==> local <= below,
        ensures
            forall|other: int|
                self@.contains(other) && Self::lies_before(other, target, strict) ==> other
                    <= self@.position(k) + below,
    {
        assert forall|other: int|
            self@.contains(other) && Self::lies_before(other, target, strict) implies other
            <= self@.position(k) + below by {
            self.lemma_nothing_between(k, other);
        }
    }

    /// Where the target lies from node `k` on and before its successor, and
    /// `below` is the first node behind the target in the list behind node
    /// `k`, then node `k` moved by `below` is the first node behind the
    /// target in the hierarchy.
    proof fn lemma_least_below(&self, k: int, target: int, below: int, strict: bool)
        requires
            self.wf(),
            0 <= k < self.sublists.len(),
            self.sublists[k] is Some,
            self@.position(k) <= target < self@.position(k + 1),
            self.sublists[k]->0@.contains(below),
            forall|local: int| #[trigger]
                self.sublists[k]->0@.contains(local) && Self::lies_behind(
                    local,
                    target - self@.position(k),
                    strict,
                ) ==> below <= local,
        ensures
            forall|other: int|
                self@.contains(other) && Self::lies_behind(other, target, strict) ==> self@.position(
                    k,
                ) + below <= other,
    {
        self.lemma_sublist(k);
        let sublist = self.sublists[k]->0@;
        sublist.lemma_contained_range(below);
        assert(sublist.has_node(0) && sublist.position(0) == 0);
        assert(sublist.contains(0));
        assert forall|other: int|
            self@.contains(other) && Self::lies_behind(
                other,
                target,
                strict,
            ) implies self@.position(k) + below <= other by {
            if other < self@.position(k + 1) {
                self.lemma_nothing_between(k, other);
            }
        }
    }

    /// Where the target lies from node `k` on and before its successor, and
    /// neither node `k` nor any node of the list behind it lies behind the
    /// target, the successor of node `k` is the first node behind the target.
    proof fn lemma_least_is_successor(&self, k: int, target: int, strict: bool)
        requires
            self.wf(),
            0 <= k < self.sublists.len(),
            self@.position(k) <= target < self@.position(k + 1),
            !Self::lies_behind(self@.position(k), target, strict),
            self.sublists[k] is Some ==> forall|local: int| #[trigger]
                self.sublists[k]->0@.contains(local) ==> !Self::lies_behind(
                    local,
                    target - self@.position(k),
                    strict,
                ),
        ensures
            forall|other: int|
                self@.contains(other) && Self::lies_behind(other, target, strict) ==> self@.position(
                    k + 1,
                ) <= other,
    {
        assert forall|other: int|
            self@.contains(other) && Self::lies_behind(
                other,
                target,
                strict,
            ) implies self@.position(k + 1) <= other by {
            if other < self@.position(k + 1) {
                self.lemma_nothing_between(k, other);
            }
        }
    }

    /// The path of one step to `node`, and the path that goes on from there
    /// into the list behind `node` where `below` leads to a node other than
    /// the anchor of that list.
    fn extend_path<'a>(
        &'a self,
        node: TraversalResult<'a, S>,
        below: Option<Vec<TraversalResult<'a, S>>>,
    ) -> (path: Vec<TraversalResult<'a, S>>)
        requires
            self.wf(),
            node.names(self, node.index as int),
            below matches Some(steps) ==> node.index < self.sublists.len()
                && self.sublists[node.index as int] is Some && is_path(
                &self.sublists[node.index as int]->0,
                steps@,
            ),
        ensures
            is_path(self, path@),
            self@.contains(path_position(path@)),
            below is None ==> path_position(path@) == node.position.value(),
            below matches Some(steps) ==> path_position(path@) == node.position.value()
                + path_position(steps@),
    {
        let ghost first = node;
        let mut path: Vec<TraversalResult<'a, S>> = Vec::new();
        path.push(node);
        proof {
            lemma_single_step(self, path@);
            lemma_path_contained(self, path@);
        }
        if let Some(mut steps) = below {
            if steps.len() > 1 || steps[0].index > 0 {
                proof {
                    lemma_longer_path(self, first, steps@);
                    lemma_path_contained(self, seq![first] + steps@);
                }
                path.append(&mut steps);
            } else {
                proof {
                    lemma_single_step(&self.sublists[first.index as int]->0, steps@);
                }
            }
        }
        path
    }

    /// The path to the last node before `target_position` in this list and
    /// the lists below it; none for a target that is not positive.
    pub fn node_before<'a>(&'a self, target_position: S) -> (path: Option<
        Vec<TraversalResult<'a, S>>,
    >)
        requires
            self.wf(),
        ensures
            (path is None) == (target_position.value() <= 0),
            path matches Some(steps) ==> is_path(self, steps@),
            path matches Some(steps) ==> self@.contains(path_position(steps@)),
            path matches Some(steps) ==> path_position(steps@) < target_position.value(),
            path matches Some(steps) ==> forall|other: int|
                self@.contains(other) && other < target_position.value() ==> other
                    <= path_position(steps@),
        decreases self,
    {
        let node = match self.node_before_shallow(target_position) {
            Some(node) => node,
            None => {
                return None;
            },
        };
        let ghost k = node.index as int;
        let ghost target = target_position.value();
        proof {
            self.lemma_view_wf();
            self.lemma_successor_of_last(k, target, true);
            lemma_position_nonnegative(self.gaps(), k);
            S::lemma_zero_fits();
            target_position.lemma_value_fits();
            S::lemma_fits_between(0, target - node.position.value(), target);
        }
        let below = match self.get_not_empty_sublist_at_index(node.index) {
            Some(sublist) => {
                proof {
                    self.lemma_sublist(k);
                }
                let below = sublist.node_before(target_position.minus(node.position));
                proof {
                    lemma_path_contained(sublist, below->0@);
                    self.lemma_greatest(k, target, path_position(below->0@), true);
                }
                below
            },
            None => {
                proof {
                    self.lemma_no_sublist(k);
                    self.lemma_greatest(k, target, 0, true);
                }
                None
            },
        };
        Some(self.extend_path(node, below))
    }

    /// The path to the last node at or before `target_position` in this list
    /// and the lists below it; none for a negative target.
    pub fn node_at_or_before<'a>(&'a self, target_position: S) -> (path: Option<
        Vec<TraversalResult<'a, S>>,
    >)
        requires
            self.wf(),
        ensures
            (path is None) == (target_position.value() < 0),
            path matches Some(steps) ==> is_path(self, steps@),
            path matches Some(steps) ==> self@.contains(path_position(steps@)),
            path matches Some(steps) ==> path_position(steps@) <= target_position.value(),
            path matches Some(steps) ==> forall|other: int|
                self@.contains(other) && other <= target_position.value() ==> other
                    <= path_position(steps@),
        decreases self,
    {
        let node = match self.node_at_or_before_shallow(target_position) {
            Some(node) => node,
            None => {
                return None;
            },
        };
        let ghost k = node.index as int;
        let ghost target = target_position.value();
        proof {
            self.lemma_view_wf();
            self.lemma_successor_of_last(k, target, false);
            lemma_position_nonnegative(self.gaps(), k);
            S::lemma_zero_fits();
            target_position.lemma_value_fits();
            S::lemma_fits_between(0, target - node.position.value(), target);
        }
        let below = match self.get_not_empty_sublist_at_index(node.index) {
            Some(sublist) => {
                proof {
                    self.lemma_sublist(k);
                }
                let below = sublist.node_at_or_before(target_position.minus(node.position));
                proof {
                    lemma_path_contained(sublist, below->0@);
                    self.lemma_greatest(k, target, path_position(below->0@), false);
                }
                below
            },
            None => {
                proof {
                    self.lemma_no_sublist(k);
                    self.lemma_greatest(k, target, 0, false);
                }
                None
            },
        };
        Some(self.extend_path(node, below))
    }

    /// The path to the node at `target_position` in this list and the lists
    /// below it; none if no node lies there.
    pub fn node_at<'a>(&'a self, target_position: S) -> (path: Option<Vec<TraversalResult<'a, S>>>)
        requires
            self.wf(),
        ensures
            (path is Some) == self@.contains(target_position.value()),
            path matches Some(steps) ==> is_path(self, steps@) && path_position(steps@)
                == target_position.value(),
        decreases self,
    {
        let ghost target = target_position.value();
        proof {
            self.lemma_view_wf();
            if self@.contains(target) {
                self@.lemma_contained_range(target);
            }
        }
        let node = match self.node_at_or_before_shallow(target_position) {
            Some(node) => node,
            None => {
                return None;
            },
        };
        let ghost k = node.index as int;
        proof {
            self.lemma_successor_of_last(k, target, false);
            lemma_position_nonnegative(self.gaps(), k);
            S::lemma_zero_fits();
            target_position.lemma_value_fits();
            S::lemma_fits_between(0, target - node.position.value(), target);
            if self@.contains(target) {
                self.lemma_nothing_between(k, target);
            }
        }
        if node.position.same(&target_position) {
            return Some(self.extend_path(node, None));
        }
        match self.get_not_empty_sublist_at_index(node.index) {
            Some(sublist) => {
                proof {
                    self.lemma_sublist(k);
                }
                let below = sublist.node_at(target_position.minus(node.position));
                if below.is_some() {
                    proof {
                        lemma_path_contained(sublist, below->0@);
                        self@.lemma_contains_from_sublist(k, target - self@.position(k));
                    }
                    Some(self.extend_path(node, below))
                } else {
                    None
                }
            },
            None => {
                proof {
                    self.lemma_no_sublist(k);
                }
                None
            },
        }
    }

    /// The path to the first node at or after `target_position` in this list
    /// and the lists below it; none for a target behind the last node.
    pub fn node_at_or_after<'a>(&'a self, target_position: S) -> (path: Option<
        Vec<TraversalResult<'a, S>>,
    >)
        requires
            self.wf(),
        ensures
            (path is None) == (target_position.value() > self.length.value()),
            path matches Some(steps) ==> is_path(self, steps@),
            path matches Some(steps) ==> self@.contains(path_position(steps@)),
            path matches Some(steps) ==> target_position.value() <= path_position(steps@),
            path matches Some(steps) ==> forall|other: int|
                self@.contains(other) && target_position.value() <= other ==> path_position(
                    steps@,
                ) <= other,
        decreases self,
    {
        let ghost target = target_position.value();
        proof {
            self.lemma_view_wf();
        }
        if self.length.less(&target_position) {
            return None;
        }
        let zero = S::zero();
        if !zero.less(&target_position) {
            proof {
                assert(self@.has_node(0));
                assert forall|other: int| self@.contains(other) implies 0 <= other by {
                    self@.lemma_contained_range(other);
                }
            }
            let anchor = TraversalResult { list: self, position: zero, index: 0 };
            return Some(self.extend_path(anchor, None));
        }
        let node = self.node_before_or_at_shallow(target_position);
        let ghost k = node.index as int;
        if node.position.same(&target_position) {
            return Some(self.extend_path(node, None));
        }
        proof {
            self.lemma_successor_of_last(k, target, false);
            assert(self@.position(self.size - 1) == self.length.value());
            lemma_position_nonnegative(self.gaps(), k);
            S::lemma_zero_fits();
            target_position.lemma_value_fits();
            S::lemma_fits_between(0, target - node.position.value(), target);
        }
        match self.get_not_empty_sublist_at_index(node.index) {
            Some(sublist) => {
                proof {
                    self.lemma_sublist(k);
                }
                let below = sublist.node_at_or_after(target_position.minus(node.position));
                if below.is_some() {
                    proof {
                        self.lemma_least_below(k, target, path_position(below->0@), false);
                    }
                    return Some(self.extend_path(node, below));
                }
                proof {
                    assert forall|local: int| #[trigger] sublist@.contains(local) implies local
                        < target - self@.position(k) by {
                        sublist@.lemma_contained_range(local);
                    }
                }
            },
            None => {
                proof {
                    self.lemma_no_sublist(k);
                }
            },
        }
        proof {
            self.lemma_least_is_successor(k, target, false);
        }
        let next = self.step(node, target_position);
        Some(self.extend_path(next, None))
    }

    /// The path to the first node after `target_position` in this list and
    /// the lists below it; none for a target at or behind the last node.
    pub fn node_after<'a>(&'a self, target_position: S) -> (path: Option<
        Vec<TraversalResult<'a, S>>,
    >)
        requires
            self.wf(),
        ensures
            (path is None) == (target_position.value() >= self.length.value()),
            path matches Some(steps) ==> is_path(self, steps@),
            path matches Some(steps) ==> self@.contains(path_position(steps@)),
            path matches Some(steps) ==> target_position.value() < path_position(steps@),
            path matches Some(steps) ==> forall|other: int|
                self@.contains(other) && target_position.value() < other ==> path_position(
                    steps@,
                ) <= other,
        decreases self,
    {
        let ghost target = target_position.value();
        proof {
            self.lemma_view_wf();
        }
        if !target_position.less(&self.length) {
            return None;
        }
        let zero = S::zero();
        if target_position.less(&zero) {
            proof {
                assert(self@.has_node(0));
                assert forall|other: int| self@.contains(other) implies 0 <= other by {
                    self@.lemma_contained_range(other);
                }
            }
            let anchor = TraversalResult { list: self, position: zero, index: 0 };
            return Some(self.extend_path(anchor, None));
        }
        let node = self.node_before_or_at_shallow(target_position);
        let ghost k = node.index as int;
        proof {
            self.lemma_successor_of_last(k, target, false);
            assert(self@.position(self.size - 1) == self.length.value());
            lemma_position_nonnegative(self.gaps(), k);
            S::lemma_zero_fits();
            target_position.lemma_value_fits();
            S::lemma_fits_between(0, target - node.position.value(), target);
        }
        match self.get_not_empty_sublist_at_index(node.index) {
            Some(sublist) => {
                proof {
                    self.lemma_sublist(k);
                }
                let below = sublist.node_after(target_position.minus(node.position));
                if below.is_some() {
                    proof {
                        self.lemma_least_below(k, target, path_position(below->0@), true);
                    }
                    return Some(self.extend_path(node, below));
                }
                proof {
                    assert forall|local: int| #[trigger] sublist@.contains(local) implies local
                        <= target - self@.position(k) by {
                        sublist@.lemma_contained_range(local);
                    }
                }
            },
            None => {
                proof {
                    self.lemma_no_sublist(k);
                }
            },
        }
        proof {
            self.lemma_least_is_successor(k, target, true);
        }
        let next = self.step(node, target_position);
        Some(self.extend_path(next, None))
    }
}

} // verus!
