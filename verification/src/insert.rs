//! Insertion of a node at a position, in the list itself or in the list that
//! subdivides the gap around the position.

use vstd::prelude::*;
use crate::links::necessary_capacity;
use crate::list::SpacedList;
use crate::model::ListView;
use crate::packing::{lemma_position_after_push, lemma_position_nonnegative};
use crate::shallow::TraversalResult;
use crate::spacing::Spacing;

verus! {

impl<S: Spacing> SpacedList<S> {
    /// Whether the list to which the insertion of `target` appends can take
    /// one more node: the link array that it then needs can be indexed.
    pub open spec fn insertion_fits(&self, target: int) -> bool {
        necessary_capacity(self@.landing_size(target) + 1) < usize::MAX
    }

    /// Adds a node at `position`, where there is none yet.
    ///
    /// A position behind the last node extends this list. Any other position
    /// goes to the list that subdivides the gap around it, in the frame of
    /// that list; the gap gets such a list if it has none.
    pub fn insert(&mut self, position: S)
        requires
            old(self).wf(),
            position.value() >= 0,
            !old(self)@.contains(position.value()),
            old(self).insertion_fits(position.value()),
        ensures
            final(self).wf(),
            final(self)@ == old(self)@.insert(position.value()),
        decreases old(self)@.insertion_depth(position.value()),
    {
        let ghost before = *self;
        let ghost target = position.value();
        proof {
            before.lemma_view_wf();
            position.lemma_value_fits();
            S::lemma_zero_fits();
            let last = before@.gaps.len() as int;
            assert(before@.has_node(last) && before@.position(last) == before@.length());
            assert(before@.has_node(0) && before@.position(0) == 0);
            lemma_position_nonnegative(before.gaps(), last);
        }
        if !position.less(&self.length) {
            proof {
                S::lemma_fits_between(0, target - self.length.value(), target);
            }
            self.append_node(position.minus(self.length))
        } else {
            let TraversalResult { list: _, position: node_position, index } =
                self.node_before_or_at_shallow(position);
            let ghost k = index as int;
            let ghost local = target - node_position.value();
            proof {
                before@.lemma_last_at_or_before_unique(k, target);
                before@.lemma_enclosing_gap(k, target);
                lemma_position_nonnegative(before.gaps(), k);
                S::lemma_fits_between(0, local, target);
                match before.sublists[k] {
                    Some(present) => {
                        present.lemma_view_wf();
                        if present@.contains(local) {
                            before@.lemma_contains_from_sublist(k, local);
                        }
                    },
                    None => {
                        ListView::lemma_empty_contains(local);
                    },
                }
            }
            let sublist = self.get_sublist_at_index(index);
            proof {
                if before.sublists[k] is None {
                    sublist.lemma_fresh();
                }
            }
            let ghost sublist_before = *sublist;
            let position_in_sublist = position.minus(node_position);
            sublist.insert(position_in_sublist);
            proof {
                let sublist_after = self.sublists[k]->0;
                sublist_after.lemma_view_wf();
                sublist_before.lemma_view_wf();
                lemma_position_after_push(
                    sublist_before@.gaps,
                    local - sublist_before@.length(),
                    sublist_before@.gaps.len() as int + 1,
                );
                assert(self.gaps() =~= before.gaps());
                assert forall|j: int| 0 <= j < self.sublists.len() implies match #[trigger] self.sublists[j] {
                    Some(sublist) => sublist.wf() && sublist.length.value() < self.gaps()[j],
                    None => true,
                } by {
                    if j != k {
                        assert(self.sublists[j] == before.sublists[j]);
                    }
                }
                assert(self@.sublists =~= before@.insert(target).sublists);
            }
        }
    }
}

} // verus!
