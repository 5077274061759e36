//! The spaced list itself: its nodes, the packed array of its link lengths
//! and the lists that subdivide its gaps.

use vstd::prelude::*;
use vstd::arithmetic::div_mod::*;
use vstd::arithmetic::power2::*;
use vstd::std_specs::bits::*;
use crate::links::{
    degree_count, lemma_aligned_span_fits, lemma_capacity_monotonic, lemma_capacity_shape,
    lemma_link_slot_degree_zero, lemma_link_slot_injective, lemma_link_slot_of_start,
    lemma_link_slot_range, lemma_pow2_fits, lemma_trailing_zeros_divides,
    lemma_trailing_zeros_from_digits, lemma_trailing_zeros_of_odd_multiple,
    lemma_without_bit_of_start, link_index, link_slot, link_start, necessary_capacity,
    necessary_link_length_capacity_for_size, trailing_zeros, LinkIndicesAbove,
};
use crate::model::ListView;
use crate::packing::{
    all_positive, covers, increment, lemma_covers, lemma_degree_zero_links, lemma_extend,
    lemma_grow,
    lemma_link_bounds, lemma_position_after_push, lemma_position_increases,
    lemma_position_nonnegative, links_match, position_in,
};
use crate::spacing::Spacing;

verus! {

/// A list that stores the distances between its nodes, but no values.
///
/// There is no list without nodes: a new list holds the node at position
/// zero, so its size is 1.
#[derive(PartialEq, Eq, Debug)]
pub struct SpacedList<S: Spacing> {
    /// The number of nodes, the anchor at position zero included.
    pub size: usize,
    /// The position of the last node.
    pub length: S,
    /// The lengths of the links of all degrees, packed into one array.
    pub link_lengths: Vec<S>,
    /// For each gap, the list that subdivides it, if any.
    pub sublists: Vec<Option<SpacedList<S>>>,
}

impl<S: Spacing> Default for SpacedList<S> {
    /// The list with the anchor node alone.
    fn default() -> (list: Self)
        ensures
            list.wf(),
            list@ == ListView::empty(),
            list.size == 1,
            list.length.value() == 0,
            list.link_lengths@.len() == 0,
            list.sublists@.len() == 0,
    {
        let list = Self { size: 1, length: S::zero(), link_lengths: vec![], sublists: vec![] };
        proof {
            lemma2_to64();
            assert(list@.gaps =~= Seq::<int>::empty());
            assert(list@.sublists =~= Seq::<Option<ListView>>::empty());
        }
        list
    }
}

impl<S: Spacing> SpacedList<S> {
    /// The integers that the slots of the link array stand for.
    pub open spec fn link_values(&self) -> Seq<int> {
        Seq::new(self.link_lengths.len() as nat, |slot: int| self.link_lengths[slot].value())
    }

    /// The lengths of the gaps between consecutive nodes: the degree-0 links
    /// of the nodes that have a successor.
    pub open spec fn gaps(&self) -> Seq<int> {
        Seq::new((self.size - 1) as nat, |k: int| self.link_lengths[2 * k].value())
    }

    /// The length of the link of degree `degree` that covers the gap after
    /// node `node_index`.
    pub open spec fn link(&self, node_index: nat, degree: nat) -> int {
        self.link_lengths[link_slot(node_index, degree) as int].value()
    }

    /// What the list holds: its gaps and, for each gap, what the list in it
    /// holds.
    pub open spec fn view(&self) -> ListView
        decreases self,
    {
        ListView {
            gaps: self.gaps(),
            sublists: Seq::new(
                self.sublists.len() as nat,
                |k: int|
                    if 0 <= k < self.sublists.len() {
                        match self.sublists[k] {
                            Some(sublist) => Some(sublist.view()),
                            None => None,
                        }
                    } else {
                        None
                    },
            ),
        }
    }

    /// The list on its own is in order: it has as many link slots as its size
    /// needs, every link holds the sum of the gaps it spans, every gap is
    /// longer than zero, the length is the sum of all gaps, and there is one
    /// place for a sublist per gap.
    pub open spec fn links_wf(&self) -> bool {
        &&& self.size >= 1
        &&& self.sublists.len() == self.size - 1
        &&& self.link_lengths.len() == necessary_capacity(self.size as nat)
        &&& self.link_lengths.len() < usize::MAX
        &&& all_positive(self.gaps())
        &&& links_match(self.link_values(), self.gaps(), degree_count(self.size as nat))
        &&& self.length.value() == position_in(self.gaps(), self.size - 1)
    }

    /// The list and every list below it is in order, and each list that
    /// subdivides a gap ends before the gap does.
    pub open spec fn wf(&self) -> bool
        decreases self,
    {
        &&& self.links_wf()
        &&& forall|k: int|
            0 <= k < self.sublists.len() ==> match #[trigger] self.sublists[k] {
                Some(sublist) => sublist.wf() && sublist.length.value() < self.gaps()[k],
                None => true,
            }
    }

    /// The view of a list that is in order is in order.
    pub proof fn lemma_view_wf(&self)
        requires
            self.wf(),
        ensures
            self@.wf(),
            self@.length() == self.length.value(),
            self@.gaps.len() == self.size - 1,
        decreases self,
    {
        let view = self@;
        assert forall|k: int| 0 <= k < view.sublists.len() implies match #[trigger] view.sublists[k] {
            Some(sublist) => sublist.wf() && sublist.length() < view.gaps[k],
            None => true,
        } by {
            match self.sublists[k] {
                Some(sublist) => {
                    sublist.lemma_view_wf();
                },
                None => {},
            }
        }
    }

    /// The degree-0 link after a node that has a successor is the gap between
    /// the two, and both lie within the list.
    pub proof fn lemma_gap(&self, k: int)
        requires
            self.links_wf(),
            0 <= k < self.size - 1,
        ensures
            link_slot(k as nat, 0) == 2 * k,
            2 * k < self.link_lengths.len(),
            self.link(k as nat, 0) == self.gaps()[k],
            self.gaps()[k] > 0,
            position_in(self.gaps(), k + 1) == position_in(self.gaps(), k) + self.gaps()[k],
            0 <= position_in(self.gaps(), k),
            position_in(self.gaps(), k + 1) <= self.length.value(),
    {
        let degrees = degree_count(self.size as nat);
        lemma_capacity_shape(self.size as nat);
        lemma_pow2_unfold(degrees);
        lemma_link_slot_degree_zero(k as nat);
        lemma_link_slot_range(k as nat, 0, degrees);
        lemma_position_nonnegative(self.gaps(), k);
        lemma_position_increases(self.gaps(), k + 1, self.size - 1);
    }

    /// A link of a degree in use that starts at a node with a successor, at a
    /// multiple of its span, has a slot in the array, and the slot holds the
    /// distance from that node to the node at the far end of the link, or to
    /// the last node where the link reaches past it.
    pub proof fn lemma_link(&self, node_index: nat, degree: nat)
        requires
            self.links_wf(),
            degree < degree_count(self.size as nat),
            node_index < self.size - 1,
            node_index % pow2(degree) == 0,
        ensures
            link_slot(node_index, degree) < self.link_lengths.len(),
            self.link(node_index, degree) == position_in(
                self.gaps(),
                (node_index + pow2(degree)) as int,
            ) - position_in(self.gaps(), node_index as int),
            0 < self.link(node_index, degree) <= self.length.value(),
            node_index + pow2(degree) <= self.link_lengths.len() + 1,
            (node_index + pow2(degree)) % pow2(degree) == 0,
    {
        let degrees = degree_count(self.size as nat);
        let gaps = self.gaps();
        lemma_capacity_shape(self.size as nat);
        lemma_pow2_unfold(degrees);
        lemma_pow2_pos(degree);
        lemma_link_slot_range(node_index, degree, degrees);
        assert(self.link_values()[link_slot(node_index, degree) as int] == position_in(
            gaps,
            (node_index + pow2(degree)) as int,
        ) - position_in(gaps, node_index as int));
        lemma_position_increases(gaps, node_index as int, node_index as int + 1);
        lemma_position_increases(gaps, node_index as int + 1, (node_index + pow2(degree)) as int);
        lemma_position_nonnegative(gaps, node_index as int);
        if node_index + pow2(degree) <= self.size - 1 {
            lemma_position_increases(gaps, (node_index + pow2(degree)) as int, self.size - 1);
        } else {
            lemma_position_increases(gaps, self.size - 1, (node_index + pow2(degree)) as int);
        }
        lemma_aligned_span_fits(node_index, degree, (degrees - 1) as nat);
        lemma_mod_add_multiples_vanish(
            node_index as int,
            pow2(degree) as int,
        );
    }

    /// The list with the anchor node alone.
    pub fn new() -> (list: Self)
        ensures
            list.wf(),
            list@ == ListView::empty(),
            list.size == 1,
            list.length.value() == 0,
            list.link_lengths@.len() == 0,
            list.sublists@.len() == 0,
    {
        Self::default()
    }

    /// Whether the list holds no node but the anchor.
    pub fn is_empty(&self) -> (empty: bool)
        ensures
            empty == (self.size == 1),
    {
        self.size == 1
    }

    /// The number of link degrees in use: how often 2 divides the number of
    /// link slots plus one.
    pub fn depth(&self) -> (depth: usize)
        requires
            self.link_lengths.len() < usize::MAX,
        ensures
            depth == trailing_zeros((self.link_lengths.len() + 1) as nat),
            depth < usize::BITS,
            forall|degrees: nat|
                self.link_lengths.len() + 1 == pow2(degrees) ==> depth == degrees,
    {
        let slots = (self.link_lengths.len() + 1) as u64;
        let depth = slots.trailing_zeros();
        proof {
            axiom_u64_trailing_zeros(slots);
            lemma_trailing_zeros_from_digits(slots, depth as u64);
            lemma_trailing_zeros_divides(slots as nat);
            lemma_pow2_fits(depth as nat);
            assert forall|degrees: nat| self.link_lengths.len() + 1 == pow2(degrees) implies depth
                == degrees by {
                lemma_trailing_zeros_of_odd_multiple(0, degrees);
                assert((2 * 0 + 1) * pow2(degrees) == pow2(degrees)) by (nonlinear_arith);
            }
        }
        depth as usize
    }

    /// The length of the link of degree `degree` that covers the gap after
    /// node `node_index`.
    pub fn link_length(&self, node_index: usize, degree: usize) -> (length: S)
        requires
            degree < usize::BITS,
            link_slot(node_index as nat, degree as nat) < self.link_lengths.len(),
        ensures
            length == self.link_lengths[link_slot(node_index as nat, degree as nat) as int],
            length.value() == self.link(node_index as nat, degree as nat),
    {
        self.link_lengths[link_index(node_index, degree)]
    }

    /// Makes room in the link array for the current size.
    ///
    /// Where the array is shorter than the size needs, it is doubled: the
    /// length of the list goes into the new middle slot, and zeros fill the
    /// slots behind it. Else nothing changes.
    pub fn make_space(&mut self)
        requires
            necessary_capacity(old(self).size as nat) < usize::MAX,
            old(self).grows() ==> 2 * old(self).link_lengths.len() + 1 <= usize::MAX,
        ensures
            final(self).size == old(self).size,
            final(self).length == old(self).length,
            final(self).sublists == old(self).sublists,
            old(self).grows() ==> final(self).link_lengths.len() == 2 * old(
                self,
            ).link_lengths.len() + 1,
            old(self).grows() ==> forall|slot: int|
                0 <= slot < old(self).link_lengths.len() ==> final(self).link_lengths[slot] == old(
                    self,
                ).link_lengths[slot],
            old(self).grows() ==> final(self).link_lengths[old(self).link_lengths.len() as int]
                == old(self).length,
            old(self).grows() ==> forall|slot: int|
                old(self).link_lengths.len() < slot < final(self).link_lengths.len()
                    ==> #[trigger] final(self).link_lengths[slot].value() == 0,
            !old(self).grows() ==> final(self).link_lengths == old(self).link_lengths,
    {
        if self.size < 2 {
            return ;
        }
        let necessary_capacity = necessary_link_length_capacity_for_size(self.size);
        if self.link_lengths.len() < necessary_capacity {
            let filled = self.link_lengths.len();
            self.link_lengths.push(self.length);
            let mut added: usize = 0;
            while added < filled
                invariant
                    added <= filled,
                    filled == old(self).link_lengths.len(),
                    self.size == old(self).size,
                    self.length == old(self).length,
                    self.sublists == old(self).sublists,
                    self.link_lengths.len() == filled + 1 + added,
                    forall|slot: int|
                        0 <= slot < filled ==> self.link_lengths[slot] == old(
                            self,
                        ).link_lengths[slot],
                    self.link_lengths[filled as int] == old(self).length,
                    forall|slot: int|
                        filled < slot < self.link_lengths.len()
                            ==> #[trigger] self.link_lengths[slot].value() == 0,
                decreases filled - added,
            {
                self.link_lengths.push(S::zero());
                added += 1;
            }
        }
    }

    /// Whether the link array is too short for the size.
    pub open spec fn grows(&self) -> bool {
        self.size >= 2 && self.link_lengths.len() < necessary_capacity(self.size as nat)
    }

    /// Whether the list is as `new` makes it: the anchor alone, no links and
    /// no places for sublists.
    pub open spec fn is_fresh(&self) -> bool {
        &&& self.size == 1
        &&& self.length.value() == 0
        &&& self.link_lengths.len() == 0
        &&& self.sublists.len() == 0
    }

    /// A list as `new` makes it is in order and holds the anchor alone.
    pub proof fn lemma_fresh(&self)
        requires
            self.is_fresh(),
        ensures
            self.wf(),
            self@ == ListView::empty(),
    {
        lemma2_to64();
        assert(self@.gaps =~= Seq::<int>::empty());
        assert(self@.sublists =~= Seq::<Option<ListView>>::empty());
    }

    /// The list that subdivides the gap after node `index`, made anew if the
    /// gap has none yet.
    pub fn get_sublist_at_index(&mut self, index: usize) -> (sublist: &mut SpacedList<S>)
        requires
            index < old(self).sublists.len(),
        ensures
            old(self).sublists[index as int] matches Some(present) ==> *sublist == present,
            old(self).sublists[index as int] is None ==> sublist.is_fresh(),
            final(self).size == old(self).size,
            final(self).length == old(self).length,
            final(self).link_lengths == old(self).link_lengths,
            final(self).sublists@ == old(self).sublists@.update(
                index as int,
                Some(*final(sublist)),
            ),
    {
        if self.sublists[index].is_none() {
            self.sublists[index] = Some(SpacedList::new());
        }
        match &mut self.sublists[index] {
            Some(sublist) => sublist,
            None => unreached(),
        }
    }

    /// The list that subdivides the gap after node `index`, if the gap has
    /// one and it holds more than its anchor.
    pub fn get_not_empty_sublist_at_index(&self, index: usize) -> (sublist: Option<
        &SpacedList<S>,
    >)
        ensures
            sublist is Some == (index < self.sublists.len() && self.sublists[index as int] is Some
                && self.sublists[index as int]->0.size != 1),
            sublist matches Some(present) ==> self.sublists[index as int] == Some(*present),
    {
        if index >= self.sublists.len() {
            return None;
        }
        match &self.sublists[index] {
            Some(sublist) => if sublist.is_empty() {
                None
            } else {
                Some(sublist)
            },
            None => None,
        }
    }

    /// Adds a node `distance` behind the last node.
    ///
    /// The link array grows if the new size needs it to; then the distance
    /// is added to the length and to every link that spans the new gap, and
    /// the new gap gets an empty place for a sublist.
    pub fn append_node(&mut self, distance: S)
        requires
            old(self).links_wf(),
            distance.value() > 0,
            S::fits(old(self).length.value() + distance.value()),
            necessary_capacity((old(self).size + 1) as nat) < usize::MAX,
        ensures
            final(self).links_wf(),
            old(self).wf() ==> final(self).wf(),
            final(self)@ == old(self)@.append(distance.value()),
            final(self).size == old(self).size + 1,
            final(self).length.value() == old(self).length.value() + distance.value(),
            final(self).link_lengths.len() == necessary_capacity(final(self).size as nat),
            final(self).sublists@ == old(self).sublists@.push(None),
    {
        let ghost before = *self;
        let ghost old_gaps = self.gaps();
        let ghost gap = (self.size - 1) as nat;
        let ghost total = self.length.value();
        proof {
            lemma_capacity_monotonic(self.size as nat);
            lemma_capacity_shape(self.size as nat);
            lemma_capacity_shape((self.size + 1) as nat);
            lemma_pow2_pos((degree_count((self.size + 1) as nat) - 1) as nat);
            lemma_pow2_unfold(degree_count((self.size + 1) as nat));
            distance.lemma_value_fits();
        }
        self.size += 1;
        self.make_space();
        let ghost degrees = degree_count(self.size as nat);
        let ghost roomy = self.link_values();
        proof {
            let old_links = before.link_values();
            let old_degrees = degree_count(before.size as nat);
            if self.link_lengths.len() == before.link_lengths.len() {
                assert(roomy =~= old_links);
                if old_degrees < degrees {
                    lemma_pow2_strictly_increases(old_degrees, degrees);
                }
            } else {
                assert(degrees == old_degrees + 1) by {
                    lemma_pow2_unfold(old_degrees + 1);
                    if degrees < old_degrees + 1 {
                        lemma_pow2_strictly_increases(degrees, old_degrees + 1);
                    }
                    if degrees > old_degrees + 1 {
                        lemma_pow2_strictly_increases(old_degrees + 1, degrees);
                    }
                }
                lemma_grow(old_links, old_gaps, old_degrees, roomy);
            }
            assert(links_match(roomy, old_gaps, degrees));
            lemma_pow2_fits(degrees);
        }
        self.length = self.length.plus(distance);
        let depth = self.depth();
        let mut covering = LinkIndicesAbove::new(self.size - 1 - 1);
        let mut taken: usize = 0;
        proof {
            lemma2_to64();
            assert(link_start(gap, 0) == gap);
        }
        while taken < depth
            invariant
                taken <= depth,
                depth == degrees,
                depth < usize::BITS,
                gap == old_gaps.len(),
                2 * (gap + 1) <= roomy.len() + 1,
                roomy.len() < usize::MAX,
                covering.degree == taken,
                covering.node_index == link_start(gap, taken as nat),
                all_positive(old_gaps),
                links_match(roomy, old_gaps, degrees),
                total == position_in(old_gaps, old_gaps.len() as int),
                distance.value() > 0,
                S::fits(distance.value()),
                S::fits(total + distance.value()),
                self.link_lengths.len() == roomy.len(),
                self.size == before.size + 1,
                self.sublists == before.sublists,
                self.length.value() == total + distance.value(),
                forall|slot: int|
                    0 <= slot < roomy.len() ==> #[trigger] self.link_lengths[slot].value()
                        == roomy[slot] + increment(
                        covers(slot as nat, gap, taken as nat),
                        distance.value(),
                    ),
            decreases depth - taken,
        {
            let ghost degree = taken as nat;
            let ghost slot_now = link_slot(gap, degree);
            proof {
                lemma_link_slot_of_start(gap, degree, degree);
                lemma_link_bounds(roomy, old_gaps, degrees, gap, degree);
                if covers(slot_now, gap, degree) {
                    lemma_covers(slot_now, gap, degree, 0);
                    let d = choose|d: nat| d < degree && slot_now == link_slot(gap, d);
                    lemma_link_slot_injective(gap, degree, gap, d);
                }
                S::lemma_fits_between(
                    distance.value(),
                    roomy[slot_now as int] + distance.value(),
                    total + distance.value(),
                );
                lemma_without_bit_of_start(gap, degree);
            }
            let slot = covering.next().unwrap();
            let lengthened = self.link_lengths[slot].plus(distance);
            self.link_lengths[slot] = lengthened;
            taken += 1;
            proof {
                assert forall|other: int| 0 <= other < roomy.len() implies #[trigger] self.link_lengths[other].value()
                    == roomy[other] + increment(
                    covers(other as nat, gap, taken as nat),
                    distance.value(),
                ) by {
                    assert(covers(other as nat, gap, taken as nat) == (other == slot_now || covers(
                        other as nat,
                        gap,
                        degree,
                    )));
                }
            }
        }
        self.sublists.push(None);
        proof {
            let extended = self.link_values();
            let longer = old_gaps.push(distance.value());
            lemma_extend(roomy, old_gaps, degrees, distance.value(), extended);
            assert(self.gaps() =~= longer) by {
                assert forall|k: int| 0 <= k < longer.len() implies self.gaps()[k] == longer[k] by {
                    lemma_degree_zero_links(extended, longer, degrees, k as nat);
                }
            }
            lemma_position_after_push(old_gaps, distance.value(), longer.len() as int);
            assert(self.links_wf());
            assert(self@.gaps == before@.append(distance.value()).gaps);
            assert(self@.sublists =~= before@.append(distance.value()).sublists);
            if before.wf() {
                assert forall|k: int| 0 <= k < self.sublists.len() implies match #[trigger] self.sublists[k] {
                    Some(sublist) => sublist.wf() && sublist.length.value() < self.gaps()[k],
                    None => true,
                } by {
                    if k < before.sublists.len() {
                        assert(self.sublists[k] == before.sublists[k]);
                        assert(self.gaps()[k] == before.gaps()[k]);
                    }
                }
            }
        }
    }
}

} // verus!
