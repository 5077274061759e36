//! What the packed array of link lengths holds, stated over plain integers:
//! every link stores the sum of the gaps that it spans. Growing the array and
//! lengthening the last gap both keep it so.

use vstd::prelude::*;
use vstd::arithmetic::div_mod::*;
use vstd::arithmetic::power2::*;
use crate::links::{
    lemma_link_slot_aligned, lemma_link_slot_degree_zero, lemma_link_slot_injective,
    lemma_link_slot_of_start, lemma_link_slot_range, link_slot, link_start,
};

verus! {

/// The position of node `index` in a list whose consecutive gaps are `gaps`:
/// the sum of the gaps before it. Past the last node it stays at the position
/// of the last node.
pub open spec fn position_in(gaps: Seq<int>, index: int) -> int
    decreases index,
{
    if index <= 0 {
        0
    } else if index > gaps.len() {
        position_in(gaps, gaps.len() as int)
    } else {
        position_in(gaps, index - 1) + gaps[index - 1]
    }
}

/// Every gap is longer than zero.
pub open spec fn all_positive(gaps: Seq<int>) -> bool {
    forall|k: int| 0 <= k < gaps.len() ==> #[trigger] gaps[k] > 0
}

/// `links` packs the links of `degrees` degrees over `gaps`: it has one slot
/// for each link that starts at a multiple of its span, and the slot of a link
/// holds the distance between the nodes at its two ends.
pub open spec fn links_match(links: Seq<int>, gaps: Seq<int>, degrees: nat) -> bool {
    &&& links.len() + 1 == pow2(degrees)
    &&& 2 * gaps.len() <= links.len() + 1
    &&& forall|node: nat, degree: nat|
        degree < degrees && 2 * node < links.len() + 1 && node % pow2(degree) == 0
            ==> links[#[trigger] link_slot(node, degree) as int] == position_in(
            gaps,
            (node + pow2(degree)) as int,
        ) - position_in(gaps, node as int)
}

/// Whether `slot` is the slot of one of the links of a degree below `degrees`
/// that cover the gap after `node`.
pub open spec fn covers(slot: nat, node: nat, degrees: nat) -> bool
    decreases degrees,
{
    degrees > 0 && (slot == link_slot(node, (degrees - 1) as nat) || covers(
        slot,
        node,
        (degrees - 1) as nat,
    ))
}

/// `distance` where `applies` holds, and zero where it does not.
pub open spec fn increment(applies: bool, distance: int) -> int {
    if applies {
        distance
    } else {
        0
    }
}

/// No node lies before the first.
pub proof fn lemma_position_nonnegative(gaps: Seq<int>, index: int)
    requires
        all_positive(gaps),
    ensures
        position_in(gaps, index) >= 0,
    decreases index,
{
    if index <= 0 {
    } else if index > gaps.len() {
        lemma_position_nonnegative(gaps, gaps.len() as int);
    } else {
        lemma_position_nonnegative(gaps, index - 1);
    }
}

/// Positions grow with the index, strictly so between nodes.
pub proof fn lemma_position_increases(gaps: Seq<int>, from: int, to: int)
    requires
        all_positive(gaps),
        from <= to,
    ensures
        position_in(gaps, from) <= position_in(gaps, to),
        0 <= from < to <= gaps.len() ==> position_in(gaps, from) < position_in(gaps, to),
    decreases to,
{
    if to <= 0 {
    } else if from <= 0 {
        lemma_position_nonnegative(gaps, to);
        if to <= gaps.len() {
            lemma_position_nonnegative(gaps, to - 1);
        }
    } else if to > gaps.len() {
        if from <= gaps.len() {
            lemma_position_increases(gaps, from, gaps.len() as int);
        }
    } else if from < to {
        lemma_position_increases(gaps, from, to - 1);
    }
}

/// A new last gap leaves the positions of the old nodes as they were and puts
/// the new last node behind the old one by the length of that gap.
pub proof fn lemma_position_after_push(gaps: Seq<int>, distance: int, index: int)
    ensures
        index <= gaps.len() ==> position_in(gaps.push(distance), index) == position_in(
            gaps,
            index,
        ),
        index > gaps.len() ==> position_in(gaps.push(distance), index) == position_in(
            gaps,
            gaps.len() as int,
        ) + distance,
    decreases index,
{
    let longer = gaps.push(distance);
    if index <= 0 {
    } else if index <= gaps.len() {
        lemma_position_after_push(gaps, distance, index - 1);
        assert(longer[index - 1] == gaps[index - 1]);
    } else if index == gaps.len() + 1 {
        lemma_position_after_push(gaps, distance, index - 1);
        assert(longer[index - 1] == distance);
    } else {
        lemma_position_after_push(gaps, distance, longer.len() as int);
    }
}

/// The only link of a given degree that spans a given gap is the one that
/// starts where the node before the gap has its low digits cleared.
pub proof fn lemma_spanning_link(node: nat, gap: nat, degree: nat)
    requires
        node % pow2(degree) == 0,
        node <= gap < node + pow2(degree),
    ensures
        node == link_start(gap, degree),
{
    let p = pow2(degree) as int;
    lemma_pow2_pos(degree);
    lemma_fundamental_div_mod(node as int, p);
    lemma_fundamental_div_mod_converse(gap as int, p, node as int / p, gap - node);
}

/// A slot covers a gap exactly if it is the slot of a link below the given
/// number of degrees that spans the gap.
pub proof fn lemma_covers(slot: nat, node: nat, degrees: nat, degree: nat)
    ensures
        degree < degrees && slot == link_slot(node, degree) ==> covers(slot, node, degrees),
        covers(slot, node, degrees) ==> exists|d: nat| d < degrees && slot == link_slot(node, d),
    decreases degrees,
{
    if degrees > 0 {
        lemma_covers(slot, node, (degrees - 1) as nat, degree);
        if covers(slot, node, degrees) {
            if slot == link_slot(node, (degrees - 1) as nat) {
                let top = (degrees - 1) as nat;
                assert(top < degrees && slot == link_slot(node, top));
            } else {
                let below = (degrees - 1) as nat;
                let d = choose|d: nat| d < below && slot == link_slot(node, d);
                assert(d < degrees && slot == link_slot(node, d));
            }
        }
    }
}

/// Doubling the array keeps it a packing of the same gaps with one degree
/// more: the old slots stay, the new middle slot takes the length of the
/// list, and the slots behind it are zero.
pub proof fn lemma_grow(links: Seq<int>, gaps: Seq<int>, degrees: nat, grown: Seq<int>)
    requires
        links_match(links, gaps, degrees),
        all_positive(gaps),
        grown.len() == 2 * links.len() + 1,
        forall|slot: int| 0 <= slot < links.len() ==> grown[slot] == links[slot],
        grown[links.len() as int] == position_in(gaps, gaps.len() as int),
        forall|slot: int| links.len() < slot < grown.len() ==> grown[slot] == 0,
    ensures
        links_match(grown, gaps, degrees + 1),
{
    lemma_pow2_unfold(degrees + 1);
    lemma_pow2_pos(degrees);
    assert forall|node: nat, degree: nat|
        degree < degrees + 1 && 2 * node < grown.len() + 1 && node % pow2(degree)
            == 0 implies grown[#[trigger] link_slot(node, degree) as int] == position_in(
        gaps,
        (node + pow2(degree)) as int,
    ) - position_in(gaps, node as int) by {
        lemma_pow2_pos(degree);
        if degree == degrees {
            lemma_fundamental_div_mod(node as int, pow2(degree) as int);
            let q = node as int / (pow2(degree) as int);
            assert(node == 0) by (nonlinear_arith)
                requires
                    node == pow2(degree) * q,
                    0 <= node < pow2(degree),
            ;
            if degrees > 0 {
                lemma_link_slot_range(0, 0, degrees);
            } else {
                lemma_link_slot_degree_zero(0);
                lemma2_to64();
            }
            lemma_link_slot_aligned(0, degrees);
        } else {
            lemma_link_slot_range(node, degree, degrees);
            lemma_pow2_unfold(degrees);
            if node < pow2((degrees - 1) as nat) {
            } else {
                lemma_position_increases(gaps, gaps.len() as int, node as int);
                lemma_position_increases(gaps, gaps.len() as int, (node + pow2(degree)) as int);
            }
        }
    }
}

/// Lengthening the list by one gap keeps the array a packing once the length
/// of the new gap is added to every slot that covers it.
pub proof fn lemma_extend(
    links: Seq<int>,
    gaps: Seq<int>,
    degrees: nat,
    distance: int,
    extended: Seq<int>,
)
    requires
        links_match(links, gaps, degrees),
        2 * (gaps.len() + 1) <= links.len() + 1,
        extended.len() == links.len(),
        forall|slot: int|
            0 <= slot < links.len() ==> extended[slot] == links[slot] + increment(
                covers(slot as nat, gaps.len(), degrees),
                distance,
            ),
    ensures
        links_match(extended, gaps.push(distance), degrees),
{
    let gap = gaps.len();
    let longer = gaps.push(distance);
    lemma2_to64();
    lemma_pow2_unfold(degrees);
    assert forall|node: nat, degree: nat|
        degree < degrees && 2 * node < extended.len() + 1 && node % pow2(degree)
            == 0 implies extended[#[trigger] link_slot(node, degree) as int] == position_in(
        longer,
        (node + pow2(degree)) as int,
    ) - position_in(longer, node as int) by {
        let slot = link_slot(node, degree);
        lemma_pow2_pos(degree);
        lemma_link_slot_range(node, degree, degrees);
        lemma_position_after_push(gaps, distance, node as int);
        lemma_position_after_push(gaps, distance, (node + pow2(degree)) as int);
        lemma_covers(slot, gap, degrees, degree);
        lemma_link_slot_of_start(gap, degree, degree);
        if node <= gap < node + pow2(degree) {
            lemma_spanning_link(node, gap, degree);
            assert(covers(slot, gap, degrees));
        } else {
            if covers(slot, gap, degrees) {
                let d = choose|d: nat| d < degrees && slot == link_slot(gap, d);
                lemma_link_slot_injective(node, degree, gap, d);
                lemma_link_slot_of_start(node, degree, degree);
                lemma_fundamental_div_mod(node as int, pow2(degree) as int);
                assert(false);
            }
        }
    }
}

/// The slot in the middle of the array holds the length of the list.
pub proof fn lemma_top_link(links: Seq<int>, gaps: Seq<int>, degrees: nat)
    requires
        links_match(links, gaps, degrees),
        degrees >= 1,
    ensures
        link_slot(0, (degrees - 1) as nat) < links.len(),
        links[link_slot(0, (degrees - 1) as nat) as int] == position_in(gaps, gaps.len() as int),
{
    let top = (degrees - 1) as nat;
    lemma_pow2_unfold(degrees);
    lemma_pow2_pos(top);
    lemma_link_slot_range(0, top, degrees);
    assert(0nat % pow2(top) == 0) by {
        lemma_small_mod(0, pow2(top));
    }
    assert(links[link_slot(0, top) as int] == position_in(gaps, (0 + pow2(top)) as int)
        - position_in(gaps, 0));
    if pow2(top) > gaps.len() {
    }
}

/// The even slots hold the gaps in order, and zeros behind the last gap.
pub proof fn lemma_degree_zero_links(links: Seq<int>, gaps: Seq<int>, degrees: nat, k: nat)
    requires
        links_match(links, gaps, degrees),
        2 * k < links.len(),
        all_positive(gaps),
    ensures
        k < gaps.len() ==> links[2 * k as int] == gaps[k as int],
        k >= gaps.len() ==> links[2 * k as int] == 0,
{
    lemma2_to64();
    if degrees == 0 {
    } else {
        lemma_pow2_unfold(degrees);
        lemma_link_slot_degree_zero(k);
        lemma_link_slot_range(k, 0, degrees);
        assert(k % pow2(0) == 0);
        assert(links[link_slot(k, 0) as int] == position_in(gaps, (k + pow2(0)) as int)
            - position_in(gaps, k as int));
        if k >= gaps.len() {
            lemma_position_increases(gaps, gaps.len() as int, k as int);
            lemma_position_increases(gaps, gaps.len() as int, k as int + 1);
            lemma_position_increases(gaps, k as int, k as int + 1);
        }
    }
}

/// No link is longer than the list, and none is shorter than zero.
pub proof fn lemma_link_bounds(links: Seq<int>, gaps: Seq<int>, degrees: nat, node: nat, degree: nat)
    requires
        links_match(links, gaps, degrees),
        all_positive(gaps),
        degree < degrees,
        2 * node < links.len() + 1,
    ensures
        link_slot(node, degree) < links.len(),
        0 <= links[link_slot(node, degree) as int] <= position_in(gaps, gaps.len() as int),
{
    let start = link_start(node, degree);
    lemma_pow2_unfold(degrees);
    lemma_link_slot_of_start(node, degree, degree);
    lemma_link_slot_range(start, degree, degrees);
    assert(links[link_slot(start, degree) as int] == position_in(
        gaps,
        (start + pow2(degree)) as int,
    ) - position_in(gaps, start as int));
    lemma_position_increases(gaps, start as int, (start + pow2(degree)) as int);
    lemma_position_nonnegative(gaps, start as int);
    if start + pow2(degree) <= gaps.len() {
        lemma_position_increases(gaps, (start + pow2(degree)) as int, gaps.len() as int);
    }
}

} // verus!
