//! The packed layout of link lengths: which slot of the array holds the link
//! of a given degree that covers a given node, and how many slots a list of a
//! given size needs.

use vstd::prelude::*;
use vstd::arithmetic::div_mod::*;
use vstd::arithmetic::power2::*;
use vstd::bits::*;

verus! {

/// The base-2 logarithm of `n`, rounded down; 0 for `n <= 1`.
pub open spec fn floor_log2(n: nat) -> nat
    decreases n,
{
    if n <= 1 {
        0
    } else {
        1 + floor_log2(n / 2)
    }
}

/// How many degrees of links a list of `size` nodes uses.
pub open spec fn degree_count(size: nat) -> nat {
    if size <= 1 {
        0
    } else if size == 2 {
        1
    } else {
        floor_log2((size - 2) as nat) + 2
    }
}

/// The number of link slots that a list of `size` nodes needs.
pub open spec fn necessary_capacity(size: nat) -> nat {
    if size <= 1 {
        0
    } else if size == 2 {
        1
    } else {
        (2 * pow2(floor_log2((size - 2) as nat) + 1) - 1) as nat
    }
}

/// The slot of the link of degree `degree` that covers the gap after node
/// `node_index`: the link starts at `node_index` with its low `degree` bits
/// cleared.
pub open spec fn link_slot(node_index: nat, degree: nat) -> nat {
    ((2 * (node_index / pow2(degree)) + 1) * pow2(degree) - 1) as nat
}

/// The node at which the link of degree `degree` that covers `node_index`
/// starts.
pub open spec fn link_start(node_index: nat, degree: nat) -> nat {
    (node_index - node_index % pow2(degree)) as nat
}

/// `n` with the binary digit of weight `pow2(bit)` cleared.
pub open spec fn without_bit(n: nat, bit: nat) -> nat {
    (n - ((n / pow2(bit)) % 2) * pow2(bit)) as nat
}

/// How often 2 divides `n`; 0 for `n == 0`.
pub open spec fn trailing_zeros(n: nat) -> nat
    decreases n,
{
    if n == 0 || n % 2 == 1 {
        0
    } else {
        1 + trailing_zeros(n / 2)
    }
}

/// `n` lies between the power of two that its logarithm names and the next.
pub proof fn lemma_floor_log2_bounds(n: nat)
    requires
        n >= 1,
    ensures
        pow2(floor_log2(n)) <= n < 2 * pow2(floor_log2(n)),
    decreases n,
{
    lemma2_to64();
    if n > 1 {
        lemma_floor_log2_bounds(n / 2);
        lemma_pow2_unfold(floor_log2(n));
    }
}

/// The logarithm is the only exponent whose power of two is at most `n` and
/// more than half of `n`.
pub proof fn lemma_floor_log2_unique(n: nat, e: nat)
    requires
        pow2(e) <= n < 2 * pow2(e),
    ensures
        floor_log2(n) == e,
    decreases e,
{
    lemma2_to64();
    lemma_pow2_pos(e);
    if e == 0 {
    } else {
        lemma_pow2_unfold(e);
        lemma_floor_log2_unique(n / 2, (e - 1) as nat);
    }
}

/// The capacity is one less than a power of two, and that power is the least
/// whose half holds all the gaps of the list.
pub proof fn lemma_capacity_shape(size: nat)
    ensures
        necessary_capacity(size) + 1 == pow2(degree_count(size)),
        size >= 2 ==> degree_count(size) >= 1 && size - 1 <= pow2((degree_count(size) - 1) as nat),
        size >= 3 ==> pow2((degree_count(size) - 2) as nat) < size - 1,
{
    lemma2_to64();
    if size >= 3 {
        let n = (size - 2) as nat;
        let e = floor_log2(n);
        lemma_floor_log2_bounds(n);
        lemma_pow2_unfold(e + 1);
        lemma_pow2_unfold(e + 2);
    }
}

/// The capacity never shrinks as the list grows.
pub proof fn lemma_capacity_monotonic(size: nat)
    ensures
        necessary_capacity(size) <= necessary_capacity(size + 1),
        degree_count(size) <= degree_count(size + 1) <= degree_count(size) + 1,
        necessary_capacity(size + 1) == necessary_capacity(size) || necessary_capacity(size + 1)
            == 2 * necessary_capacity(size) + 1,
{
    lemma2_to64();
    lemma_capacity_shape(size);
    lemma_capacity_shape(size + 1);
    if size >= 3 {
        let n = (size - 2) as nat;
        let e = floor_log2(n);
        lemma_floor_log2_bounds(n);
        lemma_pow2_unfold(e + 1);
        lemma_pow2_unfold(e + 2);
        lemma_pow2_unfold(e + 3);
        if n + 1 < 2 * pow2(e) {
            lemma_floor_log2_unique(n + 1, e);
        } else {
            lemma_floor_log2_unique(n + 1, e + 1);
        }
    } else if size == 2 {
        lemma_floor_log2_unique(1, 0);
    }
}

/// An exponent whose power of two a `usize` can hold is less than the width of
/// a `usize`.
pub proof fn lemma_pow2_fits(e: nat)
    requires
        pow2(e) <= usize::MAX,
    ensures
        e < usize::BITS,
{
    lemma2_to64();
    lemma2_to64_rest();
    if e >= usize::BITS {
        if e > usize::BITS {
            lemma_pow2_strictly_increases(usize::BITS as nat, e);
        }
    }
}

/// `usize::checked_ilog2`: the base-2 logarithm rounded down, and `None` for
/// zero.
pub assume_specification[ usize::checked_ilog2 ](x: usize) -> (r: Option<u32>)
    ensures
        (r is None) == (x == 0),
        r matches Some(log) ==> log == floor_log2(x as nat),
;

/// The number of link slots that a list of `size` nodes needs: none up to one
/// node, one for two nodes, and from then on one less than four times the
/// greatest power of two that is at most `size - 2`.
pub fn necessary_link_length_capacity_for_size(size: usize) -> (capacity: usize)
    requires
        necessary_capacity(size as nat) < usize::MAX,
    ensures
        capacity == necessary_capacity(size as nat),
{
    match size {
        0 => 0,
        1 => 0,
        2 => 1,
        _ => {
            let log = (size - 1 - 1).checked_ilog2().unwrap();
            proof {
                lemma_capacity_shape(size as nat);
                lemma_pow2_fits(log as nat + 2);
            }
            let shift: usize = log as usize + 1;
            proof {
                lemma_pow2_unfold(shift as nat + 1);
                lemma_usize_shl_is_mul(1, shift);
            }
            (1 << shift) * 2 - 1
        },
    }
}

/// Degree-0 links take the even slots, in the order of their gaps.
pub proof fn lemma_link_slot_degree_zero(node_index: nat)
    ensures
        link_slot(node_index, 0) == 2 * node_index,
{
    lemma2_to64();
}

/// A link that starts at a multiple of its span lies at twice its start plus
/// its span, less one.
pub proof fn lemma_link_slot_aligned(node_index: nat, degree: nat)
    requires
        node_index % pow2(degree) == 0,
    ensures
        link_slot(node_index, degree) == 2 * node_index + pow2(degree) - 1,
{
    let p = pow2(degree) as int;
    lemma_pow2_pos(degree);
    lemma_fundamental_div_mod(node_index as int, p);
    let q = node_index as int / p;
    assert((2 * q + 1) * p == 2 * (p * q) + p) by (nonlinear_arith);
}

/// The slot of a link depends on the node only through the start of the
/// link.
pub proof fn lemma_link_slot_of_start(node_index: nat, lower: nat, degree: nat)
    requires
        lower <= degree,
    ensures
        link_slot(link_start(node_index, lower), degree) == link_slot(node_index, degree),
        link_start(node_index, degree) % pow2(degree) == 0,
        link_start(node_index, degree) <= node_index < link_start(node_index, degree) + pow2(
            degree,
        ),
        link_start(node_index, degree) / pow2(degree) == node_index / pow2(degree),
{
    let p = pow2(degree) as int;
    let l = pow2(lower) as int;
    let n = node_index as int;
    lemma_pow2_pos(degree);
    lemma_pow2_pos(lower);
    lemma_pow2_adds(lower, (degree - lower) as nat);
    let m = pow2((degree - lower) as nat) as int;
    lemma_pow2_pos((degree - lower) as nat);
    assert(p == l * m);
    lemma_fundamental_div_mod(n, p);
    lemma_fundamental_div_mod(n, l);
    lemma_mod_bound(n, p);
    lemma_mod_bound(n, l);
    // The remainder by the smaller power is what is left of the remainder by the larger.
    lemma_mod_mod(n, l, m);
    assert((n % p) % l == n % l);
    lemma_mod_decreases((n % p) as nat, l as nat);
    let s = n - n % l;
    assert(s == p * (n / p) + (n % p - n % l));
    lemma_fundamental_div_mod_converse(s, p, n / p, n % p - n % l);
    let t = n - n % p;
    assert(t == p * (n / p) + 0);
    lemma_fundamental_div_mod_converse(t, p, n / p, 0);
}

/// The number of times 2 divides an odd multiple of a power of two is the
/// exponent of that power.
pub proof fn lemma_trailing_zeros_of_odd_multiple(odd_half: nat, exponent: nat)
    ensures
        trailing_zeros(((2 * odd_half + 1) * pow2(exponent)) as nat) == exponent,
    decreases exponent,
{
    lemma2_to64();
    let n = (2 * odd_half + 1) * pow2(exponent);
    if exponent == 0 {
        assert(n == 2 * odd_half + 1) by (nonlinear_arith)
            requires
                n == (2 * odd_half + 1) * pow2(exponent),
                pow2(exponent) == 1,
        ;
    } else {
        lemma_pow2_unfold(exponent);
        let h = (2 * odd_half + 1) * pow2((exponent - 1) as nat);
        assert(n == 2 * h) by (nonlinear_arith)
            requires
                n == (2 * odd_half + 1) * pow2(exponent),
                h == (2 * odd_half + 1) * pow2((exponent - 1) as nat),
                pow2(exponent) == 2 * pow2((exponent - 1) as nat),
        ;
        lemma_pow2_pos((exponent - 1) as nat);
        assert(h >= 1) by (nonlinear_arith)
            requires
                h == (2 * odd_half + 1) * pow2((exponent - 1) as nat),
                pow2((exponent - 1) as nat) >= 1,
        ;
        lemma_trailing_zeros_of_odd_multiple(odd_half, (exponent - 1) as nat);
    }
}

/// Two links share a slot only if they have the same degree and the same
/// start.
pub proof fn lemma_link_slot_injective(node_a: nat, degree_a: nat, node_b: nat, degree_b: nat)
    requires
        link_slot(node_a, degree_a) == link_slot(node_b, degree_b),
    ensures
        degree_a == degree_b,
        link_start(node_a, degree_a) == link_start(node_b, degree_b),
{
    let qa = node_a / pow2(degree_a);
    let qb = node_b / pow2(degree_b);
    let pa = pow2(degree_a);
    let pb = pow2(degree_b);
    lemma_pow2_pos(degree_a);
    lemma_pow2_pos(degree_b);
    assert((2 * qa + 1) * pa >= 1) by (nonlinear_arith)
        requires
            pa >= 1,
            qa >= 0,
    ;
    assert((2 * qb + 1) * pb >= 1) by (nonlinear_arith)
        requires
            pb >= 1,
            qb >= 0,
    ;
    lemma_trailing_zeros_of_odd_multiple(qa, degree_a);
    lemma_trailing_zeros_of_odd_multiple(qb, degree_b);
    assert((2 * qa + 1) * pa == (2 * qb + 1) * pb);
    assert(qa == qb) by (nonlinear_arith)
        requires
            (2 * qa + 1) * pa == (2 * qb + 1) * pb,
            pa == pb,
            pa >= 1,
    ;
    lemma_fundamental_div_mod(node_a as int, pa as int);
    lemma_fundamental_div_mod(node_b as int, pb as int);
}

/// With `degrees` degrees in use, the links that start in the lower half of
/// the gaps lie below the top slot, those that start in the upper half lie
/// above it, and the one link of the highest degree lies on it.
pub proof fn lemma_link_slot_range(node_index: nat, degree: nat, degrees: nat)
    requires
        degree < degrees,
        node_index < pow2(degrees),
    ensures
        node_index < pow2((degrees - 1) as nat) ==> link_slot(node_index, degree) + 1 < pow2(
            degrees,
        ),
        node_index >= pow2((degrees - 1) as nat) ==> pow2(degrees) <= link_slot(node_index, degree)
            < 2 * pow2(degrees) - 1,
        link_slot(0, degrees) == pow2(degrees) - 1,
{
    let p = pow2(degree) as int;
    let n = node_index as int;
    let q = n / p;
    let rest = (degrees - 1 - degree) as nat;
    let m = pow2(rest) as int;
    lemma_pow2_pos(degree);
    lemma_pow2_pos(rest);
    lemma_pow2_pos(degrees);
    lemma_pow2_adds(degree, rest);
    lemma_pow2_unfold(degrees);
    let half = pow2((degrees - 1) as nat) as int;
    assert(half == p * m);
    lemma_fundamental_div_mod(n, p);
    lemma_mod_bound(n, p);
    lemma_div_basics(pow2(degrees) as int);
    assert(0int / (pow2(degrees) as int) == 0);
    assert(link_slot(0, degrees) == pow2(degrees) - 1) by (nonlinear_arith)
        requires
            link_slot(0, degrees) == ((2 * (0int / (pow2(degrees) as int)) + 1) * pow2(degrees)
                - 1) as nat,
            0int / (pow2(degrees) as int) == 0,
            pow2(degrees) >= 1,
    ;
    assert(q >= 0 && (2 * q + 1) * p >= 1) by (nonlinear_arith)
        requires
            n == p * q + n % p,
            0 <= n % p < p,
            n >= 0,
            p >= 1,
    ;
    if n < half {
        assert(q < m) by (nonlinear_arith)
            requires
                n == p * q + n % p,
                0 <= n % p,
                n < p * m,
                p >= 1,
        ;
        assert((2 * q + 1) * p < 2 * (p * m)) by (nonlinear_arith)
            requires
                q + 1 <= m,
                p >= 1,
        ;
    } else {
        assert(q >= m) by (nonlinear_arith)
            requires
                n == p * q + n % p,
                n % p < p,
                n >= p * m,
                p >= 1,
        ;
        assert((2 * q + 1) * p > 2 * (p * m)) by (nonlinear_arith)
            requires
                q >= m,
                p >= 1,
        ;
        assert(q < 2 * m) by (nonlinear_arith)
            requires
                n == p * q + n % p,
                0 <= n % p,
                n < 2 * (p * m),
                p >= 1,
        ;
        assert((2 * q + 1) * p < 4 * (p * m)) by (nonlinear_arith)
            requires
                q + 1 <= 2 * m,
                p >= 1,
        ;
    }
}

/// Clearing the digit of weight `pow2(degree)` in the start of a link of
/// that degree gives the start of the link one degree higher.
pub proof fn lemma_without_bit_of_start(node_index: nat, degree: nat)
    ensures
        without_bit(link_start(node_index, degree), degree) == link_start(node_index, degree + 1),
{
    let p = pow2(degree) as int;
    let n = node_index as int;
    lemma_pow2_pos(degree);
    lemma_pow2_unfold(degree + 1);
    lemma_link_slot_of_start(node_index, degree, degree);
    let s = link_start(node_index, degree) as int;
    let q = n / p;
    lemma_fundamental_div_mod(n, p);
    lemma_fundamental_div_mod(q, 2);
    // n == 2p * (q / 2) + (p * (q % 2) + n % p)
    assert(n == (2 * p) * (q / 2) + (p * (q % 2) + n % p)) by (nonlinear_arith)
        requires
            n == p * q + n % p,
            q == 2 * (q / 2) + q % 2,
    ;
    lemma_mod_bound(n, p);
    assert(0 <= p * (q % 2) + n % p < 2 * p) by (nonlinear_arith)
        requires
            0 <= q % 2 < 2,
            0 <= n % p < p,
    ;
    lemma_fundamental_div_mod_converse(n, 2 * p, q / 2, p * (q % 2) + n % p);
    assert(s / p == q);
    assert((q % 2) * p == p * (q % 2)) by (nonlinear_arith);
}

/// A span of a power of two that starts at a multiple of itself, below a
/// higher power of two, ends at or below that power.
pub proof fn lemma_aligned_span_fits(node_index: nat, degree: nat, limit: nat)
    requires
        degree <= limit,
        node_index % pow2(degree) == 0,
        node_index < pow2(limit),
    ensures
        node_index + pow2(degree) <= pow2(limit),
{
    let p = pow2(degree) as int;
    let rest = (limit - degree) as nat;
    let m = pow2(rest) as int;
    lemma_pow2_pos(degree);
    lemma_pow2_adds(degree, rest);
    lemma_fundamental_div_mod(node_index as int, p);
    let q = node_index as int / p;
    assert(q + 1 <= m) by (nonlinear_arith)
        requires
            node_index == p * q,
            node_index < p * m,
            p >= 1,
    ;
    assert(p * q + p <= p * m) by (nonlinear_arith)
        requires
            q + 1 <= m,
            p >= 1,
    ;
}

/// The slot of the link of degree `degree` that covers the gap after node
/// `node_index`.
///
/// Degree-0 links take the even slots, degree-1 links every fourth slot from
/// slot 1 on, degree-2 links every eighth slot from slot 3 on, and so forth.
pub fn link_index(node_index: usize, degree: usize) -> (slot: usize)
    requires
        degree < usize::BITS,
        link_slot(node_index as nat, degree as nat) < usize::MAX,
    ensures
        slot == link_slot(node_index as nat, degree as nat),
{
    proof {
        let quotient = node_index >> degree;
        lemma_usize_shr_is_div(node_index, degree);
        lemma_pow2_pos(degree as nat);
        lemma2_to64();
        assert((2 * quotient + 1) * pow2(degree as nat) >= 2 * quotient + 1) by (nonlinear_arith)
            requires
                pow2(degree as nat) >= 1,
        ;
        lemma_usize_shl_is_mul(quotient, 1);
        lemma_usize_shl_is_mul(((quotient << 1) + 1) as usize, degree);
    }
    (((node_index >> degree << 1) + 1) << degree) - 1
}

/// Walks up the links that cover the gap after one node: the slot of its
/// degree-0 link first, then the slot of the degree-1 link above it, and so
/// on without end.
pub struct LinkIndicesAbove {
    /// The degree of the link that comes next.
    pub degree: usize,
    /// The node that the walk started from, with the digits below `degree`
    /// cleared as the walk went up.
    pub node_index: usize,
}

impl LinkIndicesAbove {
    /// Starts below the degree-0 link of the gap after `node_index`.
    pub fn new(node_index: usize) -> (iterator: Self)
        ensures
            iterator.degree == 0,
            iterator.node_index == node_index,
    {
        Self { degree: 0, node_index }
    }

    /// The slot of the link at the current degree, after which the walk
    /// stands one degree higher, at the node where the link of that degree
    /// can start.
    pub fn next(&mut self) -> (slot: Option<usize>)
        requires
            old(self).degree < usize::BITS,
            link_slot(old(self).node_index as nat, old(self).degree as nat) < usize::MAX,
        ensures
            slot == Some(link_slot(old(self).node_index as nat, old(self).degree as nat) as usize),
            final(self).degree == old(self).degree + 1,
            final(self).node_index == without_bit(
                old(self).node_index as nat,
                old(self).degree as nat,
            ),
    {
        let result = link_index(self.node_index, self.degree);
        proof {
            let n = self.node_index;
            let d = self.degree;
            let digit = (n >> d) & 1;
            assert(n & !(1usize << d) == n - digit * (1usize << d) && digit == (n >> d) % 2)
                by (bit_vector)
                requires
                    digit == (n >> d) & 1,
                    d < usize::BITS,
            ;
            lemma_usize_shr_is_div(n, d);
            lemma_usize_pow2_no_overflow(d as nat);
            lemma_usize_shl_is_mul(1, d);
            assert(digit * pow2(d as nat) <= pow2(d as nat)) by (nonlinear_arith)
                requires
                    digit <= 1,
            ;
        }
        self.node_index &= !(1 << self.degree);
        self.degree += 1;
        Some(result)
    }
}

/// A number whose binary digits below `count` are all zero and whose digit at
/// `count` is one is divisible by two exactly `count` times.
pub proof fn lemma_trailing_zeros_from_digits(n: u64, count: u64)
    requires
        count < 64,
        (n >> count) & 1 == 1,
        forall|j: u64| 0 <= j < count ==> #[trigger] (n >> j) & 1 == 0,
    ensures
        trailing_zeros(n as nat) == count,
    decreases count,
{
    if count == 0 {
        assert(n % 2 == 1 && n != 0) by (bit_vector)
            requires
                (n >> 0) & 1 == 1,
        ;
    } else {
        assert((n >> 0) & 1 == 0);
        let half = n / 2;
        let below = (count - 1) as u64;
        assert(n % 2 == 0 && n != 0 && (half >> below) & 1 == 1) by (bit_vector)
            requires
                (n >> 0) & 1 == 0,
                (n >> count) & 1 == 1,
                0 < count < 64,
                half == n / 2,
                below == count - 1,
        ;
        assert forall|j: u64| 0 <= j < below implies #[trigger] (half >> j) & 1 == 0 by {
            let above = (j + 1) as u64;
            assert((n >> above) & 1 == 0);
            assert((half >> j) & 1 == 0) by (bit_vector)
                requires
                    (n >> above) & 1 == 0,
                    half == n / 2,
                    above == j + 1,
                    j < 63,
            ;
        }
        lemma_trailing_zeros_from_digits(half, below);
    }
}

/// The power of two that `trailing_zeros` names divides `n`.
pub proof fn lemma_trailing_zeros_divides(n: nat)
    requires
        n != 0,
    ensures
        n % pow2(trailing_zeros(n)) == 0,
        pow2(trailing_zeros(n)) <= n,
        (n / pow2(trailing_zeros(n))) % 2 == 1,
    decreases n,
{
    lemma2_to64();
    if n % 2 == 1 {
    } else {
        let e = trailing_zeros(n / 2);
        lemma_trailing_zeros_divides(n / 2);
        lemma_pow2_unfold(e + 1);
        lemma_pow2_pos(e);
        let p = pow2(e) as int;
        let h = (n / 2) as int;
        lemma_fundamental_div_mod(h, p);
        assert(n as int == (2 * p) * (h / p) + 0) by (nonlinear_arith)
            requires
                h == p * (h / p),
                n == 2 * h,
        ;
        lemma_fundamental_div_mod_converse(n as int, 2 * p, h / p, 0);
        assert(2 * p <= n) by (nonlinear_arith)
            requires
                p <= h,
                n == 2 * h,
        ;
    }
}

} // verus!
