//! The bit-level model of storage elements.
//!
//! A storage element is a `u8`; a region of live bits is described by a
//! head offset into its first element and a bit length.  This module
//! defines what a single bit of an element is, what sequence of bits a
//! `(elements, head, len)` triple denotes, and how many elements such a
//! region touches.

use vstd::prelude::*;
use vstd::arithmetic::div_mod::{
    lemma_div_is_ordered, lemma_fundamental_div_mod, lemma_fundamental_div_mod_converse,
    lemma_mod_division_less_than_divisor,
};

verus! {

/// Number of bits in one storage element.
pub const BITS_PER_ELEM: usize = 8;

/// Greatest bit length a region handle may carry.  The packed wide
/// reference stores `len * 8 + head` in one machine word, so `len` must
/// leave room for a head offset below 8.
pub const MAX_BITS: usize = usize::MAX / 8 - 1;

/// The value of bit `i` of element `e`, counting from the least
/// significant end.
pub open spec fn nth_bit(e: u8, i: u8) -> bool
    recommends
        i < 8,
{
    (e >> i) & 1 == 1
}

/// Number of storage elements touched by a region with head offset
/// `head` and bit length `len`: the ceiling of `(head + len) / 8`.
pub open spec fn elems_spec(head: int, len: int) -> int {
    (head + len + 7) / 8
}

/// The bit at absolute position `p` of a run of elements: bit `p % 8`
/// of element `p / 8`.
pub open spec fn raw_bit(elems: Seq<u8>, p: int) -> bool
    recommends
        0 <= p,
        p / 8 < elems.len(),
{
    nth_bit(elems[p / 8], (p % 8) as u8)
}

/// The sequence of live bits denoted by elements `elems`, head offset
/// `head` and bit length `len`: bit `i` of the region is bit
/// `(head + i) % 8` of element `(head + i) / 8`.
pub open spec fn region_bits(elems: Seq<u8>, head: int, len: int) -> Seq<bool>
    recommends
        0 <= head < 8,
        0 <= len,
        elems_spec(head, len) <= elems.len(),
{
    Seq::new(len as nat, |i: int| raw_bit(elems, head + i))
}

/// `elems_spec` is the ceiling of `(head + len) / 8`: the region covers
/// bit positions `head .. head + len`, and every one of them lies in an
/// element below `elems_spec(head, len)`, while the last one (if any)
/// lies in element `elems_spec(head, len) - 1`.
pub proof fn lemma_elems_is_ceil(head: int, len: int)
    requires
        0 <= head < 8,
        0 <= len,
    ensures
        elems_spec(head, len) == if (head + len) % 8 == 0 {
            (head + len) / 8
        } else {
            (head + len) / 8 + 1
        },
        8 * elems_spec(head, len) >= head + len,
        len > 0 ==> 8 * (elems_spec(head, len) - 1) < head + len,
{
    lemma_fundamental_div_mod(head + len, 8);
    lemma_fundamental_div_mod(head + len + 7, 8);
    lemma_mod_division_less_than_divisor(head + len, 8);
    lemma_mod_division_less_than_divisor(head + len + 7, 8);
}

/// Every live bit position `p` (with `head <= p < head + len`) lies in
/// an element strictly below `elems_spec(head, len)`.
pub proof fn lemma_bit_in_live_elems(head: int, len: int, i: int)
    requires
        0 <= head < 8,
        0 <= i < len,
    ensures
        0 <= (head + i) / 8 < elems_spec(head, len),
        0 <= (head + i) % 8 < 8,
{
    lemma_fundamental_div_mod(head + i, 8);
    lemma_mod_division_less_than_divisor(head + i, 8);
    lemma_elems_is_ceil(head, len);
    lemma_div_is_ordered(head + i, head + len - 1, 8);
    lemma_fundamental_div_mod(head + len - 1, 8);
    lemma_mod_division_less_than_divisor(head + len - 1, 8);
    lemma_elems_is_ceil(head, len);
    assert((head + len - 1) / 8 < elems_spec(head, len)) by {
        lemma_fundamental_div_mod(head + len + 7, 8);
        lemma_mod_division_less_than_divisor(head + len + 7, 8);
        lemma_fundamental_div_mod(head + len - 1, 8);
    };
}

/// Two regions over element sequences that agree on the touched prefix
/// denote the same bits.
pub proof fn lemma_region_bits_congruent(a: Seq<u8>, b: Seq<u8>, head: int, len: int)
    requires
        0 <= head < 8,
        0 <= len,
        elems_spec(head, len) <= a.len(),
        elems_spec(head, len) <= b.len(),
        forall|k: int| 0 <= k < elems_spec(head, len) ==> a[k] == b[k],
    ensures
        region_bits(a, head, len) == region_bits(b, head, len),
{
    assert forall|i: int| 0 <= i < len implies region_bits(a, head, len)[i] == region_bits(
        b,
        head,
        len,
    )[i] by {
        lemma_bit_in_live_elems(head, len, i);
    };
    assert(region_bits(a, head, len) =~= region_bits(b, head, len));
}

/// Adding `8 * q` to a non-negative numerator adds `q` to the quotient.
pub proof fn lemma_hoist(q: int, b: int)
    requires
        0 <= b,
        0 <= q,
    ensures
        (8 * q + b) / 8 == q + b / 8,
{
    lemma_fundamental_div_mod(b, 8);
    lemma_mod_division_less_than_divisor(b, 8);
    lemma_fundamental_div_mod_converse(8 * q + b, 8, q + b / 8, b % 8);
}

/// The element count grows with the head offset and with the length.
pub proof fn lemma_elems_monotone(head1: int, len1: int, head2: int, len2: int)
    requires
        0 <= head1,
        0 <= len1,
        head1 <= head2,
        len1 <= len2,
    ensures
        elems_spec(head1, len1) <= elems_spec(head2, len2),
{
    lemma_div_is_ordered(head1 + len1 + 7, head2 + len2 + 7, 8);
}

/// Distinct bit positions live in distinct element-and-offset pairs.
pub proof fn lemma_positions_distinct(p: int, q: int)
    requires
        0 <= p,
        0 <= q,
        p != q,
    ensures
        p / 8 != q / 8 || p % 8 != q % 8,
{
    lemma_fundamental_div_mod(p, 8);
    lemma_fundamental_div_mod(q, 8);
}

/// Changing one element changes no bit of any other element, and sets
/// the bits of the changed element to those of the new value.
pub proof fn lemma_raw_bit_update(elems: Seq<u8>, e: int, v: u8, p: int)
    requires
        0 <= e < elems.len(),
        0 <= p,
        p / 8 < elems.len(),
    ensures
        p / 8 != e ==> raw_bit(elems.update(e, v), p) == raw_bit(elems, p),
        p / 8 == e ==> raw_bit(elems.update(e, v), p) == nth_bit(v, (p % 8) as u8),
{
    lemma_fundamental_div_mod(p, 8);
    lemma_mod_division_less_than_divisor(p, 8);
}

/// Bounds that make arithmetic on lengths up to [`MAX_BITS`] safe: a
/// packed length word `8 * len + head` fits in a `usize`, and so does
/// `head + len + 7`, the numerator of the element count.
pub proof fn lemma_max_bits_bounds()
    ensures
        8 * (MAX_BITS as int) + 7 <= usize::MAX,
        (MAX_BITS as int) + 15 <= usize::MAX,
        MAX_BITS >= 0x1000_0000,
{
    lemma_fundamental_div_mod(usize::MAX as int, 8);
    lemma_mod_division_less_than_divisor(usize::MAX as int, 8);
    lemma_div_is_ordered(0x8000_0008, usize::MAX as int, 8);
}

/// Reads bit `i` of element `e`.
pub fn get_bit(e: u8, i: usize) -> (r: bool)
    requires
        i < 8,
    ensures
        r == nth_bit(e, i as u8),
{
    ((e >> (i as u8)) & 1) == 1
}

/// Returns `e` with bit `i` set to `b` and every other bit unchanged.
pub fn set_bit(e: u8, i: usize, b: bool) -> (r: u8)
    requires
        i < 8,
    ensures
        forall|j: u8| j < 8 ==> nth_bit(r, j) == if j == i as u8 {
            b
        } else {
            nth_bit(e, j)
        },
{
    let r: u8 = if b {
        e | (1u8 << (i as u8))
    } else {
        e & !(1u8 << (i as u8))
    };
    proof {
        let iu: u8 = i as u8;
        if b {
            assert(forall|j: u8|
                j < 8 && iu < 8 ==> nth_bit(e | (1u8 << iu), j) == if j == iu {
                    true
                } else {
                    nth_bit(e, j)
                }) by (bit_vector);
        } else {
            assert(forall|j: u8|
                j < 8 && iu < 8 ==> nth_bit(e & !(1u8 << iu), j) == if j == iu {
                    false
                } else {
                    nth_bit(e, j)
                }) by (bit_vector);
        }
    }
    r
}

/// Every bit of the all-ones element is set, every bit of the all-zeros
/// element is clear.
pub proof fn lemma_fill_patterns()
    ensures
        forall|j: u8| j < 8 ==> nth_bit(0xFFu8, j),
        forall|j: u8| j < 8 ==> !nth_bit(0x00u8, j),
{
    assert(forall|j: u8| j < 8 ==> nth_bit(0xFFu8, j)) by (bit_vector);
    assert(forall|j: u8| j < 8 ==> !nth_bit(0x00u8, j)) by (bit_vector);
}

} // verus!
