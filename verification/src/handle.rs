//! The compact bit-region descriptor.
//!
//! A [`BitRegionHandle`] names a span of live bits inside a run of
//! storage elements: the address of the first touched element, the bit
//! offset of the first live bit within it, and the number of live bits.
//! It owns no memory.  The handle packs losslessly into the two machine
//! words of a native wide reference — the base address and a length
//! word holding `len * 8 + head` — so that higher layers can carry it
//! as an ordinary pointer-and-length value.
//!
//! The marker type parameter records whether the elements the handle
//! touches are reachable through this handle alone ([`Exclusive`]) or
//! possibly through another live handle ([`Aliased`]); splitting a
//! region inside an element yields two aliased sub-handles that share
//! the edge element.

use vstd::prelude::*;
use core::marker::PhantomData;
use vstd::arithmetic::div_mod::{
    lemma_div_is_ordered, lemma_div_multiples_vanish_fancy, lemma_fundamental_div_mod,
    lemma_fundamental_div_mod_converse, lemma_mod_division_less_than_divisor,
};
use crate::alias::{Aliased, Exclusive};
use crate::mem::{elems_spec, lemma_hoist, lemma_max_bits_bounds, MAX_BITS};

verus! {

/// A descriptor of the live bits in a run of storage elements: the
/// address of the first touched element, the offset of the first live
/// bit within it, and the count of live bits.  `M` is the aliasing
/// marker of the elements it touches.
pub struct BitRegionHandle<M> {
    /// Address of the first storage element containing live bits.
    pub base: usize,
    /// Bit offset of the first live bit within the element at `base`.
    pub head: usize,
    /// Number of live bits; zero is legal and denotes an empty but
    /// still-addressable region.
    pub len: usize,
    /// Aliasing marker of the touched elements.
    pub mode: PhantomData<M>,
}

impl<M> Clone for BitRegionHandle<M> {
    fn clone(&self) -> (r: Self)
        ensures
            r.base == self.base,
            r.head == self.head,
            r.len == self.len,
    {
        BitRegionHandle { base: self.base, head: self.head, len: self.len, mode: PhantomData }
    }
}

impl<M> Copy for BitRegionHandle<M> {

}

impl<M> BitRegionHandle<M> {
    /// A well-formed handle: the head offset lies inside the first
    /// element, the length fits the packed representation, and the
    /// touched elements fit in the address space.
    pub open spec fn wf(&self) -> bool {
        &&& self.head < 8
        &&& self.len <= MAX_BITS
        &&& self.base + elems_spec(self.head as int, self.len as int) <= usize::MAX
    }

    /// Number of storage elements the region touches.
    pub open spec fn spec_elements(&self) -> int {
        elems_spec(self.head as int, self.len as int)
    }

    /// Whether the storage element at address `k` is touched by the
    /// region: it holds at least one live bit, or is the addressed
    /// element of an empty region with a non-zero head.
    pub open spec fn touches(&self, k: int) -> bool {
        self.base <= k < self.base + self.spec_elements()
    }

    /// The lower sub-handle of a split at bit `offset`: the same base
    /// and head, `offset` live bits, marked aliased.
    pub open spec fn split_lower(&self, offset: int) -> BitRegionHandle<Aliased> {
        BitRegionHandle {
            base: self.base,
            head: self.head,
            len: offset as usize,
            mode: PhantomData,
        }
    }

    /// The upper sub-handle of a split at bit `offset`: based at the
    /// element holding bit `offset`, with the remaining bits, marked
    /// aliased.
    pub open spec fn split_upper(&self, offset: int) -> BitRegionHandle<Aliased> {
        BitRegionHandle {
            base: (self.base + (self.head + offset) / 8) as usize,
            head: ((self.head + offset) % 8) as usize,
            len: (self.len - offset) as usize,
            mode: PhantomData,
        }
    }

    /// Constructs a handle from its parts.  The caller guarantees that
    /// `base` addresses at least `elements()` valid storage elements.
    pub fn from_raw(base: usize, head: usize, len: usize) -> (r: Self)
        requires
            head < 8,
            len <= MAX_BITS,
            base + elems_spec(head as int, len as int) <= usize::MAX,
        ensures
            r.base == base,
            r.head == head,
            r.len == len,
            r.wf(),
    {
        BitRegionHandle { base, head, len, mode: PhantomData }
    }

    /// Replaces the base address, leaving head and length untouched.
    /// Used after the owning buffer's allocation moves; the caller
    /// guarantees the new address holds the region's elements.
    pub fn rebase(&mut self, new_base: usize)
        requires
            new_base + old(self).spec_elements() <= usize::MAX,
        ensures
            final(self).base == new_base,
            final(self).head == old(self).head,
            final(self).len == old(self).len,
            old(self).wf() ==> final(self).wf(),
    {
        self.base = new_base;
    }

    /// Replaces the head offset, leaving base and length untouched.
    /// Used only during realignment: the caller must already have
    /// shifted the underlying bit content to match.
    pub fn set_head(&mut self, new_head: usize)
        requires
            new_head < 8,
            old(self).base + elems_spec(new_head as int, old(self).len as int) <= usize::MAX,
        ensures
            final(self).base == old(self).base,
            final(self).head == new_head,
            final(self).len == old(self).len,
            old(self).len <= MAX_BITS ==> final(self).wf(),
    {
        self.head = new_head;
    }

    /// Number of storage elements the region touches:
    /// `ceil((head + len) / 8)`.
    pub fn elements(&self) -> (r: usize)
        requires
            self.head < 8,
            self.len <= MAX_BITS,
        ensures
            r == self.spec_elements(),
    {
        proof {
            lemma_max_bits_bounds();
        }
        (self.head + self.len + 7) / 8
    }

    /// Packs the handle into the two words of a native wide reference:
    /// the base address, and a length word holding `len * 8 + head`.
    /// The conversion allocates nothing and loses nothing.
    pub fn to_wide_reference(&self) -> (r: (usize, usize))
        requires
            self.head < 8,
            self.len <= MAX_BITS,
        ensures
            r.0 == self.base,
            r.1 == 8 * self.len + self.head,
    {
        proof {
            lemma_max_bits_bounds();
        }
        (self.base, 8 * self.len + self.head)
    }

    /// Unpacks a wide reference back into a handle: the length word
    /// holds `len * 8 + head`.
    pub fn from_wide_reference(addr: usize, len_word: usize) -> (r: Self)
        requires
            len_word / 8 <= MAX_BITS,
            addr + elems_spec(len_word as int % 8, len_word as int / 8) <= usize::MAX,
        ensures
            r.base == addr,
            r.head == len_word % 8,
            r.len == len_word / 8,
            r.wf(),
    {
        proof {
            lemma_mod_division_less_than_divisor(len_word as int, 8);
        }
        BitRegionHandle { base: addr, head: len_word % 8, len: len_word / 8, mode: PhantomData }
    }

    /// Splits the region at bit `offset` into a lower and an upper
    /// sub-region.  Both results are marked aliased: when the split
    /// lands inside an element, that edge element is reachable through
    /// both of them.
    pub fn split_at(&self, offset: usize) -> (r: (BitRegionHandle<Aliased>, BitRegionHandle<
        Aliased,
    >))
        requires
            self.wf(),
            offset <= self.len,
        ensures
            r.0 == self.split_lower(offset as int),
            r.1 == self.split_upper(offset as int),
            r.0.wf(),
            r.1.wf(),
    {
        proof {
            lemma_max_bits_bounds();
            lemma_split_arith(self.head as int, self.len as int, offset as int);
            lemma_mod_division_less_than_divisor(self.head + offset, 8);
            lemma_div_is_ordered(0, self.head + offset, 8);
        }
        let lower: BitRegionHandle<Aliased> = BitRegionHandle {
            base: self.base,
            head: self.head,
            len: offset,
            mode: PhantomData,
        };
        let upper: BitRegionHandle<Aliased> = BitRegionHandle {
            base: self.base + (self.head + offset) / 8,
            head: (self.head + offset) % 8,
            len: self.len - offset,
            mode: PhantomData,
        };
        (lower, upper)
    }
}

/// Splitting arithmetic: the touched elements of the two sub-regions of
/// a split at `offset` stay within the split region's touched
/// elements, and their spans add up around the split element.
proof fn lemma_split_arith(head: int, len: int, offset: int)
    requires
        0 <= head < 8,
        0 <= offset <= len,
    ensures
        (head + offset) / 8 + elems_spec((head + offset) % 8, len - offset) == elems_spec(
            head,
            len,
        ),
        elems_spec(head, offset) <= elems_spec(head, len),
        0 <= (head + offset) / 8,
        0 <= (head + offset) % 8 < 8,
{
    lemma_fundamental_div_mod(head + offset, 8);
    lemma_mod_division_less_than_divisor(head + offset, 8);
    lemma_div_is_ordered(0, head + offset, 8);
    let q = (head + offset) / 8;
    let r = (head + offset) % 8;
    assert(head + len + 7 == 8 * q + (r + (len - offset) + 7));
    lemma_div_multiples_vanish_fancy(q, 0, 8);
    assert((8 * q + (r + (len - offset) + 7)) / 8 == q + (r + (len - offset) + 7) / 8) by {
        lemma_hoist(q, r + (len - offset) + 7);
    };
    lemma_div_is_ordered(head + offset + 7, head + len + 7, 8);
}

/// The element count of a region is the ceiling of `(head + len) / 8`:
/// every partially live edge element counts.
pub proof fn lemma_elements_is_ceil<M>(h: BitRegionHandle<M>)
    requires
        h.head < 8,
    ensures
        h.spec_elements() == if (h.head + h.len) % 8 == 0 {
            (h.head + h.len) / 8
        } else {
            (h.head + h.len) / 8 + 1
        },
{
    crate::mem::lemma_elems_is_ceil(h.head as int, h.len as int);
}

/// Packing a well-formed handle into a wide reference and unpacking it
/// again reproduces the handle exactly.
pub proof fn lemma_wide_reference_round_trip<M>(h: BitRegionHandle<M>)
    requires
        h.wf(),
    ensures
        (8 * h.len + h.head) as usize % 8 == h.head,
        (8 * h.len + h.head) as usize / 8 == h.len,
        (BitRegionHandle::<M> {
            base: h.base,
            head: ((8 * h.len + h.head) as usize % 8) as usize,
            len: ((8 * h.len + h.head) as usize / 8) as usize,
            mode: PhantomData,
        } == h),
{
    lemma_max_bits_bounds();
    lemma_fundamental_div_mod_converse(8 * h.len + h.head, 8, h.len as int, h.head as int);
}

/// Strips the aliasing marker from a region handle.  The caller must
/// have established that no other live handle overlaps the region's
/// elements any longer.
pub fn remove_bitptr_alias(h: BitRegionHandle<Aliased>) -> (r: BitRegionHandle<Exclusive>)
    ensures
        r.base == h.base,
        r.head == h.head,
        r.len == h.len,
        h.wf() ==> r.wf(),
{
    BitRegionHandle { base: h.base, head: h.head, len: h.len, mode: PhantomData }
}

/// Marks a region handle as aliased: from this point on the region's
/// elements may be reached through another live handle as well.
pub fn alias_bitptr(h: BitRegionHandle<Exclusive>) -> (r: BitRegionHandle<Aliased>)
    ensures
        r.base == h.base,
        r.head == h.head,
        r.len == h.len,
        h.wf() ==> r.wf(),
{
    BitRegionHandle { base: h.base, head: h.head, len: h.len, mode: PhantomData }
}

/// A split that lands inside an element leaves that element touched by
/// both sub-regions: both the lower and the upper handle report the
/// element at the upper handle's base among their touched elements.
pub proof fn lemma_split_mid_element_shares<M>(h: BitRegionHandle<M>, offset: int)
    requires
        h.wf(),
        0 <= offset <= h.len,
        (h.head + offset) % 8 != 0,
    ensures
        h.split_lower(offset).touches(h.split_upper(offset).base as int),
        h.split_upper(offset).touches(h.split_upper(offset).base as int),
        h.touches(h.split_upper(offset).base as int),
{
    lemma_split_arith(h.head as int, h.len as int, offset);
    let q = (h.head + offset) / 8;
    let r = (h.head + offset) % 8;
    lemma_fundamental_div_mod(h.head + offset, 8);
    // The lower sub-region's last touched element is the split element:
    // its span ends at bit head + offset, whose element is q.
    assert(elems_spec(h.head as int, offset) == (8 * q + r + 7) / 8);
    assert((8 * q + r + 7) / 8 == q + (r + 7) / 8) by {
        lemma_hoist(q, r + 7);
        lemma_div_is_ordered(0, h.head + offset, 8);
    };
    assert((r + 7) / 8 == 1) by {
        lemma_fundamental_div_mod_converse(r + 7, 8, 1, r - 1);
    };
    // The upper sub-region touches its own base element: either it has
    // live bits there, or it is empty with a non-zero head.
    assert(elems_spec(r, h.len - offset) >= 1) by {
        lemma_div_is_ordered(8, r + (h.len - offset) + 7, 8);
        lemma_fundamental_div_mod_converse(8, 8, 1, 0);
    };
}

/// A split that lands exactly on an element boundary shares nothing:
/// no storage element is touched by both sub-regions.
pub proof fn lemma_split_aligned_disjoint<M>(h: BitRegionHandle<M>, offset: int)
    requires
        h.wf(),
        0 <= offset <= h.len,
        (h.head + offset) % 8 == 0,
    ensures
        forall|k: int|
            !(#[trigger] h.split_lower(offset).touches(k) && h.split_upper(offset).touches(k)),
{
    lemma_split_arith(h.head as int, h.len as int, offset);
    let q = (h.head + offset) / 8;
    lemma_fundamental_div_mod(h.head + offset, 8);
    // The lower sub-region's touched elements end at the boundary
    // element q, which is the upper sub-region's base.
    assert(elems_spec(h.head as int, offset) == (8 * q + 7) / 8);
    assert((8 * q + 7) / 8 == q + 7int / 8) by {
        lemma_hoist(q, 7);
        lemma_div_is_ordered(0, h.head + offset, 8);
    };
    assert(7int / 8 == 0) by {
        lemma_fundamental_div_mod_converse(7, 8, 0, 7);
    };
}

} // verus!
