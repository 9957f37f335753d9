//! The growable, owned bit buffer.
//!
//! A [`BitVec`] owns a run of storage elements and carries a
//! [`BitRegionHandle`] over the live prefix of its bits.  The handle's
//! base is the buffer's model of the allocation's address: construction
//! places it at zero, and a growth that must move the allocation gives
//! it a fresh value, so that a stale handle is visibly stale.  The
//! element sequence `buf` is the allocation; its length is the
//! capacity, in elements, and may exceed the elements the live region
//! touches.

use vstd::prelude::*;
use core::marker::PhantomData;
use crate::alias::{load_aliased_local, AliasElem, Exclusive};
use crate::handle::BitRegionHandle;
use crate::mem::{
    elems_spec, get_bit, lemma_bit_in_live_elems, lemma_elems_is_ceil, lemma_elems_monotone,
    lemma_fill_patterns, lemma_hoist, lemma_max_bits_bounds, lemma_positions_distinct,
    lemma_raw_bit_update, lemma_region_bits_congruent, nth_bit, raw_bit, region_bits, set_bit,
    MAX_BITS,
};

verus! {

/// A vector of individual bits: an owned allocation of storage
/// elements and a region handle over the live prefix of its bits.
pub struct BitVec {
    /// The allocated storage elements; the length of this vector is
    /// the buffer's capacity in elements.
    pub buf: Vec<u8>,
    /// Region handle over the live bits.  Its base is the buffer's
    /// abstract allocation address; its head and length delimit the
    /// live window.
    pub region: BitRegionHandle<Exclusive>,
}

impl View for BitVec {
    type V = Seq<bool>;

    /// The live bits of the buffer.
    open spec fn view(&self) -> Seq<bool> {
        region_bits(self.buf@, self.region.head as int, self.region.len as int)
    }
}

impl BitVec {
    /// A well-formed buffer: the region handle is well formed, every
    /// element it touches lies in the allocation, and the allocation
    /// itself fits in the address space after its base.
    pub open spec fn wf(&self) -> bool {
        &&& self.region.wf()
        &&& self.region.spec_elements() <= self.buf.len()
        &&& self.region.base + self.buf.len() <= usize::MAX
    }

    /// Constructs an empty buffer whose allocation holds at least `n`
    /// bits, rounded up to whole elements.
    pub fn with_capacity(n: usize) -> (r: Self)
        requires
            n <= MAX_BITS,
        ensures
            r.wf(),
            r.region.len == 0,
            r.region.head == 0,
            r.region.base == 0,
            r.buf.len() == elems_spec(0, n as int),
            r@ == Seq::<bool>::empty(),
    {
        proof {
            lemma_max_bits_bounds();
        }
        let cap: usize = (n + 7) / 8;
        let mut buf: Vec<u8> = Vec::new();
        while buf.len() < cap
            invariant
                buf.len() <= cap,
            decreases cap - buf.len(),
        {
            buf.push(0u8);
        }
        let r = BitVec {
            buf,
            region: BitRegionHandle { base: 0, head: 0, len: 0, mode: PhantomData },
        };
        proof {
            lemma_elems_monotone(0, 0, 0, n as int);
            assert(r@ =~= Seq::<bool>::empty());
        }
        r
    }

    /// Updates the live length to `new_len` without touching the
    /// allocation.  Bits that become live take whatever state the
    /// allocation holds; the caller must give them a defined state
    /// before reading them.
    pub fn set_len(&mut self, new_len: usize)
        requires
            old(self).wf(),
            new_len <= MAX_BITS,
            elems_spec(old(self).region.head as int, new_len as int) <= old(self).buf.len(),
        ensures
            final(self).wf(),
            final(self).region.len == new_len,
            final(self).region.head == old(self).region.head,
            final(self).region.base == old(self).region.base,
            final(self).buf == old(self).buf,
            forall|i: int|
                0 <= i < new_len && i < old(self).region.len ==> final(self)@[i] == old(self)@[i],
    {
        self.region.len = new_len;
    }

    /// Writes `element` into every storage element the live region
    /// touches, without altering length or capacity.  The allocated
    /// but dead elements beyond the live region are not part of this
    /// function's contract.
    pub fn set_elements(&mut self, element: u8)
        requires
            old(self).wf(),
        ensures
            final(self).wf(),
            final(self).region == old(self).region,
            final(self).buf.len() == old(self).buf.len(),
            forall|k: int|
                0 <= k < old(self).region.spec_elements() ==> final(self).buf@[k] == element,
    {
        let n: usize = self.region.elements();
        let mut k: usize = 0;
        while k < n
            invariant
                k <= n,
                n == old(self).region.spec_elements(),
                self.region == old(self).region,
                self.buf.len() == old(self).buf.len(),
                old(self).wf(),
                self.wf(),
                forall|j: int| 0 <= j < k ==> self.buf@[j] == element,
            decreases n - k,
        {
            self.buf[k] = element;
            k += 1;
        }
    }

    /// Constructs a buffer of exactly `len` live bits, all set to
    /// `bit`, by allocating, marking `len` bits live, and bulk-filling
    /// every live element with the all-ones or all-zeros pattern.
    pub fn repeat(bit: bool, len: usize) -> (r: Self)
        requires
            len <= MAX_BITS,
        ensures
            r.wf(),
            r.region.len == len,
            r.region.head == 0,
            r@.len() == len,
            forall|i: int| 0 <= i < len ==> r@[i] == bit,
            r.buf.len() == elems_spec(0, len as int),
            forall|k: int|
                0 <= k < r.region.spec_elements() ==> r.buf@[k] == (if bit {
                    0xFFu8
                } else {
                    0x00u8
                }),
    {
        let mut out = Self::with_capacity(len);
        out.set_len(len);
        out.set_elements(if bit { 0xFF } else { 0x00 });
        proof {
            lemma_fill_patterns();
            assert forall|i: int| 0 <= i < len implies out@[i] == bit by {
                lemma_bit_in_live_elems(0, len as int, i);
            };
        }
        out
    }

    /// The number of live bits.
    pub fn len(&self) -> (r: usize)
        ensures
            r == self.region.len,
    {
        self.region.len
    }

    /// The capacity of the allocation, in storage elements.
    pub fn capacity(&self) -> (r: usize)
        ensures
            r == self.buf.len(),
    {
        self.buf.len()
    }

    /// The number of storage elements that contain live bits of the
    /// buffer.
    pub fn elements(&self) -> (r: usize)
        requires
            self.wf(),
        ensures
            r == self.region.spec_elements(),
    {
        self.region.elements()
    }

    /// The storage element at index `k` of the allocation.
    pub fn element(&self, k: usize) -> (r: u8)
        requires
            k < self.buf.len(),
        ensures
            r == self.buf@[k as int],
    {
        self.buf[k]
    }

    /// Reads live bit `i`.
    pub fn read_bit(&self, i: usize) -> (r: bool)
        requires
            self.wf(),
            i < self.region.len,
        ensures
            r == self@[i as int],
    {
        proof {
            lemma_max_bits_bounds();
            lemma_bit_in_live_elems(self.region.head as int, self.region.len as int, i as int);
        }
        let p: usize = self.region.head + i;
        get_bit(self.buf[p / 8], p % 8)
    }

    /// Sets live bit `i` to `b`, leaving every other live bit and
    /// every element the live region does not touch unchanged.
    pub fn write_bit(&mut self, i: usize, b: bool)
        requires
            old(self).wf(),
            i < old(self).region.len,
        ensures
            final(self).wf(),
            final(self).region == old(self).region,
            final(self).buf.len() == old(self).buf.len(),
            final(self)@ == old(self)@.update(i as int, b),
            forall|k: int|
                0 <= k < old(self).buf.len() && k != (old(self).region.head + i) / 8
                    ==> final(self).buf@[k] == old(self).buf@[k],
    {
        proof {
            lemma_max_bits_bounds();
            lemma_bit_in_live_elems(self.region.head as int, self.region.len as int, i as int);
        }
        let p: usize = self.region.head + i;
        let e: usize = p / 8;
        let v: u8 = set_bit(self.buf[e], p % 8, b);
        self.buf[e] = v;
        proof {
            let head = old(self).region.head as int;
            let len = old(self).region.len as int;
            assert forall|j: int| 0 <= j < len implies self@[j] == old(self)@.update(i as int, b)[j]
                by {
                lemma_bit_in_live_elems(head, len, j);
                lemma_raw_bit_update(old(self).buf@, e as int, v, head + j);
                if j != i {
                    lemma_positions_distinct(head + j, head + i);
                }
            };
            assert(self@ =~= old(self)@.update(i as int, b));
        }
    }

    /// Grows the allocation so that it holds at least `len + additional`
    /// bits.  Never shrinks the capacity and never alters the live
    /// length, head offset or live bit values.  When growth must move
    /// the allocation, the region is rebased to the new allocation's
    /// address, which differs from the old one; when the allocation
    /// already suffices, the buffer is left exactly as it was.
    pub fn reserve(&mut self, additional: usize)
        requires
            old(self).wf(),
            old(self).region.len + additional <= MAX_BITS,
        ensures
            final(self).wf(),
            final(self).region.len == old(self).region.len,
            final(self).region.head == old(self).region.head,
            final(self).buf.len() >= old(self).buf.len(),
            elems_spec(old(self).region.head as int, old(self).region.len + additional)
                <= final(self).buf.len(),
            forall|k: int| 0 <= k < old(self).buf.len() ==> final(self).buf@[k] == old(self).buf@[k],
            final(self)@ == old(self)@,
            elems_spec(old(self).region.head as int, old(self).region.len + additional)
                <= old(self).buf.len() ==> *final(self) == *old(self),
            elems_spec(old(self).region.head as int, old(self).region.len + additional)
                > old(self).buf.len() ==> final(self).region.base != old(self).region.base,
    {
        proof {
            lemma_max_bits_bounds();
        }
        let needed: usize = (self.region.head + (self.region.len + additional) + 7) / 8;
        if needed <= self.buf.len() {
            return ;
        }
        let old_cap: usize = self.buf.len();
        let doubled: usize = if old_cap <= usize::MAX / 4 {
            2 * old_cap
        } else {
            old_cap
        };
        let new_cap: usize = if doubled < needed {
            needed
        } else {
            doubled
        };
        proof {
            lemma_quarter_bound(old_cap as int);
            lemma_elems_monotone(
                self.region.head as int,
                self.region.len as int,
                self.region.head as int,
                self.region.len + additional,
            );
        }
        while self.buf.len() < new_cap
            invariant
                old_cap <= self.buf.len() <= new_cap,
                self.region == old(self).region,
                old_cap == old(self).buf.len(),
                forall|k: int| 0 <= k < old_cap ==> self.buf@[k] == old(self).buf@[k],
            decreases new_cap - self.buf.len(),
        {
            self.buf.push(0u8);
        }
        // The growth moved the allocation: model a fresh address for
        // it, distinct from the old one and leaving the whole block
        // inside the address space.
        let old_base: usize = self.region.base;
        let new_base: usize = if old_base <= usize::MAX - old_cap && old_base + old_cap
            <= usize::MAX - new_cap - 1 {
            old_base + old_cap + 1
        } else if old_base == 0 {
            1
        } else {
            0
        };
        self.region.base = new_base;
        proof {
            lemma_region_bits_congruent(
                old(self).buf@,
                self.buf@,
                self.region.head as int,
                self.region.len as int,
            );
            assert(self@ =~= old(self)@);
        }
    }

    /// Appends the bits of a borrowed region to the buffer: the live
    /// length grows by the region's length, the new tail bits equal
    /// the region's bits, and every old live bit keeps its value.
    /// Reserves first if the allocation does not suffice.
    pub fn extend_from_bitslice(&mut self, elems: &Vec<u8>, head: usize, len: usize)
        requires
            old(self).wf(),
            head < 8,
            len <= MAX_BITS,
            elems_spec(head as int, len as int) <= elems.len(),
            old(self).region.len + len <= MAX_BITS,
        ensures
            final(self).wf(),
            final(self).region.len == old(self).region.len + len,
            final(self).region.head == old(self).region.head,
            final(self)@ == old(self)@ + region_bits(elems@, head as int, len as int),
    {
        let old_len: usize = self.region.len;
        self.reserve(len);
        self.set_len(old_len + len);
        let mut i: usize = 0;
        while i < len
            invariant
                i <= len,
                self.wf(),
                self.region.len == old_len + len,
                self.region.head == old(self).region.head,
                old_len == old(self).region.len,
                head < 8,
                len <= MAX_BITS,
                elems_spec(head as int, len as int) <= elems.len(),
                old_len + len <= MAX_BITS,
                forall|j: int| 0 <= j < old_len ==> self@[j] == old(self)@[j],
                forall|j: int|
                    0 <= j < i ==> self@[old_len + j] == region_bits(
                        elems@,
                        head as int,
                        len as int,
                    )[j],
            decreases len - i,
        {
            proof {
                lemma_max_bits_bounds();
                lemma_bit_in_live_elems(head as int, len as int, i as int);
            }
            let p: usize = head + i;
            let b: bool = get_bit(elems[p / 8], p % 8);
            self.write_bit(old_len + i, b);
            i += 1;
        }
        proof {
            assert(self@ =~= old(self)@ + region_bits(elems@, head as int, len as int));
        }
    }

    /// Clones a borrowed bit region into a new buffer.  The copy is
    /// element by element and preserves the source's head offset
    /// rather than realigning to zero.
    pub fn from_bitslice(elems: &Vec<u8>, head: usize, len: usize) -> (r: Self)
        requires
            head < 8,
            len <= MAX_BITS,
            elems_spec(head as int, len as int) <= elems.len(),
        ensures
            r.wf(),
            r.region.head == head,
            r.region.len == len,
            r.region.base == 0,
            r.buf.len() == elems_spec(head as int, len as int),
            r@ == region_bits(elems@, head as int, len as int),
    {
        proof {
            lemma_max_bits_bounds();
        }
        let n: usize = (head + len + 7) / 8;
        let mut buf: Vec<u8> = Vec::new();
        let mut k: usize = 0;
        while k < n
            invariant
                k <= n,
                n <= elems.len(),
                buf@.len() == k,
                forall|j: int| 0 <= j < k ==> buf@[j] == elems@[j],
            decreases n - k,
        {
            buf.push(elems[k]);
            k += 1;
        }
        let r = BitVec {
            buf,
            region: BitRegionHandle { base: 0, head, len, mode: PhantomData },
        };
        proof {
            lemma_region_bits_congruent(r.buf@, elems@, head as int, len as int);
        }
        r
    }

    /// Clones a borrowed bit region whose storage elements may be
    /// reached through another live handle: every element is read with
    /// a synchronized load before the copy.  As with an exclusive
    /// source, the copy is element by element and preserves the
    /// source's head offset.
    pub fn from_aliased_bitslice(elems: &Vec<AliasElem>, head: usize, len: usize) -> (r: Self)
        requires
            head < 8,
            len <= MAX_BITS,
            elems_spec(head as int, len as int) <= elems.len(),
        ensures
            r.wf(),
            r.region.head == head,
            r.region.len == len,
            r.region.base == 0,
            r.buf.len() == elems_spec(head as int, len as int),
            (r@ == region_bits(
                elems@.map_values(|e: AliasElem| e.value),
                head as int,
                len as int,
            )),
    {
        proof {
            lemma_max_bits_bounds();
        }
        let n: usize = (head + len + 7) / 8;
        let mut buf: Vec<u8> = Vec::new();
        let mut k: usize = 0;
        while k < n
            invariant
                k <= n,
                n <= elems.len(),
                buf@.len() == k,
                forall|j: int| 0 <= j < k ==> buf@[j] == elems@[j].value,
            decreases n - k,
        {
            buf.push(load_aliased_local(&elems[k]));
            k += 1;
        }
        let r = BitVec {
            buf,
            region: BitRegionHandle { base: 0, head, len, mode: PhantomData },
        };
        proof {
            lemma_region_bits_congruent(
                r.buf@,
                elems@.map_values(|e: AliasElem| e.value),
                head as int,
                len as int,
            );
        }
        r
    }

    /// Shifts the live content in place so that the head offset
    /// becomes zero, preserving every live bit.  A buffer whose head
    /// is already zero is left exactly as it was, so a second call in
    /// a row is a no-op.  Bits of the allocation beyond the live
    /// length are not part of this function's contract.
    pub fn force_align(&mut self)
        requires
            old(self).wf(),
        ensures
            final(self).wf(),
            final(self).region.head == 0,
            final(self).region.len == old(self).region.len,
            final(self).region.base == old(self).region.base,
            final(self).buf.len() == old(self).buf.len(),
            final(self)@ == old(self)@,
            old(self).region.head == 0 ==> *final(self) == *old(self),
    {
        if self.region.head == 0 {
            return ;
        }
        let head: usize = self.region.head;
        let len: usize = self.region.len;
        proof {
            lemma_max_bits_bounds();
            lemma_elems_monotone(0, len as int, head as int, len as int);
        }
        let mut i: usize = 0;
        while i < len
            invariant
                i <= len,
                self.region == old(self).region,
                head == old(self).region.head,
                len == old(self).region.len,
                0 < head < 8,
                self.wf(),
                self.buf.len() == old(self).buf.len(),
                forall|p: int|
                    head + i <= p < head + len ==> #[trigger] raw_bit(self.buf@, p) == raw_bit(
                        old(self).buf@,
                        p,
                    ),
                forall|p: int|
                    0 <= p < i ==> #[trigger] raw_bit(self.buf@, p) == raw_bit(
                        old(self).buf@,
                        head + p,
                    ),
            decreases len - i,
        {
            proof {
                lemma_max_bits_bounds();
                lemma_bit_in_live_elems(head as int, len as int, i as int);
                lemma_bit_in_live_elems(0, len as int, i as int);
                lemma_elems_monotone(0, len as int, head as int, len as int);
            }
            let p: usize = head + i;
            let b: bool = get_bit(self.buf[p / 8], p % 8);
            let e: usize = i / 8;
            let v: u8 = set_bit(self.buf[e], i % 8, b);
            let ghost prev = self.buf@;
            self.buf[e] = v;
            proof {
                let hi: int = head as int;
                let ii: int = i as int;
                assert(self.buf@ == prev.update(e as int, v));
                assert forall|p: int|
                    hi + (ii + 1) <= p < hi + len implies #[trigger] raw_bit(self.buf@, p)
                    == raw_bit(old(self).buf@, p) by {
                    lemma_bit_in_live_elems(hi, len as int, p - hi);
                    lemma_raw_bit_update(prev, e as int, v, p);
                    lemma_positions_distinct(p, ii);
                    assert(raw_bit(prev, p) == raw_bit(old(self).buf@, p));
                    if p / 8 == e as int {
                        assert(p % 8 != ii % 8);
                        assert(nth_bit(v, (p % 8) as u8) == nth_bit(prev[e as int], (p % 8) as u8));
                    }
                };
                assert forall|p: int| 0 <= p < ii + 1 implies #[trigger] raw_bit(self.buf@, p)
                    == raw_bit(old(self).buf@, hi + p) by {
                    lemma_bit_in_live_elems(0, len as int, p);
                    lemma_raw_bit_update(prev, e as int, v, p);
                    if p < ii {
                        lemma_positions_distinct(p, ii);
                        assert(raw_bit(prev, p) == raw_bit(old(self).buf@, hi + p));
                        if p / 8 == e as int {
                            assert(p % 8 != ii % 8);
                            assert(nth_bit(v, (p % 8) as u8) == nth_bit(
                                prev[e as int],
                                (p % 8) as u8,
                            ));
                        }
                    } else {
                        lemma_bit_in_live_elems(hi, len as int, ii);
                        assert(raw_bit(prev, hi + ii) == raw_bit(old(self).buf@, hi + ii));
                        assert(b == raw_bit(prev, hi + ii));
                        assert(raw_bit(self.buf@, ii) == nth_bit(v, (ii % 8) as u8));
                        assert(nth_bit(v, (ii % 8) as u8) == b);
                    }
                };
            }
            i += 1;
        }
        self.region.head = 0;
        proof {
            lemma_elems_monotone(0, len as int, head as int, len as int);
            assert(self@ =~= old(self)@);
        }
    }

    /// Converts the buffer into an ordinary vector holding exactly the
    /// storage elements that contain live bits.
    pub fn into_vec(self) -> (r: Vec<u8>)
        requires
            self.wf(),
        ensures
            r@ == self.buf@.subrange(0, self.region.spec_elements()),
    {
        let n: usize = self.region.elements();
        let ghost orig = self.buf@;
        let mut buf: Vec<u8> = self.buf;
        while buf.len() > n
            invariant
                n <= buf.len(),
                buf.len() <= orig.len(),
                buf@ == orig.subrange(0, buf.len() as int),
            decreases buf.len(),
        {
            buf.pop();
            proof {
                assert(buf@ =~= orig.subrange(0, buf.len() as int));
            }
        }
        proof {
            assert(buf@ =~= orig.subrange(0, n as int));
        }
        buf
    }

    /// Consumes the buffer and hands back its parts: the whole
    /// allocation, the head offset, and the live bit length.  The
    /// buffer must not be used afterward; ownership of the allocation
    /// passes to the caller.
    pub fn into_raw_parts(self) -> (r: (Vec<u8>, usize, usize))
        requires
            self.wf(),
        ensures
            r.0@ == self.buf@,
            r.1 == self.region.head,
            r.2 == self.region.len,
    {
        let head: usize = self.region.head;
        let len: usize = self.region.len;
        (self.buf, head, len)
    }

    /// Reconstructs a buffer from raw parts: an allocation, a head
    /// offset and a live bit length.  The parts handed out by
    /// [`BitVec::into_raw_parts`] always satisfy the requirements, and
    /// reconstruction from them reproduces the buffer bit for bit.
    pub fn from_raw_parts(buf: Vec<u8>, head: usize, len: usize) -> (r: Self)
        requires
            head < 8,
            len <= MAX_BITS,
            elems_spec(head as int, len as int) <= buf.len(),
        ensures
            r.wf(),
            r.buf@ == buf@,
            r.region.head == head,
            r.region.len == len,
            r.region.base == 0,
            r@ == region_bits(buf@, head as int, len as int),
    {
        BitVec { buf, region: BitRegionHandle { base: 0, head, len, mode: PhantomData } }
    }

    /// Exchanges the backing allocation with `other`, then re-derives
    /// capacity and region from the adopted vector.
    ///
    /// This is the scoped-borrow operation on the backing storage:
    /// swap the allocation out, let the caller mutate it as an
    /// ordinary vector — including reallocating it — and swap whatever
    /// it has become back in, with a single owner for the allocation
    /// at every instant.  The live window survives unchanged whenever
    /// the adopted vector still holds its elements; when it does not,
    /// the live length is truncated to the bits that remain, and an
    /// empty vector empties the region.
    pub fn swap_vec(&mut self, other: &mut Vec<u8>)
        requires
            old(self).wf(),
            old(self).region.base + old(other).len() <= usize::MAX,
        ensures
            final(self).wf(),
            final(other)@ == old(self).buf@,
            final(self).buf@ == old(other)@,
            final(self).region.base == old(self).region.base,
            elems_spec(old(self).region.head as int, old(self).region.len as int) <= old(
                other,
            ).len() ==> final(self).region == old(self).region,
            old(other).len() == 0 ==> final(self).region.len == 0,
            elems_spec(old(self).region.head as int, old(self).region.len as int) > old(
                other,
            ).len() && old(other).len() > 0 ==> final(self).region.head == old(self).region.head
                && final(self).region.len == 8 * old(other).len() - old(self).region.head,
    {
        proof {
            lemma_max_bits_bounds();
        }
        core::mem::swap(&mut self.buf, other);
        let c: usize = self.buf.len();
        let head: usize = self.region.head;
        let len: usize = self.region.len;
        if (head + len + 7) / 8 <= c {
            proof {
                if c == 0 {
                    lemma_elems_monotone(0, 0, head as int, len as int);
                    assert(elems_spec(0, 0) == 0) by {
                        lemma_hoist(0, 7);
                        assert(7int / 8 == 0) by {
                            vstd::arithmetic::div_mod::lemma_basic_div(7, 8);
                        };
                    };
                }
            }
            return ;
        }
        if c == 0 {
            self.region.head = 0;
            self.region.len = 0;
            proof {
                lemma_hoist(0, 7);
                assert(7int / 8 == 0) by {
                    vstd::arithmetic::div_mod::lemma_basic_div(7, 8);
                };
            }
            return ;
        }
        proof {
            // 8 * c fits: c is below the element count of a region
            // whose numerator fits.
            lemma_elems_is_ceil(head as int, len as int);
            lemma_hoist(c as int, 7);
            assert(7int / 8 == 0) by {
                vstd::arithmetic::div_mod::lemma_basic_div(7, 8);
            };
            vstd::arithmetic::div_mod::lemma_fundamental_div_mod(head + len + 7, 8);
            vstd::arithmetic::div_mod::lemma_mod_division_less_than_divisor(head + len + 7, 8);
        }
        self.region.len = 8 * c - head;
    }

    /// The region handle over the buffer's live bits.
    pub fn as_bitptr(&self) -> (r: BitRegionHandle<Exclusive>)
        ensures
            r == self.region,
    {
        self.region
    }

    /// The region handle over the buffer's live bits, from a buffer
    /// that is being mutated.  The handle goes stale if the buffer
    /// afterwards reallocates.
    pub fn as_mut_bitptr(&mut self) -> (r: BitRegionHandle<Exclusive>)
        ensures
            *final(self) == *old(self),
            r == old(self).region,
    {
        self.region
    }

    /// The buffer's live region packed as a native wide reference:
    /// the bridge through which a live view is constructed over the
    /// buffer's contents.
    pub fn as_bitslice(&self) -> (r: (usize, usize))
        requires
            self.wf(),
        ensures
            r.0 == self.region.base,
            r.1 == 8 * self.region.len + self.region.head,
    {
        self.region.to_wide_reference()
    }

    /// The buffer's live region packed as a native wide reference,
    /// from a buffer that is being mutated.
    pub fn as_mut_bitslice(&mut self) -> (r: (usize, usize))
        requires
            old(self).wf(),
        ensures
            *final(self) == *old(self),
            r.0 == old(self).region.base,
            r.1 == 8 * old(self).region.len + old(self).region.head,
    {
        self.region.to_wide_reference()
    }
}

/// A buffer reconstructed from another's parts — the same elements,
/// head offset and live length — holds bit for bit the same live
/// content.
pub proof fn lemma_raw_parts_round_trip(a: BitVec, b: BitVec)
    requires
        a.wf(),
        b.buf@ == a.buf@,
        b.region.head == a.region.head,
        b.region.len == a.region.len,
    ensures
        b@ == a@,
{
}

/// A quarter of the address space, doubled, still fits in it.
proof fn lemma_quarter_bound(c: int)
    requires
        0 <= c <= usize::MAX / 4,
    ensures
        2 * c <= usize::MAX - 1,
{
    vstd::arithmetic::div_mod::lemma_fundamental_div_mod(usize::MAX as int, 4);
    vstd::arithmetic::div_mod::lemma_mod_division_less_than_divisor(usize::MAX as int, 4);
}

} // verus!
