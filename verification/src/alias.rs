//! Type-level aliasing markers for storage elements.
//!
//! When a bit region is split at an offset inside an element, both
//! resulting sub-regions touch that edge element, and neither side may
//! mutate it with plain read-modify-write without risking a lost update
//! from the other.  The marker types here record in a handle's or
//! element's type whether such overlap may exist: [`Exclusive`] means
//! the current handle alone reaches the element, [`Aliased`] means
//! another live handle may reach it too.
//!
//! An [`AliasElem`] stands for an element reachable through more than
//! one handle; its accesses model the synchronized read-modify-write
//! primitives such an element demands, each update touching only the
//! bits its mask names.

use vstd::prelude::*;
use crate::mem::nth_bit;

verus! {

/// Marker: the element or region is reachable through the current
/// handle alone.
pub struct Exclusive;

/// Marker: the element or region may be reachable through another live
/// handle concurrently.
pub struct Aliased;

/// A storage element that may be shared between handles.  All access
/// goes through whole-value loads and masked read-modify-write updates,
/// so that concurrent bit-level writers compose: each write affects
/// only the bits its mask names.
pub struct AliasElem {
    /// The element's current value.
    pub value: u8,
}

/// Marks a plain element value as possibly aliased.
///
/// The caller is establishing that, from this point on, the element the
/// value stands for may be referenced by another live handle.
pub fn alias_mem(x: u8) -> (r: AliasElem)
    ensures
        r.value == x,
{
    AliasElem { value: x }
}

/// Strips the aliasing marker from an element value.
///
/// The caller must have established that no other live handle reaches
/// the element any longer.
pub fn remove_alias(x: AliasElem) -> (r: u8)
    ensures
        r == x.value,
{
    x.value
}

/// Loads an aliased element into an unmarked local value, suitable for
/// non-shared computation.
pub fn load_aliased_local(x: &AliasElem) -> (r: u8)
    ensures
        r == x.value,
{
    x.value
}

impl AliasElem {
    /// Sets every bit named by `mask`, leaves every other bit unchanged,
    /// and returns the value the element held before the update.
    pub fn fetch_or(&mut self, mask: u8) -> (prev: u8)
        ensures
            prev == old(self).value,
            final(self).value == old(self).value | mask,
            forall|j: u8|
                j < 8 ==> nth_bit(final(self).value, j) == (nth_bit(old(self).value, j) || nth_bit(
                    mask,
                    j,
                )),
    {
        let prev: u8 = self.value;
        self.value = self.value | mask;
        proof {
            let v: u8 = prev;
            let m: u8 = mask;
            assert(forall|j: u8|
                j < 8 ==> nth_bit(v | m, j) == (nth_bit(v, j) || nth_bit(m, j))) by (bit_vector);
        }
        prev
    }

    /// Clears every bit not named by `mask`, leaves every bit named by
    /// `mask` unchanged, and returns the value the element held before
    /// the update.
    pub fn fetch_and(&mut self, mask: u8) -> (prev: u8)
        ensures
            prev == old(self).value,
            final(self).value == old(self).value & mask,
            forall|j: u8|
                j < 8 ==> nth_bit(final(self).value, j) == (nth_bit(old(self).value, j) && nth_bit(
                    mask,
                    j,
                )),
    {
        let prev: u8 = self.value;
        self.value = self.value & mask;
        proof {
            let v: u8 = prev;
            let m: u8 = mask;
            assert(forall|j: u8|
                j < 8 ==> nth_bit(v & m, j) == (nth_bit(v, j) && nth_bit(m, j))) by (bit_vector);
        }
        prev
    }
}

} // verus!
