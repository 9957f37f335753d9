//! Bit-addressable regions over runs of storage elements.
//!
//! The crate models a run of memory as a sequence of 8-bit storage
//! elements and provides:
//!
//! - [`handle::BitRegionHandle`]: a compact descriptor of which bits of
//!   which elements are live, convertible to and from a wide-reference
//!   word pair without loss;
//! - [`alias::Exclusive`] and [`alias::Aliased`] marker types that
//!   record, in a handle's type, whether a storage element may be
//!   reached through another live handle;
//! - [`buffer::BitVec`]: a growable, owned bit buffer with reservation,
//!   bulk fill, realignment and raw-parts extraction;
//! - [`range`]: normalization and validation of the range expressions
//!   used by every slicing operation.

pub mod alias;
pub mod buffer;
pub mod handle;
pub mod mem;
pub mod range;
