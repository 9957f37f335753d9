use bitvec::alias::{alias_mem, load_aliased_local, remove_alias, AliasElem};
use bitvec::handle::{alias_bitptr, remove_bitptr_alias, BitRegionHandle};
use bitvec::mem::{get_bit, set_bit, MAX_BITS};
use bitvec::range::{assert_range, normalize_range, BitSpan, RangeBound, RangeError};

#[test]
fn elements_counts_touched_storage() {
    // head 2, len 4: bits 2..6 of the first element only.
    let h: BitRegionHandle<bitvec::alias::Exclusive> = BitRegionHandle::from_raw(0, 2, 4);
    assert_eq!(h.elements(), 1);
    // head 6, len 4: bits 6..10 straddle two elements.
    let h2: BitRegionHandle<bitvec::alias::Exclusive> = BitRegionHandle::from_raw(0, 6, 4);
    assert_eq!(h2.elements(), 2);
}

#[test]
fn elements_of_empty_regions() {
    let aligned: BitRegionHandle<bitvec::alias::Exclusive> = BitRegionHandle::from_raw(5, 0, 0);
    assert_eq!(aligned.elements(), 0);
    // An empty region at a non-zero head still addresses one element.
    let offset: BitRegionHandle<bitvec::alias::Exclusive> = BitRegionHandle::from_raw(5, 3, 0);
    assert_eq!(offset.elements(), 1);
}

#[test]
fn wide_reference_round_trip() {
    let h: BitRegionHandle<bitvec::alias::Exclusive> = BitRegionHandle::from_raw(1234, 3, 57);
    let (addr, len_word) = h.to_wide_reference();
    assert_eq!(addr, 1234);
    assert_eq!(len_word, 8 * 57 + 3);
    let back: BitRegionHandle<bitvec::alias::Exclusive> =
        BitRegionHandle::from_wide_reference(addr, len_word);
    assert_eq!(back.base, h.base);
    assert_eq!(back.head, h.head);
    assert_eq!(back.len, h.len);
}

#[test]
fn wide_reference_round_trip_extremes() {
    let zero: BitRegionHandle<bitvec::alias::Exclusive> = BitRegionHandle::from_raw(0, 0, 0);
    let (a, w) = zero.to_wide_reference();
    assert_eq!((a, w), (0, 0));
    let back: BitRegionHandle<bitvec::alias::Exclusive> =
        BitRegionHandle::from_wide_reference(a, w);
    assert_eq!((back.base, back.head, back.len), (0, 0, 0));

    let big: BitRegionHandle<bitvec::alias::Exclusive> = BitRegionHandle::from_raw(0, 7, MAX_BITS);
    let (a2, w2) = big.to_wide_reference();
    let back2: BitRegionHandle<bitvec::alias::Exclusive> =
        BitRegionHandle::from_wide_reference(a2, w2);
    assert_eq!((back2.base, back2.head, back2.len), (0, 7, MAX_BITS));
}

#[test]
fn rebase_and_set_head_leave_the_rest() {
    let mut h: BitRegionHandle<bitvec::alias::Exclusive> = BitRegionHandle::from_raw(10, 5, 12);
    h.rebase(99);
    assert_eq!((h.base, h.head, h.len), (99, 5, 12));
    h.set_head(0);
    assert_eq!((h.base, h.head, h.len), (99, 0, 12));
}

#[test]
fn split_inside_element_shares_the_edge() {
    // head 4, len 20 starting at element 10: bits 4..24, elements 10..13.
    let h: BitRegionHandle<bitvec::alias::Exclusive> = BitRegionHandle::from_raw(10, 4, 20);
    // Offset 6: bit position 10 falls inside element 11.
    let (lower, upper) = h.split_at(6);
    assert_eq!((lower.base, lower.head, lower.len), (10, 4, 6));
    assert_eq!((upper.base, upper.head, upper.len), (11, 2, 14));
    // Both report element 11 among their touched elements.
    assert_eq!(lower.elements(), 2);
    assert!(lower.base <= 11 && 11 < lower.base + lower.elements());
    assert!(upper.base <= 11 && 11 < upper.base + upper.elements());
}

#[test]
fn split_on_element_boundary_shares_nothing() {
    let h: BitRegionHandle<bitvec::alias::Exclusive> = BitRegionHandle::from_raw(10, 4, 20);
    // Offset 4: bit position 8 is exactly the start of element 11.
    let (lower, upper) = h.split_at(4);
    assert_eq!((lower.base, lower.head, lower.len), (10, 4, 4));
    assert_eq!((upper.base, upper.head, upper.len), (11, 0, 16));
    // The lower part touches only element 10; the upper starts at 11.
    assert_eq!(lower.elements(), 1);
    assert_eq!(lower.base + lower.elements(), upper.base);
}

#[test]
fn alias_markers_round_trip_values() {
    let e: AliasElem = alias_mem(0xB7);
    assert_eq!(load_aliased_local(&e), 0xB7);
    assert_eq!(remove_alias(e), 0xB7);
}

#[test]
fn alias_marker_round_trip_on_handles() {
    let h: BitRegionHandle<bitvec::alias::Exclusive> = BitRegionHandle::from_raw(7, 1, 9);
    let a = alias_bitptr(h);
    assert_eq!((a.base, a.head, a.len), (7, 1, 9));
    let x = remove_bitptr_alias(a);
    assert_eq!((x.base, x.head, x.len), (7, 1, 9));
}

#[test]
fn fetch_or_and_fetch_and_touch_only_masked_bits() {
    let mut e: AliasElem = alias_mem(0b0101_0000);
    let before = e.fetch_or(0b0000_1010);
    assert_eq!(before, 0b0101_0000);
    assert_eq!(load_aliased_local(&e), 0b0101_1010);
    let before2 = e.fetch_and(!0b0000_0010);
    assert_eq!(before2, 0b0101_1010);
    assert_eq!(load_aliased_local(&e), 0b0101_1000);
}

#[test]
fn element_bit_helpers() {
    assert!(get_bit(0b0000_0100, 2));
    assert!(!get_bit(0b0000_0100, 3));
    assert_eq!(set_bit(0b0000_0000, 5, true), 0b0010_0000);
    assert_eq!(set_bit(0b1111_1111, 0, false), 0b1111_1110);
}

#[test]
fn normalize_unbounded_start_inclusive_end() {
    let r = normalize_range(RangeBound::Unbounded, RangeBound::Included(4), 10);
    assert_eq!(r, BitSpan { start: 0, end: 5 });
}

#[test]
fn normalize_inclusive_start_unbounded_end() {
    let r = normalize_range(RangeBound::Included(2), RangeBound::Unbounded, 10);
    assert_eq!(r, BitSpan { start: 2, end: 10 });
}

#[test]
fn normalize_exclusive_bounds_and_no_clamping() {
    let r = normalize_range(RangeBound::Excluded(3), RangeBound::Excluded(9), 10);
    assert_eq!(r, BitSpan { start: 4, end: 9 });
    // The end is not clamped to the default end.
    let r2 = normalize_range(RangeBound::Unbounded, RangeBound::Included(20), 10);
    assert_eq!(r2, BitSpan { start: 0, end: 21 });
}

#[test]
fn validate_rejects_malformed_range() {
    let r = assert_range(BitSpan { start: 5, end: 3 }, Some(100));
    assert_eq!(r, Err(RangeError::Malformed { start: 5, end: 3 }));
    let r2 = assert_range(BitSpan { start: 5, end: 3 }, None);
    assert_eq!(r2, Err(RangeError::Malformed { start: 5, end: 3 }));
}

#[test]
fn validate_rejects_out_of_bounds_range() {
    let r = assert_range(BitSpan { start: 0, end: 11 }, Some(10));
    assert_eq!(r, Err(RangeError::OutOfBounds { start: 0, end: 11, limit: 10 }));
}

#[test]
fn validate_accepts_range_at_limit() {
    assert_eq!(assert_range(BitSpan { start: 0, end: 10 }, Some(10)), Ok(()));
    // Without a limit only malformedness is checked.
    assert_eq!(assert_range(BitSpan { start: 3, end: 1_000_000 }, None), Ok(()));
}
