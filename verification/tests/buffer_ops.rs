use bitvec::buffer::BitVec;
use bitvec::mem::BITS_PER_ELEM;

fn bits_of(b: &BitVec) -> Vec<bool> {
    let mut out: Vec<bool> = Vec::new();
    let mut i = 0;
    while i < b.len() {
        out.push(b.read_bit(i));
        i += 1;
    }
    out
}

#[test]
fn with_capacity_rounds_up_to_elements() {
    let b = BitVec::with_capacity(20);
    assert_eq!(b.len(), 0);
    assert_eq!(b.capacity(), 3);
    let empty = BitVec::with_capacity(0);
    assert_eq!(empty.capacity(), 0);
}

#[test]
fn repeat_true_20_touches_three_elements_all_ones() {
    let mut b = BitVec::repeat(true, 20);
    assert_eq!(b.len(), 20);
    assert_eq!(b.elements(), 3);
    b.force_align();
    // The two fully-live elements are all ones; of the third only the
    // in-bounds bits 16..20 are part of the contract.
    assert_eq!(b.element(0), 0xFF);
    assert_eq!(b.element(1), 0xFF);
    for i in 0..20 {
        assert!(b.read_bit(i));
    }
}

#[test]
fn repeat_false_is_all_zeros() {
    let b = BitVec::repeat(false, 11);
    assert_eq!(b.len(), 11);
    assert_eq!(b.elements(), 2);
    for i in 0..11 {
        assert!(!b.read_bit(i));
    }
}

#[test]
fn set_elements_overwrites_live_elements() {
    let mut b = BitVec::repeat(false, 10);
    assert_eq!((b.element(0), b.element(1)), (0, 0));
    b.set_elements(0xA5);
    assert_eq!((b.element(0), b.element(1)), (0xA5, 0xA5));
    assert_eq!(b.len(), 10);
}

#[test]
fn from_bitslice_preserves_head_and_bits() {
    // Element 0b0011_1100 viewed from bit 2 for 4 bits: 1, 1, 1, 1... the
    // source bits 2..6 of 0x3C are all ones.
    let src = vec![0x3Cu8];
    let b = BitVec::from_bitslice(&src, 2, 4);
    assert_eq!(b.len(), 4);
    assert_eq!(b.as_bitptr().head, 2);
    assert_eq!(bits_of(&b), vec![true, true, true, true]);
    // The copy is element-wise: the whole source element came along.
    assert_eq!(b.element(0), 0x3C);
}

#[test]
fn from_bitslice_with_straddling_region() {
    // Bits 6..10 of [0b0100_0000, 0b0000_0010]: bits 6,7 of the first
    // element (1, 0) then bits 0,1 of the second (0, 1).
    let src = vec![0b0100_0000u8, 0b0000_0010u8];
    let b = BitVec::from_bitslice(&src, 6, 4);
    assert_eq!(bits_of(&b), vec![true, false, false, true]);
}

#[test]
fn reserve_never_shrinks_and_preserves_content() {
    let src = vec![0b1010_0110u8];
    let mut b = BitVec::from_bitslice(&src, 1, 6);
    let bits_before = bits_of(&b);
    let cap_before = b.capacity();
    let head_before = b.as_bitptr().head;

    // A reservation that already fits changes nothing.
    b.reserve(1);
    assert_eq!(b.capacity(), cap_before);
    assert_eq!(bits_of(&b), bits_before);

    // A reservation that must grow keeps length, head and bits, and
    // rebases the region to the moved allocation's address.
    let base_before = b.as_bitptr().base;
    b.reserve(100);
    assert!(b.capacity() >= cap_before);
    assert!(b.capacity() * 8 >= b.len() + 100);
    assert_eq!(b.len(), 6);
    assert_eq!(b.as_bitptr().head, head_before);
    assert_eq!(bits_of(&b), bits_before);
    assert_ne!(b.as_bitptr().base, base_before);
}

#[test]
fn set_len_exposes_allocated_bits() {
    let mut b = BitVec::with_capacity(16);
    b.set_len(9);
    assert_eq!(b.len(), 9);
    // with_capacity zero-fills the allocation, so the newly live bits
    // read as zeros here.
    for i in 0..9 {
        assert!(!b.read_bit(i));
    }
}

#[test]
fn write_and_read_single_bits() {
    let mut b = BitVec::repeat(false, 12);
    b.write_bit(0, true);
    b.write_bit(7, true);
    b.write_bit(8, true);
    let expect = vec![
        true, false, false, false, false, false, false, true, true, false, false, false,
    ];
    assert_eq!(bits_of(&b), expect);
}

#[test]
fn extend_from_bitslice_appends_bits() {
    // B with bits [1, 0, 1].
    let mut b = BitVec::repeat(true, 3);
    b.write_bit(1, false);
    assert_eq!(bits_of(&b), vec![true, false, true]);
    // R with bits [1, 1].
    let r = vec![0b0000_0011u8];
    b.extend_from_bitslice(&r, 0, 2);
    assert_eq!(b.len(), 5);
    assert_eq!(bits_of(&b), vec![true, false, true, true, true]);
}

#[test]
fn extend_from_offset_region_and_into_unaligned_buffer() {
    // A buffer whose own head is 5.
    let own = vec![0b1110_0000u8];
    let mut b = BitVec::from_bitslice(&own, 5, 3);
    assert_eq!(bits_of(&b), vec![true, true, true]);
    // Append bits 6..9 of a two-element source: 0, 1, 0.
    let src = vec![0b1011_1111u8, 0b0000_0000u8];
    b.extend_from_bitslice(&src, 6, 3);
    assert_eq!(b.len(), 6);
    assert_eq!(bits_of(&b), vec![true, true, true, false, true, false]);
    assert_eq!(b.as_bitptr().head, 5);
}

#[test]
fn force_align_moves_head_to_zero_and_keeps_bits() {
    let src = vec![0b0011_1100u8];
    let mut b = BitVec::from_bitslice(&src, 2, 4);
    assert_eq!(b.as_bitptr().head, 2);
    let bits_before = bits_of(&b);
    b.force_align();
    assert_eq!(b.as_bitptr().head, 0);
    assert_eq!(b.len(), 4);
    assert_eq!(bits_of(&b), bits_before);
    // The live bits now sit at the leading edge of element 0.
    assert_eq!(b.element(0) & 0x0F, 0x0F);
}

#[test]
fn force_align_twice_equals_once() {
    let src = vec![0b1010_1010u8, 0b0101_0101u8];
    let mut b = BitVec::from_bitslice(&src, 3, 10);
    b.force_align();
    let bits_once = bits_of(&b);
    let state_once = (b.as_bitptr().base, b.as_bitptr().head, b.len(), b.capacity());
    b.force_align();
    assert_eq!(bits_of(&b), bits_once);
    let state_twice = (b.as_bitptr().base, b.as_bitptr().head, b.len(), b.capacity());
    assert_eq!(state_twice, state_once);
}

#[test]
fn into_vec_keeps_exactly_the_live_elements() {
    let b = BitVec::repeat(true, 9);
    assert_eq!(b.elements(), 2);
    let v = b.into_vec();
    assert_eq!(v, vec![0xFF, 0xFF]);
    let empty = BitVec::with_capacity(30);
    assert_eq!(empty.into_vec(), Vec::<u8>::new());
}

#[test]
fn raw_parts_round_trip_is_bit_for_bit() {
    let src = vec![0xA5u8, 0x3Cu8];
    let b = BitVec::from_bitslice(&src, 3, 10);
    let bits_before = bits_of(&b);
    let (buf, head, len) = b.into_raw_parts();
    assert_eq!((head, len), (3, 10));
    let rebuilt = BitVec::from_raw_parts(buf, head, len);
    assert_eq!(rebuilt.len(), 10);
    assert_eq!(rebuilt.as_bitptr().head, 3);
    assert_eq!(bits_of(&rebuilt), bits_before);
}

#[test]
fn from_aliased_bitslice_reads_shared_elements() {
    // Bits 6..10 of a pair of possibly shared elements, as in the
    // exclusive-source case but through synchronized loads.
    let src = vec![
        bitvec::alias::alias_mem(0b0100_0000),
        bitvec::alias::alias_mem(0b0000_0010),
    ];
    let b = BitVec::from_aliased_bitslice(&src, 6, 4);
    assert_eq!(b.as_bitptr().head, 6);
    assert_eq!(bits_of(&b), vec![true, false, false, true]);
}

#[test]
fn swap_vec_borrow_mutate_reclaim() {
    // B with bits [1, 0, 1, 1] starting at head 0.
    let mut b = BitVec::repeat(true, 4);
    b.write_bit(1, false);
    let bits_before = bits_of(&b);
    // Borrow the allocation, grow it as an ordinary vector, reclaim.
    let mut v: Vec<u8> = Vec::new();
    b.swap_vec(&mut v);
    assert_eq!(b.len(), 0);
    v.push(0xFF);
    b.swap_vec(&mut v);
    assert_eq!(v, Vec::<u8>::new());
    assert_eq!(b.capacity(), 2);
    // The region was emptied by the first swap, so the live window
    // stays empty until the caller sets a length again.
    b.set_len(4);
    assert_eq!(bits_of(&b), bits_before);
}

#[test]
fn swap_vec_truncates_to_what_remains() {
    let mut b = BitVec::repeat(true, 20);
    assert_eq!(b.elements(), 3);
    // Adopt a smaller allocation: only one element's bits stay live.
    let mut v: Vec<u8> = vec![0x0F];
    b.swap_vec(&mut v);
    assert_eq!(v.len(), 3);
    assert_eq!(b.len(), 8);
    assert_eq!(b.capacity(), 1);
    let expect = vec![true, true, true, true, false, false, false, false];
    assert_eq!(bits_of(&b), expect);
}

#[test]
fn elements_follow_the_element_width() {
    let b = BitVec::repeat(true, 2 * BITS_PER_ELEM + 1);
    assert_eq!(b.elements(), 3);
}

#[test]
fn wide_reference_of_the_live_region() {
    let mut b = BitVec::repeat(true, 13);
    let (addr, len_word) = b.as_bitslice();
    assert_eq!(addr, b.as_bitptr().base);
    assert_eq!(len_word, 8 * 13);
    let (addr2, len_word2) = b.as_mut_bitslice();
    assert_eq!((addr2, len_word2), (addr, len_word));
    let h = b.as_mut_bitptr();
    assert_eq!((h.head, h.len), (0, 13));
}
