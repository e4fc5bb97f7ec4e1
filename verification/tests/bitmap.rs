use clalloc::round_up;
use clalloc::GcBitmap;
use clalloc::Mem;
use clalloc::ObjectHeader;
use clalloc::CELL_SIZE;
use clalloc::PAGE_SIZE;

#[test]
fn round_up_rounds_to_the_next_multiple() {
    assert_eq!(round_up(0, PAGE_SIZE), 0);
    assert_eq!(round_up(1, PAGE_SIZE), 4096);
    assert_eq!(round_up(4096, PAGE_SIZE), 4096);
    assert_eq!(round_up(4097, PAGE_SIZE), 8192);
    assert_eq!(round_up(7, 3), 9);
    assert_eq!(round_up(9, 3), 9);
    assert_eq!(round_up(5, 0), 5);
}

#[test]
fn mem_rounds_its_size_to_whole_pages() {
    let m = Mem::new(0x4000, 5000);
    assert_eq!(m.start(), 0x4000);
    assert_eq!(m.size(), 8192);
    assert_eq!(m.end(), 0x4000 + 8192);
    let one = Mem::new(0x4000, PAGE_SIZE);
    assert_eq!(one.size(), PAGE_SIZE);
}

#[test]
fn bitmap_is_sized_one_bit_per_cell_and_starts_clear() {
    let m = Mem::new(0x4000, PAGE_SIZE);
    let b = GcBitmap::new(&m);
    // 256 cells, 64 bits per word
    assert_eq!(b.size(), 4);
    for i in 0..256 {
        assert!(!b.get(0x4000 + i * CELL_SIZE));
    }
    assert_eq!(b._index(0), Some(0));
    assert_eq!(b._index(4), None);
}

#[test]
fn bitmap_set_flips_exactly_one_bit() {
    let m = Mem::new(0x4000, PAGE_SIZE);
    let mut b = GcBitmap::new(&m);
    let addr = 0x4000 + 70 * CELL_SIZE;
    b.set::<true>(addr);
    for i in 0..256 {
        let c = 0x4000 + i * CELL_SIZE;
        assert_eq!(b.get(c), i == 70);
    }
    // the bit lives in the second word
    assert_eq!(b.index_unchecked(1), 1u64 << 6);
    b.set::<false>(addr);
    for i in 0..256 {
        assert!(!b.get(0x4000 + i * CELL_SIZE));
    }
}

#[test]
fn bitmap_set_all_sets_every_bit() {
    let m = Mem::new(0x4000, PAGE_SIZE);
    let mut b = GcBitmap::new(&m);
    b.set_all();
    for i in 0..256 {
        assert!(b.get(0x4000 + i * CELL_SIZE));
    }
    assert_eq!(b.index_unchecked(0), u64::MAX);
}

#[test]
fn bitmap_addresses_inside_one_cell_share_a_bit() {
    let m = Mem::new(0x4000, PAGE_SIZE);
    let mut b = GcBitmap::new(&m);
    b.set::<true>(0x4000 + 3 * CELL_SIZE + 7);
    assert!(b.get(0x4000 + 3 * CELL_SIZE));
    assert!(b.get(0x4000 + 3 * CELL_SIZE + 15));
    assert!(!b.get(0x4000 + 2 * CELL_SIZE));
    assert!(!b.get(0x4000 + 4 * CELL_SIZE));
}

#[test]
fn offset_translation_formulas() {
    assert_eq!(GcBitmap::bit_index_to_offset(0), 0);
    assert_eq!(GcBitmap::bit_index_to_offset(3), 48);
    assert_eq!(GcBitmap::offset_to_index(0), 0);
    assert_eq!(GcBitmap::offset_to_index(1023), 0);
    assert_eq!(GcBitmap::offset_to_index(1024), 1);
    assert_eq!(GcBitmap::offset_bit_index(0), 0);
    assert_eq!(GcBitmap::offset_bit_index(16), 1);
    assert_eq!(GcBitmap::offset_bit_index(1040), 1);
    assert_eq!(GcBitmap::offset_to_mask(32), 4);
    assert_eq!(GcBitmap::offset_to_mask(0), 1);
}

#[test]
fn object_header_getters_and_set_size() {
    let mut h = ObjectHeader::new(42, 100, 8);
    assert_eq!(h.ty(), 42);
    assert_eq!(h.size(), 100);
    assert_eq!(h.max_size(), 8 * CELL_SIZE);
    h.set_size(128);
    assert_eq!(h.size(), 128);
    assert_eq!(h.max_size(), 8 * CELL_SIZE);
    assert_eq!(h.ty(), 42);
}
