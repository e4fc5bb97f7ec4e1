use clalloc::CLAlloc;
use clalloc::CELL_SIZE;
use clalloc::PAGE_SIZE;

#[test]
fn test() {
    let mut a = CLAlloc::new();
    let base: usize = 0x10000;
    let base2: usize = 0x20000;
    let ptr = a.allocate(8, base).unwrap();
    let ptr2 = a.allocate(4, base2).unwrap();

    assert_eq!(
        (a._page(0).block.get(ptr), a._page(0).mark.get(ptr)),
        (true, false),
        "Assert pointer is white"
    );
    a.mark(ptr);
    assert_eq!(
        (a._page(0).block.get(ptr), a._page(0).mark.get(ptr)),
        (true, true),
        "Assert pointer is black"
    );

    a.sweep();
    assert_eq!(
        (a._page(0).block.get(ptr), a._page(0).mark.get(ptr)),
        (true, false),
        "Assert pointer is white"
    );

    assert_eq!(
        (a._page(0).block.get(ptr2), a._page(0).mark.get(ptr2)),
        (false, true),
        "Assert pointer is free"
    );

    a.allocate(2, base2);
    assert_eq!(
        (a._page(0).block.get(ptr2), a._page(0).mark.get(ptr2)),
        (true, false),
        "Assert pointer is white"
    );
}

#[test]
fn first_allocation_grows_one_page() {
    let mut a = CLAlloc::new();
    assert_eq!(a.pages.len(), 0);
    let ptr = a.allocate(3, 0x40000).unwrap();
    assert_eq!(ptr, 0x40000);
    assert_eq!(a.pages.len(), 1);
}

#[test]
fn allocations_are_first_fit_in_page_order() {
    let mut a = CLAlloc::new();
    let base: usize = 0x10000;
    let p1 = a.allocate(8, base).unwrap();
    let p2 = a.allocate(4, 0x20000).unwrap();
    assert_eq!(p1, base);
    assert_eq!(p2, base + 8 * CELL_SIZE);
    assert_eq!(a.pages.len(), 1);
}

#[test]
fn marked_run_survives_sweep_unmarked_is_reclaimed() {
    let mut a = CLAlloc::new();
    let base: usize = 0x10000;
    let p1 = a.allocate(8, base).unwrap();
    let p2 = a.allocate(4, 0x20000).unwrap();
    assert!(a.mark(p2));

    a.sweep();
    // the unmarked 8-cell run is gone: every one of its cells reads free
    for i in 0..8 {
        let c = p1 + i * CELL_SIZE;
        assert_eq!((a._page(0).block.get(c), a._page(0).mark.get(c)), (false, true));
    }
    // the marked 4-cell run survives: header back to white, extents kept
    assert_eq!((a._page(0).block.get(p2), a._page(0).mark.get(p2)), (true, false));
    for i in 1..4 {
        let c = p2 + i * CELL_SIZE;
        assert_eq!((a._page(0).block.get(c), a._page(0).mark.get(c)), (false, false));
    }
    // a new 2-cell run lands inside the reclaimed region, at its start
    let p3 = a.allocate(2, 0x30000).unwrap();
    assert_eq!(p3, p1);
    assert_eq!(a.pages.len(), 1);
    // and the surviving run is undisturbed
    assert_eq!((a._page(0).block.get(p2), a._page(0).mark.get(p2)), (true, false));
    for i in 1..4 {
        let c = p2 + i * CELL_SIZE;
        assert_eq!((a._page(0).block.get(c), a._page(0).mark.get(c)), (false, false));
    }
}

#[test]
fn unmarked_run_address_is_reused() {
    let mut a = CLAlloc::new();
    let base: usize = 0x50000;
    let p1 = a.allocate(6, base).unwrap();
    a.sweep();
    // the page came out entirely free and was released
    assert_eq!(a.pages.len(), 0);
    // allocate again with the same fresh region: the same address comes back
    let p2 = a.allocate(6, base).unwrap();
    assert_eq!(p2, p1);
}

#[test]
fn marking_an_interior_address_blackens_the_header() {
    let mut a = CLAlloc::new();
    let base: usize = 0x10000;
    let p = a.allocate(4, base).unwrap();
    // an address inside the third cell of the run, not even cell-aligned
    let interior = p + 2 * CELL_SIZE + 3;
    assert!(a.mark(interior));
    // the header went white to black ...
    assert_eq!((a._page(0).block.get(p), a._page(0).mark.get(p)), (true, true));
    // ... and the interior cells are still extents
    for i in 1..4 {
        let c = p + i * CELL_SIZE;
        assert_eq!((a._page(0).block.get(c), a._page(0).mark.get(c)), (false, false));
    }
}

#[test]
fn marking_a_foreign_address_is_ignored() {
    let mut a = CLAlloc::new();
    let base: usize = 0x10000;
    let p = a.allocate(4, base).unwrap();
    assert!(!a.mark(0x90000));
    assert!(!a.mark(base + PAGE_SIZE));
    // nothing changed
    assert_eq!((a._page(0).block.get(p), a._page(0).mark.get(p)), (true, false));
    assert_eq!(a.pages.len(), 1);
}

#[test]
fn exhausted_pages_grow_exactly_one_fully_formed_page() {
    let mut a = CLAlloc::new();
    let base: usize = 0x10000;
    let base2: usize = 0x20000;
    // fill the first page completely
    let p1 = a.allocate(256, base).unwrap();
    assert_eq!(p1, base);
    assert_eq!(a.pages.len(), 1);
    // the next request cannot fit: exactly one new page appears
    let p2 = a.allocate(4, base2).unwrap();
    assert_eq!(p2, base2);
    assert_eq!(a.pages.len(), 2);
    // the new page is fully formed: the run at its start, the rest free
    assert_eq!((a._page(1).block.get(p2), a._page(1).mark.get(p2)), (true, false));
    for i in 1..4 {
        let c = p2 + i * CELL_SIZE;
        assert_eq!((a._page(1).block.get(c), a._page(1).mark.get(c)), (false, false));
    }
    for i in 4..256 {
        let c = p2 + i * CELL_SIZE;
        assert_eq!((a._page(1).block.get(c), a._page(1).mark.get(c)), (false, true));
    }
}

#[test]
fn request_beyond_one_page_returns_nothing() {
    let mut a = CLAlloc::new();
    // more cells than a page holds: no fit even in the grown page
    let r = a.allocate(257, 0x10000);
    assert!(r.is_none());
    // the grown page stays, entirely free
    assert_eq!(a.pages.len(), 1);
    assert!(a._page(0).is_empty());
}

#[test]
fn sweep_releases_empty_pages_and_reports_their_starts() {
    let mut a = CLAlloc::new();
    let base: usize = 0x10000;
    let base2: usize = 0x20000;
    let p1 = a.allocate(256, base).unwrap();
    let p2 = a.allocate(2, base2).unwrap();
    assert_eq!(a.pages.len(), 2);
    // keep only the second page's run
    assert!(a.mark(p2));
    let released = a.sweep();
    assert_eq!(released, vec![base]);
    assert_eq!(a.pages.len(), 1);
    assert_eq!((a._page(0).block.get(p2), a._page(0).mark.get(p2)), (true, false));
    assert!(!a.mark(p1));
}

#[test]
fn default_allocator_is_empty() {
    let a = CLAlloc::default();
    assert_eq!(a.pages.len(), 0);
}
