use clalloc::Page;
use clalloc::CELLS_PER_PAGE;
use clalloc::CELL_SIZE;

#[test]
fn fresh_page_is_entirely_free_and_empty() {
    let base: usize = 0x8000;
    let page = Page::new(base);
    for i in 0..CELLS_PER_PAGE {
        let c = base + i * CELL_SIZE;
        assert_eq!((page.block.get(c), page.mark.get(c)), (false, true));
    }
    assert!(page.is_empty());
}

#[test]
fn allocation_paints_a_white_header_and_extents() {
    let base: usize = 0x8000;
    for n in [1usize, 2, 5, 256] {
        let mut page = Page::new(base);
        let addr = page.find_free_run(n).unwrap();
        assert_eq!(addr, base);
        assert_eq!((page.block.get(addr), page.mark.get(addr)), (true, false));
        for i in 1..n {
            let c = addr + i * CELL_SIZE;
            assert_eq!((page.block.get(c), page.mark.get(c)), (false, false));
        }
        for i in n..CELLS_PER_PAGE {
            let c = base + i * CELL_SIZE;
            assert_eq!((page.block.get(c), page.mark.get(c)), (false, true));
        }
        assert!(!page.is_empty());
    }
}

#[test]
fn find_free_run_skips_allocated_runs() {
    let base: usize = 0x8000;
    let mut page = Page::new(base);
    let p1 = page.find_free_run(3).unwrap();
    let p2 = page.find_free_run(3).unwrap();
    assert_eq!(p1, base);
    assert_eq!(p2, base + 3 * CELL_SIZE);
}

#[test]
fn find_free_run_without_room_changes_nothing() {
    let base: usize = 0x8000;
    let mut page = Page::new(base);
    let p1 = page.find_free_run(200).unwrap();
    assert!(page.find_free_run(100).is_none());
    // the existing run is untouched
    assert_eq!((page.block.get(p1), page.mark.get(p1)), (true, false));
    // and the free tail too
    let c = base + 200 * CELL_SIZE;
    assert_eq!((page.block.get(c), page.mark.get(c)), (false, true));
}

#[test]
fn pointer_belongs_is_the_half_open_region() {
    let base: usize = 0x8000;
    let page = Page::new(base);
    assert!(page.pointer_belongs(base));
    assert!(page.pointer_belongs(base + 4095));
    assert!(!page.pointer_belongs(base + 4096));
    assert!(!page.pointer_belongs(base - 1));
}

#[test]
fn mark_and_sweep_round_trip_on_one_run() {
    let base: usize = 0x8000;
    let mut page = Page::new(base);
    let addr = page.find_free_run(4).unwrap();
    assert!(page.mark(addr));
    assert_eq!((page.block.get(addr), page.mark.get(addr)), (true, true));
    page.sweep();
    // still allocated: header white again, extents kept, nothing freed
    assert_eq!((page.block.get(addr), page.mark.get(addr)), (true, false));
    for i in 1..4 {
        let c = addr + i * CELL_SIZE;
        assert_eq!((page.block.get(c), page.mark.get(c)), (false, false));
    }
    assert!(!page.is_empty());
}

#[test]
fn sweep_reclaims_unmarked_run_whole() {
    let base: usize = 0x8000;
    let mut page = Page::new(base);
    let addr = page.find_free_run(4).unwrap();
    page.sweep();
    for i in 0..4 {
        let c = addr + i * CELL_SIZE;
        assert_eq!((page.block.get(c), page.mark.get(c)), (false, true));
    }
    assert!(page.is_empty());
}

#[test]
fn second_sweep_changes_nothing_without_marking() {
    let base: usize = 0x8000;
    let mut page = Page::new(base);
    page.find_free_run(8).unwrap();
    page.find_free_run(4).unwrap();
    page.sweep();
    let mut snapshot = Vec::new();
    for i in 0..CELLS_PER_PAGE {
        let c = base + i * CELL_SIZE;
        snapshot.push((page.block.get(c), page.mark.get(c)));
    }
    page.sweep();
    for i in 0..CELLS_PER_PAGE {
        let c = base + i * CELL_SIZE;
        assert_eq!((page.block.get(c), page.mark.get(c)), snapshot[i]);
    }
}
