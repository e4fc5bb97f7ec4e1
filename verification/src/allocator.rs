//! The top-level allocator: an ordered collection of pages.
//!
//! Allocation is first-fit across the pages in creation order; when no page
//! has room the allocator grows by exactly one fresh page (whose region the
//! caller supplies) and retries once against it.  Marking is dispatched to
//! the page that owns the address; sweeping runs over every page and then
//! releases the pages that came out entirely free.
use vstd::prelude::*;

pub mod page;

use crate::allocator::page::cells_wf;
use crate::allocator::page::fit_at;
use crate::allocator::page::free_run;
use crate::allocator::page::has_fit;
use crate::allocator::page::in_live_run;
use crate::allocator::page::paint;
use crate::allocator::page::run_header_of;
use crate::allocator::page::sweep_spec;
use crate::allocator::page::CellState;
use crate::allocator::page::Page;
use crate::CELLS_PER_PAGE;
use crate::CELL_SIZE;
use crate::PAGE_SIZE;

verus! {

/// The cell states of a page with nothing allocated.
pub open spec fn free_page_cells() -> Seq<CellState> {
    Seq::new(CELLS_PER_PAGE as nat, |i: int| CellState::Free)
}

/// Every cell is free.
pub open spec fn all_free(cs: Seq<CellState>) -> bool {
    forall|i: int| 0 <= i < cs.len() ==> cs[i] == CellState::Free
}

/// The regions of `a` and `b` do not overlap.
pub open spec fn pages_disjoint(a: Page, b: Page) -> bool {
    a.mem.spec_end() <= b.mem.start || b.mem.spec_end() <= a.mem.start
}

/// Every page is well formed, every page's cells have the shape sweeping
/// relies on, and no two pages' regions overlap.
pub open spec fn pages_wf(ps: Seq<Page>) -> bool {
    &&& forall|i: int| 0 <= i < ps.len() ==> (#[trigger] ps[i]).wf()
    &&& forall|i: int| 0 <= i < ps.len() ==> cells_wf((#[trigger] ps[i]).cells())
    &&& forall|i: int, j: int|
        0 <= i < j < ps.len() ==> pages_disjoint(#[trigger] ps[i], #[trigger] ps[j])
}

/// The model of a page sequence: each page's region start and cell states.
pub open spec fn pages_model(ps: Seq<Page>) -> Seq<(usize, Seq<CellState>)> {
    ps.map_values(|p: Page| (p.mem.start, p.cells()))
}

/// Each page's cells after one sweep pass, every page still present.
pub open spec fn sweep_all(m: Seq<(usize, Seq<CellState>)>) -> Seq<(usize, Seq<CellState>)> {
    m.map_values(|pm: (usize, Seq<CellState>)| (pm.0, sweep_spec(pm.1)))
}

/// The pages that stay after a sweep: those with a live cell left, in order.
pub open spec fn live_pages(m: Seq<(usize, Seq<CellState>)>) -> Seq<(usize, Seq<CellState>)>
    decreases m.len(),
{
    if m.len() == 0 {
        Seq::empty()
    } else if all_free(m.first().1) {
        live_pages(m.drop_first())
    } else {
        seq![m.first()] + live_pages(m.drop_first())
    }
}

/// The region starts of the pages a sweep releases, in page order.
pub open spec fn released_pages(m: Seq<(usize, Seq<CellState>)>) -> Seq<usize>
    decreases m.len(),
{
    if m.len() == 0 {
        Seq::empty()
    } else if all_free(m.first().1) {
        seq![m.first().0] + released_pages(m.drop_first())
    } else {
        released_pages(m.drop_first())
    }
}

/// The cross-page allocator: it owns every page, in creation order.
#[derive(Debug)]
pub struct CLAlloc {
    /// The pages, oldest first.
    pub pages: Vec<Page>,
}

impl CLAlloc {
    /// Every page well formed and no two regions overlapping.
    pub open spec fn wf(&self) -> bool {
        pages_wf(self.pages@)
    }

    /// The allocator's model: each page's region start and cell states.
    pub open spec fn model(&self) -> Seq<(usize, Seq<CellState>)> {
        pages_model(self.pages@)
    }

    /// Whether some page's region contains `addr`.
    pub open spec fn owns(&self, addr: usize) -> bool {
        exists|i: int| 0 <= i < self.pages@.len() && (#[trigger] self.pages@[i]).in_page(addr)
    }

    /// An allocator that owns no pages yet.
    pub fn new() -> (r: CLAlloc)
        ensures
            r.wf(),
            r.model() == Seq::<(usize, Seq<CellState>)>::empty(),
    {
        let r = CLAlloc { pages: Vec::new() };
        proof {
            assert(r.model() =~= Seq::<(usize, Seq<CellState>)>::empty());
        }
        r
    }

    /// The page at `index`.
    pub fn _page(&self, index: usize) -> (r: &Page)
        requires
            index < self.pages@.len(),
        ensures
            r == self.pages@[index as int],
    {
        &self.pages[index]
    }

    /// Appends one fresh, entirely free page whose region starts at `start`,
    /// an address the caller obtained for a new page-sized region disjoint
    /// from every page already owned.
    pub fn alloc_page(&mut self, start: usize)
        requires
            old(self).wf(),
            start + PAGE_SIZE <= usize::MAX,
            forall|i: int|
                0 <= i < old(self).pages@.len() ==> (start + PAGE_SIZE <= (
                #[trigger] old(self).pages@[i]).mem.start || old(self).pages@[i].mem.spec_end()
                    <= start),
        ensures
            final(self).wf(),
            final(self).model() == old(self).model().push((start, free_page_cells())),
    {
        let p = Page::new(start);
        proof {
            assert(p.cells() =~= free_page_cells());
        }
        self.pages.push(p);
        proof {
            assert forall|i: int, j: int|
                0 <= i < j < self.pages@.len() implies pages_disjoint(
                #[trigger] self.pages@[i],
                #[trigger] self.pages@[j],
            ) by {
                if j == self.pages@.len() - 1 {
                    assert(self.pages@[i] == old(self).pages@[i]);
                }
            };
            assert(self.model() =~~= old(self).model().push((start, free_page_cells())));
        }
    }

    /// Marks the run containing `ptr` reachable in whichever page owns
    /// `ptr`; an address owned by no page is ignored.  Returns whether some
    /// page claimed the address.
    #[verifier::loop_isolation(false)]
    pub fn mark(&mut self, ptr: usize) -> (r: bool)
        requires
            old(self).wf(),
            forall|i: int|
                0 <= i < old(self).pages@.len() && (#[trigger] old(self).pages@[i]).in_page(ptr)
                    ==> in_live_run(old(self).pages@[i].cells(), old(self).pages@[i].cell_index(ptr)),
        ensures
            final(self).wf(),
            final(self).pages@.len() == old(self).pages@.len(),
            r == old(self).owns(ptr),
            !old(self).owns(ptr) ==> final(self).pages@ == old(self).pages@,
            old(self).owns(ptr) ==> (exists|i: int|
                {
                    &&& 0 <= i < old(self).pages@.len()
                    &&& (#[trigger] old(self).pages@[i]).in_page(ptr)
                    &&& final(self).pages@[i].mem == old(self).pages@[i].mem
                    &&& final(self).pages@[i].cells() == old(self).pages@[i].cells().update(
                        run_header_of(
                            old(self).pages@[i].cells(),
                            old(self).pages@[i].cell_index(ptr),
                        ),
                        CellState::BlackHeader,
                    )
                    &&& (forall|j: int|
                        0 <= j < old(self).pages@.len() && j != i ==> final(self).pages@[j] == old(
                            self,
                        ).pages@[j])
                }),
    {
        let n = self.pages.len();
        let mut i: usize = 0;
        while i < n
            invariant
                i <= n,
                self.pages@ == old(self).pages@,
                forall|j: int| 0 <= j < i ==> !(#[trigger] old(self).pages@[j]).in_page(ptr),
            decreases n - i,
        {
            let ghost before = self.pages@;
            let page = &mut self.pages[i];
            let owned = page.mark(ptr);
            if owned {
                proof {
                    assert(self.pages@ =~= before.update(
                        i as int,
                        self.pages@[i as int],
                    ));
                    assert forall|a: int, b: int|
                        0 <= a < b < self.pages@.len() implies pages_disjoint(
                        #[trigger] self.pages@[a],
                        #[trigger] self.pages@[b],
                    ) by {
                        assert(self.pages@[a].mem == old(self).pages@[a].mem);
                        assert(self.pages@[b].mem == old(self).pages@[b].mem);
                    };
                    assert forall|k: int| 0 <= k < self.pages@.len() implies (
                    #[trigger] self.pages@[k]).wf() && cells_wf(self.pages@[k].cells()) by {
                        if k != i {
                            assert(self.pages@[k] == old(self).pages@[k]);
                        } else {
                            let s = old(self).pages@[k].cells();
                            let h = run_header_of(s, old(self).pages@[k].cell_index(ptr));
                            page::lemma_run_header(s, old(self).pages@[k].cell_index(ptr));
                            page::lemma_mark_preserves_cells_wf(s, h);
                        }
                    };
                }
                return true;
            }
            proof {
                assert(self.pages@ =~= before);
            }
            i = i + 1;
        }
        proof {
            assert(!old(self).owns(ptr));
        }
        false
    }

    /// Sweeps every page, then releases each page that came out entirely
    /// free.  Returns the region starts of the released pages, in page
    /// order, so the caller can unmap their backing memory.
    #[verifier::loop_isolation(false)]
    pub fn sweep(&mut self) -> (released: Vec<usize>)
        requires
            old(self).wf(),
        ensures
            final(self).wf(),
            final(self).model() == live_pages(sweep_all(old(self).model())),
            released@ == released_pages(sweep_all(old(self).model())),
    {
        let ghost m0 = sweep_all(self.model());
        let mut kept: Vec<Page> = Vec::new();
        let mut released: Vec<usize> = Vec::new();
        proof {
            assert(kept@ + self.pages@ =~= self.pages@);
            assert(pages_model(kept@) + live_pages(sweep_all(pages_model(self.pages@))) =~= live_pages(m0));
            assert(released@ + released_pages(sweep_all(pages_model(self.pages@))) =~= released_pages(m0));
        }
        while self.pages.len() > 0
            invariant
                pages_wf(kept@ + self.pages@),
                live_pages(m0) == pages_model(kept@) + live_pages(
                    sweep_all(pages_model(self.pages@)),
                ),
                released_pages(m0) == released@ + released_pages(
                    sweep_all(pages_model(self.pages@)),
                ),
            decreases self.pages@.len(),
        {
            let ghost rem = self.pages@;
            let ghost combined = kept@ + rem;
            let ghost kn = kept@.len() as int;
            let mut p = self.pages.remove(0);
            proof {
                assert(self.pages@ =~= rem.drop_first());
                assert(combined[kn] == p);
                assert(p.wf() && cells_wf(p.cells()));
                assert(pages_model(rem) =~= seq![(p.mem.start, p.cells())] + pages_model(
                    rem.drop_first(),
                ));
                assert(sweep_all(pages_model(rem)) =~= seq![
                    (p.mem.start, sweep_spec(p.cells())),
                ] + sweep_all(pages_model(rem.drop_first())));
                assert(sweep_all(pages_model(rem)).first() == (p.mem.start, sweep_spec(p.cells())));
                assert(sweep_all(pages_model(rem)).drop_first() =~= sweep_all(
                    pages_model(rem.drop_first()),
                ));
            }
            let ghost sw_first = (p.mem.start, sweep_spec(p.cells()));
            p.sweep();
            proof {
                assert((p.mem.start, p.cells()) == sw_first);
            }
            let empty_now = p.is_empty();
            if empty_now {
                released.push(p.mem.start());
                proof {
                    assert(all_free(sw_first.1));
                    assert(released@ =~= released@.drop_last().push(p.mem.start));
                    assert(released@.drop_last() + (seq![sw_first.0] + released_pages(
                        sweep_all(pages_model(rem.drop_first())),
                    )) =~= released@ + released_pages(sweep_all(pages_model(rem.drop_first()))));
                    assert forall|a: int, b: int|
                        0 <= a < b < (kept@ + self.pages@).len() implies pages_disjoint(
                        #[trigger] (kept@ + self.pages@)[a],
                        #[trigger] (kept@ + self.pages@)[b],
                    ) by {
                        let ca = if a < kn { a } else { a + 1 };
                        let cb = if b < kn { b } else { b + 1 };
                        assert((kept@ + self.pages@)[a].mem == combined[ca].mem);
                        assert((kept@ + self.pages@)[b].mem == combined[cb].mem);
                        assert(pages_disjoint(combined[ca], combined[cb]));
                    };
                    assert forall|k: int|
                        0 <= k < (kept@ + self.pages@).len() implies (#[trigger] (kept@
                        + self.pages@)[k]).wf() && cells_wf((kept@ + self.pages@)[k].cells()) by {
                        let ck = if k < kn { k } else { k + 1 };
                        assert((kept@ + self.pages@)[k] == combined[ck]);
                    };
                }
            } else {
                kept.push(p);
                proof {
                    assert(!all_free(sw_first.1));
                    assert(pages_model(kept@) =~= pages_model(kept@.drop_last()) + seq![sw_first]);
                    assert((pages_model(kept@.drop_last()) + seq![sw_first]) + live_pages(
                        sweep_all(pages_model(rem.drop_first())),
                    ) =~= pages_model(kept@.drop_last()) + (seq![sw_first] + live_pages(
                        sweep_all(pages_model(rem.drop_first())),
                    )));
                    assert forall|a: int, b: int|
                        0 <= a < b < (kept@ + self.pages@).len() implies pages_disjoint(
                        #[trigger] (kept@ + self.pages@)[a],
                        #[trigger] (kept@ + self.pages@)[b],
                    ) by {
                        assert((kept@ + self.pages@)[a].mem == combined[a].mem);
                        assert((kept@ + self.pages@)[b].mem == combined[b].mem);
                        assert(pages_disjoint(combined[a], combined[b]));
                    };
                    assert forall|k: int|
                        0 <= k < (kept@ + self.pages@).len() implies (#[trigger] (kept@
                        + self.pages@)[k]).wf() && cells_wf((kept@ + self.pages@)[k].cells()) by {
                        if k != kn {
                            assert((kept@ + self.pages@)[k] == combined[k]);
                        }
                    };
                }
            }
        }
        proof {
            assert(pages_model(self.pages@) =~= Seq::<(usize, Seq<CellState>)>::empty());
            assert(live_pages(m0) =~= pages_model(kept@));
            assert(released_pages(m0) =~= released@);
            assert(kept@ + self.pages@ =~= kept@);
        }
        self.pages = kept;
        released
    }

    /// First-fit allocation of a run of `size` cells across the pages in
    /// creation order.  When no owned page has room, grows by exactly one
    /// fresh page at `fresh_start` (a page-sized region the caller obtained,
    /// disjoint from every owned page) and retries once against it; the
    /// fresh page is kept either way.  Returns the run's address, or nothing
    /// when even a full page cannot hold `size` cells.
    #[verifier::loop_isolation(false)]
    pub fn allocate(&mut self, size: usize, fresh_start: usize) -> (r: Option<usize>)
        requires
            old(self).wf(),
            1 <= size <= PAGE_SIZE,
            fresh_start + PAGE_SIZE <= usize::MAX,
            forall|i: int|
                0 <= i < old(self).pages@.len() ==> (fresh_start + PAGE_SIZE <= (
                #[trigger] old(self).pages@[i]).mem.start || old(self).pages@[i].mem.spec_end()
                    <= fresh_start),
        ensures
            final(self).wf(),
            (exists|i: int|
                0 <= i < old(self).model().len() && has_fit(
                    (#[trigger] old(self).model()[i]).1,
                    size as int,
                )) ==> (exists|i: int, t: int|
                #![trigger fit_at(old(self).model()[i].1, t, size as int)]
                {
                    &&& 0 <= i < old(self).model().len()
                    &&& fit_at(old(self).model()[i].1, t, size as int)
                    &&& (forall|j: int|
                        0 <= j < i ==> !has_fit((#[trigger] old(self).model()[j]).1, size as int))
                    &&& r == Some((old(self).model()[i].0 + t * CELL_SIZE) as usize)
                    &&& final(self).model() == old(self).model().update(
                        i,
                        (old(self).model()[i].0, paint(old(self).model()[i].1, t, size as int)),
                    )
                }),
            !(exists|i: int|
                0 <= i < old(self).model().len() && has_fit(
                    (#[trigger] old(self).model()[i]).1,
                    size as int,
                )) ==> ({
                let m = old(self).model();
                &&& (size <= CELLS_PER_PAGE ==> r == Some(fresh_start) && final(self).model()
                    == m.push((fresh_start, paint(free_page_cells(), 0, size as int))))
                &&& (size > CELLS_PER_PAGE ==> r is None && final(self).model() == m.push(
                    (fresh_start, free_page_cells()),
                ))
            }),
    {
        let ghost m = self.model();
        let n = self.pages.len();
        let mut i: usize = 0;
        while i < n
            invariant
                i <= n,
                n == self.pages@.len(),
                self.pages@ == old(self).pages@,
                forall|j: int| 0 <= j < i ==> !has_fit((#[trigger] m[j]).1, size as int),
            decreases n - i,
        {
            let ghost before = self.pages@;
            let page = &mut self.pages[i];
            let found = page.find_free_run(size);
            match found {
                Some(addr) => {
                    proof {
                        let ghost t = before[i as int].cell_index(addr);
                        assert(fit_at(m[i as int].1, t, size as int));
                        assert(has_fit(m[i as int].1, size as int));
                        assert(self.pages@ =~= before.update(i as int, self.pages@[i as int]));
                        assert forall|a: int, b: int|
                            0 <= a < b < self.pages@.len() implies pages_disjoint(
                            #[trigger] self.pages@[a],
                            #[trigger] self.pages@[b],
                        ) by {
                            assert(self.pages@[a].mem == before[a].mem);
                            assert(self.pages@[b].mem == before[b].mem);
                        };
                        assert forall|k: int| 0 <= k < self.pages@.len() implies (
                        #[trigger] self.pages@[k]).wf() && cells_wf(self.pages@[k].cells()) by {
                            if k != i {
                                assert(self.pages@[k] == before[k]);
                            }
                        };
                        assert(self.model() =~~= m.update(
                            i as int,
                            (m[i as int].0, paint(m[i as int].1, t, size as int)),
                        ));
                        assert(addr == m[i as int].0 + t * CELL_SIZE);
                    }
                    return Some(addr);
                },
                None => {
                    proof {
                        assert(self.pages@ =~= before);
                        assert(!has_fit(m[i as int].1, size as int));
                    }
                },
            }
            i = i + 1;
        }
        proof {
            assert(!(exists|j: int|
                0 <= j < m.len() && has_fit((#[trigger] m[j]).1, size as int)));
        }
        self.alloc_page(fresh_start);
        let ghost grown = self.pages@;
        proof {
            assert(self.model() == m.push((fresh_start, free_page_cells())));
            assert(self.pages@.len() == n + 1);
            assert(self.model()[n as int] == (fresh_start, free_page_cells()));
            assert(grown[n as int].cells() =~= free_page_cells());
            assert(grown[n as int].mem.start == fresh_start);
        }
        let idx = self.pages.len() - 1;
        let page = &mut self.pages[idx];
        let found = page.find_free_run(size);
        proof {
            assert(self.pages@ =~= grown.update(n as int, self.pages@[n as int]));
            assert forall|a: int, b: int|
                0 <= a < b < self.pages@.len() implies pages_disjoint(
                #[trigger] self.pages@[a],
                #[trigger] self.pages@[b],
            ) by {
                assert(self.pages@[a].mem == grown[a].mem);
                assert(self.pages@[b].mem == grown[b].mem);
            };
            assert forall|k: int| 0 <= k < self.pages@.len() implies (
            #[trigger] self.pages@[k]).wf() && cells_wf(self.pages@[k].cells()) by {
                if k != n {
                    assert(self.pages@[k] == grown[k]);
                }
            };
            if size <= CELLS_PER_PAGE {
                assert(free_run(free_page_cells(), 0, size as int));
                assert(has_fit(free_page_cells(), size as int));
                assert(found is Some);
                let addr = found->Some_0;
                let t = grown[n as int].cell_index(addr);
                assert(fit_at(free_page_cells(), t, size as int));
                assert(t == 0) by {
                    if t > 0 {
                        assert(!free_run(free_page_cells(), 0, size as int));
                    }
                };
                assert(addr == fresh_start);
                assert(self.model().len() == n + 1);
                assert forall|k: int| 0 <= k < n implies self.model()[k] == m[k] by {
                    assert(self.pages@[k] == grown[k]);
                    assert(self.model()[k] == (self.pages@[k].mem.start, self.pages@[k].cells()));
                    assert(pages_model(grown)[k] == (grown[k].mem.start, grown[k].cells()));
                    assert(pages_model(grown)[k] == m.push((fresh_start, free_page_cells()))[k]);
                    assert(m.push((fresh_start, free_page_cells()))[k] == m[k]);
                };
                assert(self.model()[n as int].0 == fresh_start);
                assert(self.pages@[n as int].cells() == paint(
                    grown[n as int].cells(),
                    0,
                    size as int,
                ));
                assert(self.model()[n as int].1 =~= paint(free_page_cells(), 0, size as int));
                assert(self.model() =~~= m.push(
                    (fresh_start, paint(free_page_cells(), 0, size as int)),
                ));
            } else {
                assert(found is None) by {
                    if found is Some {
                        let addr = found->Some_0;
                        let t = grown[n as int].cell_index(addr);
                        assert(fit_at(free_page_cells(), t, size as int));
                    }
                };
                assert(self.model() =~~= m.push((fresh_start, free_page_cells())));
            }
        }
        found
    }
}

impl Default for CLAlloc {
    /// An allocator that owns no pages yet.
    fn default() -> (r: CLAlloc)
        ensures
            r.wf(),
            r.model() == Seq::<(usize, Seq<CellState>)>::empty(),
    {
        CLAlloc::new()
    }
}

} // verus!
