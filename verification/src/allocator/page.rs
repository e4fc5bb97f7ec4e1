//! One fixed-size arena and its mark/sweep state machine.
//!
//! A page owns one `Mem` region and two bitmaps over it.  Together the two
//! bits of a cell encode exactly one of four states; the sweep pass is a
//! single left-to-right scan over those states, carrying the colour of the
//! last header it saw.
use vstd::prelude::*;

use crate::bitmap::GcBitmap;
use crate::mem::Mem;
use crate::CELLS_PER_PAGE;
use crate::CELL_SIZE;
use crate::PAGE_SIZE;

verus! {

/// The state of one cell, encoded by its (block, mark) bit pair.
#[derive(Clone, Copy, Debug, PartialEq, Eq, Structural)]
pub enum CellState {
    /// Available for allocation: block 0, mark 1.
    Free,
    /// Header of a live run not yet traced this cycle: block 1, mark 0.
    WhiteHeader,
    /// Header of a live run already traced this cycle: block 1, mark 1.
    BlackHeader,
    /// Interior cell of a multi-cell run: block 0, mark 0.
    Extent,
}

/// The cell state that a (block, mark) bit pair encodes.
pub open spec fn cell_state_of(block: bool, mark: bool) -> CellState {
    if block {
        if mark {
            CellState::BlackHeader
        } else {
            CellState::WhiteHeader
        }
    } else {
        if mark {
            CellState::Free
        } else {
            CellState::Extent
        }
    }
}

/// Whether `c` is the header of a live run, traced or not.
pub open spec fn is_header(c: CellState) -> bool {
    c == CellState::WhiteHeader || c == CellState::BlackHeader
}

/// The most recent header strictly before index `i`, or nothing when no
/// header precedes `i`.
pub open spec fn last_header(s: Seq<CellState>, i: int) -> Option<CellState>
    decreases i,
{
    if i <= 0 {
        None
    } else if is_header(s[i - 1]) {
        Some(s[i - 1])
    } else {
        last_header(s, i - 1)
    }
}

/// Every extent cell is preceded by some header: the shape a sweep relies
/// on, since an extent with no preceding header is heap corruption.
pub open spec fn cells_wf(s: Seq<CellState>) -> bool {
    forall|i: int|
        0 <= i < s.len() && s[i] == CellState::Extent ==> (#[trigger] last_header(s, i)) is Some
}

/// What one sweep pass leaves in cell `i`: white headers are reclaimed,
/// black headers are reset to white, extent cells follow the colour of the
/// last header seen before them.
pub open spec fn sweep_cell(s: Seq<CellState>, i: int) -> CellState {
    match s[i] {
        CellState::WhiteHeader => CellState::Free,
        CellState::BlackHeader => CellState::WhiteHeader,
        CellState::Free => CellState::Free,
        CellState::Extent => if last_header(s, i) == Some(CellState::WhiteHeader) {
            CellState::Free
        } else {
            CellState::Extent
        },
    }
}

/// The cell states after one sweep pass over `s`.
pub open spec fn sweep_spec(s: Seq<CellState>) -> Seq<CellState> {
    Seq::new(s.len(), |i: int| sweep_cell(s, i))
}

/// `i` lies inside a live run: at a header, or on extent cells that chain
/// back, one by one, to a header.
pub open spec fn in_live_run(s: Seq<CellState>, i: int) -> bool
    decreases i,
{
    0 <= i < s.len() && (is_header(s[i]) || (i > 0 && s[i] == CellState::Extent && in_live_run(
        s,
        i - 1,
    )))
}

/// The index of the header of the live run that `i` lies in.
pub open spec fn run_header_of(s: Seq<CellState>, i: int) -> int
    decreases i,
{
    if i <= 0 {
        0
    } else if is_header(s[i]) {
        i
    } else {
        run_header_of(s, i - 1)
    }
}

/// Cells `start` up to `start + n` are all free.
pub open spec fn free_run(s: Seq<CellState>, start: int, n: int) -> bool {
    forall|j: int| start <= j < start + n ==> s[j] == CellState::Free
}

/// Some run of `n` consecutive free cells exists in `s`.
pub open spec fn has_fit(s: Seq<CellState>, n: int) -> bool {
    exists|t: int| 0 <= t && t + n <= s.len() && free_run(s, t, n)
}

/// `t` is the first-fit position for a run of `n` free cells in `s`.
pub open spec fn fit_at(s: Seq<CellState>, t: int, n: int) -> bool {
    &&& 0 <= t
    &&& t + n <= s.len()
    &&& free_run(s, t, n)
    &&& forall|u: int| 0 <= u < t ==> !free_run(s, u, n)
}

/// `s` with the run at `t` painted as allocated: a white header followed by
/// `n - 1` extent cells.
pub open spec fn paint(s: Seq<CellState>, t: int, n: int) -> Seq<CellState> {
    Seq::new(
        s.len(),
        |i: int|
            if i == t {
                CellState::WhiteHeader
            } else if t < i < t + n {
                CellState::Extent
            } else {
                s[i]
            },
    )
}

/// In `run_header_of`, the header found for `i` is at or before `i`, is a
/// header, and only extent cells separate it from `i`.
pub proof fn lemma_run_header(s: Seq<CellState>, i: int)
    requires
        in_live_run(s, i),
    ensures
        0 <= run_header_of(s, i) <= i,
        is_header(s[run_header_of(s, i)]),
        forall|k: int| run_header_of(s, i) < k <= i ==> s[k] == CellState::Extent,
    decreases i,
{
    if !is_header(s[i]) && i > 0 {
        lemma_run_header(s, i - 1);
    }
}

/// A header at `h` with only extent cells between `h` and `j` is the last
/// header seen before `j`.
pub proof fn lemma_last_header_run(s: Seq<CellState>, h: int, j: int)
    requires
        0 <= h < j <= s.len(),
        is_header(s[h]),
        forall|k: int| h < k < j ==> s[k] == CellState::Extent,
    ensures
        last_header(s, j) == Some(s[h]),
    decreases j,
{
    if j > h + 1 {
        lemma_last_header_run(s, h, j - 1);
    }
}

/// Any header strictly before `j` means some header is the last one seen.
pub proof fn lemma_header_before_some(s: Seq<CellState>, h: int, j: int)
    requires
        0 <= h < j,
        is_header(s[h]),
    ensures
        last_header(s, j) is Some,
    decreases j,
{
    if j > h + 1 && !is_header(s[j - 1]) {
        lemma_header_before_some(s, h, j - 1);
    }
}

/// The last header seen before `i` really occurs in `s` before `i`.
pub proof fn lemma_last_header_witness(s: Seq<CellState>, i: int)
    requires
        last_header(s, i) is Some,
    ensures
        exists|h: int|
            0 <= h < i && is_header(#[trigger] s[h]) && Some(s[h]) == last_header(s, i),
    decreases i,
{
    if i > 0 && !is_header(s[i - 1]) {
        lemma_last_header_witness(s, i - 1);
    }
}

/// Sweeping preserves the shape that every extent has a preceding header.
pub proof fn lemma_sweep_preserves_cells_wf(s: Seq<CellState>)
    requires
        cells_wf(s),
    ensures
        cells_wf(sweep_spec(s)),
{
    let sw = sweep_spec(s);
    assert forall|i: int|
        0 <= i < sw.len() && sw[i] == CellState::Extent implies (#[trigger] last_header(
        sw,
        i,
    )) is Some by {
        assert(s[i] == CellState::Extent);
        lemma_last_header_witness(s, i);
        let h = choose|h: int|
            0 <= h < i && is_header(#[trigger] s[h]) && Some(s[h]) == last_header(s, i);
        assert(is_header(sw[h]));
        lemma_header_before_some(sw, h, i);
    };
}

/// A run whose header was marked reachable survives a sweep: the header is
/// reset from black to white, and every extent cell of the run is left an
/// extent; no cell of the run becomes free.
pub proof fn lemma_sweep_keeps_marked_run(s: Seq<CellState>, h: int, n: int)
    requires
        0 <= h,
        h + n <= s.len(),
        1 <= n,
        s[h] == CellState::BlackHeader,
        forall|j: int| h < j < h + n ==> s[j] == CellState::Extent,
    ensures
        sweep_spec(s)[h] == CellState::WhiteHeader,
        forall|j: int| h < j < h + n ==> sweep_spec(s)[j] == CellState::Extent,
{
    assert forall|j: int| h < j < h + n implies sweep_spec(s)[j] == CellState::Extent by {
        lemma_last_header_run(s, h, j);
    };
}

/// A run whose header was never marked is reclaimed whole by a sweep: the
/// header and every extent cell of the run become free.
pub proof fn lemma_sweep_reclaims_unmarked_run(s: Seq<CellState>, h: int, n: int)
    requires
        0 <= h,
        h + n <= s.len(),
        1 <= n,
        s[h] == CellState::WhiteHeader,
        forall|j: int| h < j < h + n ==> s[j] == CellState::Extent,
    ensures
        forall|j: int| h <= j < h + n ==> sweep_spec(s)[j] == CellState::Free,
{
    assert forall|j: int| h <= j < h + n implies sweep_spec(s)[j] == CellState::Free by {
        if j > h {
            lemma_last_header_run(s, h, j);
        }
    };
}

/// Sweeping is idempotent on a page that holds no black header, the state of
/// any page that was allocated into but not marked: the first sweep frees
/// every cell, and sweeping an entirely free page changes nothing.  (With a
/// black header present the claim would fail: the first sweep resets it to
/// white and only the next sweep reclaims it.)
pub proof fn lemma_sweep_idempotent_without_black(s: Seq<CellState>)
    requires
        cells_wf(s),
        forall|i: int| 0 <= i < s.len() ==> s[i] != CellState::BlackHeader,
    ensures
        sweep_spec(sweep_spec(s)) == sweep_spec(s),
{
    let sw = sweep_spec(s);
    assert forall|i: int| 0 <= i < sw.len() implies sw[i] == CellState::Free by {
        if s[i] == CellState::Extent {
            lemma_last_header_witness(s, i);
            let h = choose|h: int|
                0 <= h < i && is_header(#[trigger] s[h]) && Some(s[h]) == last_header(s, i);
            assert(s[h] == CellState::WhiteHeader);
        }
    };
    assert(sweep_spec(sw) =~= sw);
}

/// Within an allocated run, every cell resolves back to the run's header:
/// an address anywhere inside the run lies in a live run whose header is
/// the run's first cell, so marking it blackens that header and nothing
/// else.
pub proof fn lemma_interior_resolves_to_header(s: Seq<CellState>, t: int, n: int, j: int)
    requires
        0 <= t,
        t + n <= s.len(),
        1 <= n,
        is_header(s[t]),
        forall|k: int| t < k < t + n ==> s[k] == CellState::Extent,
        t <= j < t + n,
    ensures
        in_live_run(s, j),
        run_header_of(s, j) == t,
    decreases j,
{
    if j > t {
        lemma_interior_resolves_to_header(s, t, n, j - 1);
    }
}

/// The full reachable round trip: allocate a run, mark its start address
/// (the header turns black), sweep.  The header reads white again, the
/// run's extent cells are untouched, and no cell of the run becomes free.
pub proof fn lemma_alloc_mark_sweep_round_trip(s: Seq<CellState>, t: int, n: int)
    requires
        0 <= t,
        t + n <= s.len(),
        1 <= n,
        free_run(s, t, n),
    ensures
        ({
            let painted = paint(s, t, n);
            let marked = painted.update(run_header_of(painted, t), CellState::BlackHeader);
            &&& run_header_of(painted, t) == t
            &&& marked[t] == CellState::BlackHeader
            &&& sweep_spec(marked)[t] == CellState::WhiteHeader
            &&& forall|j: int| t < j < t + n ==> sweep_spec(marked)[j] == CellState::Extent
        }),
{
    let painted = paint(s, t, n);
    lemma_interior_resolves_to_header(painted, t, n, t);
    let marked = painted.update(t, CellState::BlackHeader);
    lemma_sweep_keeps_marked_run(marked, t, n);
}

/// The unreached round trip: allocate a run, do not mark it, sweep.  Every
/// cell of the run reads free again.
pub proof fn lemma_alloc_sweep_reclaims(s: Seq<CellState>, t: int, n: int)
    requires
        0 <= t,
        t + n <= s.len(),
        1 <= n,
        free_run(s, t, n),
    ensures
        forall|j: int| t <= j < t + n ==> sweep_spec(paint(s, t, n))[j] == CellState::Free,
{
    lemma_sweep_reclaims_unmarked_run(paint(s, t, n), t, n);
}

/// Blackening a header cell keeps every extent cell preceded by a header:
/// the blackened cell was a header and remains one.
pub proof fn lemma_mark_preserves_cells_wf(s: Seq<CellState>, h: int)
    requires
        cells_wf(s),
        0 <= h < s.len(),
        is_header(s[h]),
    ensures
        cells_wf(s.update(h, CellState::BlackHeader)),
{
    let u = s.update(h, CellState::BlackHeader);
    assert forall|i: int|
        0 <= i < u.len() && u[i] == CellState::Extent implies (#[trigger] last_header(
        u,
        i,
    )) is Some by {
        assert(s[i] == CellState::Extent);
        lemma_last_header_witness(s, i);
        let hw = choose|hw: int|
            0 <= hw < i && is_header(#[trigger] s[hw]) && Some(s[hw]) == last_header(s, i);
        assert(is_header(u[hw]));
        lemma_header_before_some(u, hw, i);
    };
}

/// Painting a free run keeps every extent cell preceded by a header: the
/// new extents follow the new header, and old extents keep theirs, which
/// cannot have lain inside the freshly painted (previously free) run.
pub proof fn lemma_paint_preserves_cells_wf(s: Seq<CellState>, t: int, n: int)
    requires
        cells_wf(s),
        0 <= t,
        t + n <= s.len(),
        1 <= n,
        free_run(s, t, n),
    ensures
        cells_wf(paint(s, t, n)),
{
    let pt = paint(s, t, n);
    assert forall|i: int|
        0 <= i < pt.len() && pt[i] == CellState::Extent implies (#[trigger] last_header(
        pt,
        i,
    )) is Some by {
        if t < i < t + n {
            assert(is_header(pt[t]));
            lemma_header_before_some(pt, t, i);
        } else {
            assert(s[i] == CellState::Extent);
            lemma_last_header_witness(s, i);
            let h = choose|h: int|
                0 <= h < i && is_header(#[trigger] s[h]) && Some(s[h]) == last_header(s, i);
            assert(!(t <= h < t + n));
            assert(is_header(pt[h]));
            lemma_header_before_some(pt, h, i);
        }
    };
}

/// One page: a region and the two bitmaps that track its cell states.
#[derive(Debug)]
pub struct Page {
    /// The mark bitmap: ones on free cells and traced headers.
    pub mark: GcBitmap,
    /// The block bitmap: ones exactly on run headers.
    pub block: GcBitmap,
    /// The backing region; the page's cells tile it exactly.
    pub mem: Mem,
}

impl Page {
    /// Both bitmaps index exactly this page's one-page region.
    pub open spec fn wf(&self) -> bool {
        &&& self.mem.wf()
        &&& self.mem.size == PAGE_SIZE
        &&& self.mark.heap_start == self.mem.start
        &&& self.mark.heap_end == self.mem.spec_end()
        &&& self.block.heap_start == self.mem.start
        &&& self.block.heap_end == self.mem.spec_end()
        &&& self.mark.wf()
        &&& self.block.wf()
    }

    /// The state of every cell of the page, in address order.
    pub open spec fn cells(&self) -> Seq<CellState> {
        Seq::new(
            CELLS_PER_PAGE as nat,
            |i: int| cell_state_of(self.block.bits()[i], self.mark.bits()[i]),
        )
    }

    /// Whether `addr` lies within this page's region.
    pub open spec fn in_page(&self, addr: usize) -> bool {
        self.mem.start <= addr < self.mem.spec_end()
    }

    /// The index of the cell holding `addr`.
    pub open spec fn cell_index(&self, addr: usize) -> int {
        (addr - self.mem.start) / (CELL_SIZE as int)
    }

    /// A page's bitmaps have one bit per cell of the page.
    proof fn lemma_counts(&self)
        requires
            self.wf(),
        ensures
            self.mark.cell_count() == CELLS_PER_PAGE,
            self.block.cell_count() == CELLS_PER_PAGE,
            self.mark.words@.len() == CELLS_PER_PAGE / 64,
            self.block.words@.len() == CELLS_PER_PAGE / 64,
    {
    }

    /// A fresh page at `start`: every cell free.
    pub fn new(start: usize) -> (r: Page)
        requires
            start + PAGE_SIZE <= usize::MAX,
        ensures
            r.wf(),
            r.mem.start == start,
            r.mem.size == PAGE_SIZE,
            forall|i: int| 0 <= i < CELLS_PER_PAGE ==> r.cells()[i] == CellState::Free,
            cells_wf(r.cells()),
    {
        let mem = Mem::new(start, PAGE_SIZE);
        let mut mark = GcBitmap::new(&mem);
        mark.set_all();
        let block = GcBitmap::new(&mem);
        let r = Page { mark, block, mem };
        proof {
            r.lemma_counts();
            assert(forall|i: int| 0 <= i < CELLS_PER_PAGE ==> r.cells()[i] == CellState::Free);
        }
        r
    }

    /// Whether `ptr` falls inside this page's region.
    pub fn pointer_belongs(&self, ptr: usize) -> (r: bool)
        requires
            self.wf(),
        ensures
            r == self.in_page(ptr),
    {
        ptr >= self.mem.start() && ptr < self.mem.end()
    }

    /// True exactly when every cell of the page is free, which makes the
    /// page eligible for release.
    pub fn is_empty(&self) -> (r: bool)
        requires
            self.wf(),
        ensures
            r == (forall|i: int| 0 <= i < CELLS_PER_PAGE ==> self.cells()[i] == CellState::Free),
    {
        proof {
            self.lemma_counts();
        }
        let n = self.block.size();
        let mut index: usize = 0;
        while index < n
            invariant
                self.wf(),
                n == self.block.words@.len(),
                n == self.mark.words@.len(),
                self.block.cell_count() == CELLS_PER_PAGE,
                self.mark.cell_count() == CELLS_PER_PAGE,
                n * 64 == CELLS_PER_PAGE,
                index <= n,
                forall|k: int|
                    0 <= k < index ==> self.block.words@[k] == 0u64 && self.mark.words@[k]
                        == 0xffff_ffff_ffff_ffffu64,
            decreases n - index,
        {
            let block = self.block.index_unchecked(index);
            let mark = self.mark.index_unchecked(index);
            if block != 0 || mark != u64::MAX {
                proof {
                    lemma_word_of_free_cells(self, index as int, block, mark);
                }
                return false;
            }
            index = index + 1;
        }
        proof {
            assert forall|i: int| 0 <= i < CELLS_PER_PAGE implies self.cells()[i]
                == CellState::Free by {
                vstd::arithmetic::div_mod::lemma_fundamental_div_mod(i, 64);
                assert(0 <= i / 64 < n) by (nonlinear_arith)
                    requires
                        0 <= i < n * 64,
                ;
                crate::bitmap::lemma_const_word_bits((i % 64) as u64);
            };
        }
        true
    }

    /// Finds the first run of exactly `size` consecutive free cells, paints
    /// it allocated (a white header, then extent cells) and returns its
    /// address; returns nothing when no such run exists in this page.
    #[verifier::loop_isolation(false)]
    pub fn find_free_run(&mut self, size: usize) -> (r: Option<usize>)
        requires
            old(self).wf(),
            cells_wf(old(self).cells()),
            1 <= size,
        ensures
            final(self).wf(),
            final(self).mem == old(self).mem,
            cells_wf(final(self).cells()),
            match r {
                None => *final(self) == *old(self) && !has_fit(old(self).cells(), size as int),
                Some(addr) => {
                    let t = old(self).cell_index(addr);
                    &&& old(self).in_page(addr)
                    &&& addr == old(self).mem.start + t * CELL_SIZE
                    &&& fit_at(old(self).cells(), t, size as int)
                    &&& final(self).cells() == paint(old(self).cells(), t, size as int)
                },
            },
    {
        let ghost s = self.cells();
        proof {
            self.lemma_counts();
        }
        let mut run_start: usize = 0;
        let mut run_length: usize = 0;
        let mut bit_index: usize = 0;
        while bit_index < CELLS_PER_PAGE && run_length < size
            invariant
                run_length <= bit_index <= CELLS_PER_PAGE,
                run_length <= size,
                run_length > 0 ==> run_start == bit_index - run_length,
                free_run(s, bit_index - run_length, run_length as int),
                forall|t: int|
                    0 <= t < bit_index - run_length ==> !free_run(s, t, size as int),
            decreases CELLS_PER_PAGE - bit_index,
        {
            let a = self.mem.start() + bit_index * CELL_SIZE;
            proof {
                assert(self.cell_index(a) == bit_index);
            }
            let mark_bit = self.mark.get(a);
            let block_bit = self.block.get(a);
            proof {
                assert(s[bit_index as int] == cell_state_of(block_bit, mark_bit));
            }
            if mark_bit && !block_bit {
                if run_length == 0 {
                    run_start = bit_index;
                }
                run_length = run_length + 1;
            } else {
                run_length = 0;
            }
            bit_index = bit_index + 1;
        }
        if run_length != size {
            proof {
                assert forall|t: int|
                    0 <= t && t + size <= CELLS_PER_PAGE implies !free_run(s, t, size as int) by {
                    assert(t < bit_index - run_length);
                };
            }
            None
        } else {
            let offset = GcBitmap::bit_index_to_offset(run_start);
            let ptr = self.mem.start() + offset;
            let ghost t = run_start as int;
            let ghost n = size as int;
            proof {
                assert(fit_at(s, t, n));
                assert(self.cell_index(ptr) == t);
            }
            self.block.set::<true>(ptr);
            self.mark.set::<false>(ptr);
            proof {
                assert forall|j: int| 0 <= j < CELLS_PER_PAGE implies self.cells()[j] == (if j == t {
                    CellState::WhiteHeader
                } else if t < j < t + 1 {
                    CellState::Extent
                } else {
                    s[j]
                }) by {};
            }
            let mut i: usize = 1;
            while i < size
                invariant
                    1 <= i <= size,
                    self.wf(),
                    self.mem == old(self).mem,
                    forall|j: int|
                        0 <= j < CELLS_PER_PAGE ==> self.cells()[j] == (if j == t {
                            CellState::WhiteHeader
                        } else if t < j < t + i {
                            CellState::Extent
                        } else {
                            s[j]
                        }),
                decreases size - i,
            {
                let p = ptr + i * CELL_SIZE;
                proof {
                    assert(t * CELL_SIZE + i * CELL_SIZE == (t + i) * CELL_SIZE) by (nonlinear_arith);
                    assert(self.cell_index(p) == t + i);
                }
                let ghost before = self.cells();
                self.block.set::<false>(p);
                self.mark.set::<false>(p);
                proof {
                    assert forall|j: int|
                        0 <= j < CELLS_PER_PAGE implies self.cells()[j] == (if j == t + i {
                        CellState::Extent
                    } else {
                        before[j]
                    }) by {};
                }
                i = i + 1;
            }
            proof {
                assert(self.cells() =~= paint(s, t, n));
                lemma_paint_preserves_cells_wf(s, t, n);
            }
            Some(ptr)
        }
    }

    /// Marks the run around `ptr` reachable: reports whether this page owns
    /// `ptr`, and when it does, resolves `ptr` (which may point anywhere
    /// inside a multi-cell run) back to the run's header and blackens it.
    #[verifier::loop_isolation(false)]
    pub fn mark(&mut self, ptr: usize) -> (r: bool)
        requires
            old(self).wf(),
            old(self).in_page(ptr) ==> in_live_run(old(self).cells(), old(self).cell_index(ptr)),
        ensures
            final(self).wf(),
            final(self).mem == old(self).mem,
            r == old(self).in_page(ptr),
            !old(self).in_page(ptr) ==> *final(self) == *old(self),
            old(self).in_page(ptr) ==> final(self).cells() == old(self).cells().update(
                run_header_of(old(self).cells(), old(self).cell_index(ptr)),
                CellState::BlackHeader,
            ),
    {
        if !self.pointer_belongs(ptr) {
            return false;
        }
        let ghost s = self.cells();
        proof {
            self.lemma_counts();
        }
        let mut cur = ptr;
        while !self.block.get(cur)
            invariant
                self.in_page(cur),
                in_live_run(s, self.cell_index(cur)),
                run_header_of(s, self.cell_index(cur)) == run_header_of(
                    s,
                    old(self).cell_index(ptr),
                ),
            decreases self.cell_index(cur),
        {
            proof {
                let ci = self.cell_index(cur);
                assert(!is_header(s[ci]));
                assert(ci > 0 && s[ci] == CellState::Extent && in_live_run(s, ci - 1));
                vstd::arithmetic::div_mod::lemma_fundamental_div_mod(cur - self.mem.start, 16);
                assert(cur - self.mem.start >= 16) by (nonlinear_arith)
                    requires
                        ci == (cur - self.mem.start) / 16,
                        ci >= 1,
                        cur - self.mem.start == 16 * ci + ((cur - self.mem.start) % 16),
                        (cur - self.mem.start) % 16 >= 0,
                ;
                assert(self.cell_index((cur - CELL_SIZE) as usize) == ci - 1);
            }
            cur = cur - CELL_SIZE;
        }
        let ghost h = run_header_of(s, old(self).cell_index(ptr));
        proof {
            let ci = self.cell_index(cur);
            assert(is_header(s[ci]));
            assert(run_header_of(s, ci) == ci);
            assert(ci == h);
        }
        self.mark.set::<true>(cur);
        proof {
            assert(self.cells() =~= s.update(h, CellState::BlackHeader));
        }
        true
    }

    /// Reclaims unreached runs in place: one left-to-right pass that frees
    /// white runs, resets black runs to white for the next cycle, and leaves
    /// free cells and the extents of black runs alone.
    #[verifier::loop_isolation(false)]
    pub fn sweep(&mut self)
        requires
            old(self).wf(),
            cells_wf(old(self).cells()),
        ensures
            final(self).wf(),
            final(self).mem == old(self).mem,
            final(self).cells() == sweep_spec(old(self).cells()),
            cells_wf(final(self).cells()),
    {
        let ghost s = self.cells();
        proof {
            self.lemma_counts();
        }
        let mut last: Option<CellState> = None;
        let mut index: usize = 0;
        while index < CELLS_PER_PAGE
            invariant
                index <= CELLS_PER_PAGE,
                self.wf(),
                self.mem == old(self).mem,
                last == last_header(s, index as int),
                forall|j: int| 0 <= j < index ==> self.cells()[j] == sweep_cell(s, j),
                forall|j: int| index <= j < CELLS_PER_PAGE ==> self.cells()[j] == s[j],
            decreases CELLS_PER_PAGE - index,
        {
            let a = self.mem.start() + index * CELL_SIZE;
            proof {
                assert(self.cell_index(a) == index);
            }
            let mark_bit = self.mark.get(a);
            let block_bit = self.block.get(a);
            let ghost before = self.cells();
            proof {
                assert(s[index as int] == cell_state_of(block_bit, mark_bit));
            }
            if block_bit {
                if mark_bit {
                    self.mark.set::<false>(a);
                    last = Some(CellState::BlackHeader);
                } else {
                    self.block.set::<false>(a);
                    self.mark.set::<true>(a);
                    last = Some(CellState::WhiteHeader);
                }
            } else {
                if !mark_bit {
                    match last {
                        Some(CellState::WhiteHeader) => {
                            self.mark.set::<true>(a);
                        },
                        _ => {},
                    }
                }
            }
            proof {
                assert forall|j: int| 0 <= j < CELLS_PER_PAGE implies self.cells()[j] == (if j
                    == index {
                    sweep_cell(s, j)
                } else {
                    before[j]
                }) by {};
            }
            index = index + 1;
        }
        proof {
            assert(self.cells() =~= sweep_spec(s));
            lemma_sweep_preserves_cells_wf(s);
        }
    }
}

/// If every cell of the page were free, word `k` of the block bitmap would
/// be all zeros and word `k` of the mark bitmap all ones; a word that is
/// not settles that some cell is not free.
proof fn lemma_word_of_free_cells(page: &Page, k: int, block_w: u64, mark_w: u64)
    requires
        page.wf(),
        0 <= k,
        k * 64 < CELLS_PER_PAGE,
        block_w == page.block.words@[k],
        mark_w == page.mark.words@[k],
        block_w != 0 || mark_w != u64::MAX,
    ensures
        !(forall|i: int| 0 <= i < CELLS_PER_PAGE ==> page.cells()[i] == CellState::Free),
{
    page.lemma_counts();
    if forall|i: int| 0 <= i < CELLS_PER_PAGE ==> page.cells()[i] == CellState::Free {
        assert forall|t: u64| t < 64 implies !crate::bitmap::word_bit(block_w, t)
            && crate::bitmap::word_bit(mark_w, t) by {
            let i = 64 * k + t;
            assert(0 <= i < CELLS_PER_PAGE) by (nonlinear_arith)
                requires
                    0 <= k,
                    k * 64 < CELLS_PER_PAGE,
                    t < 64,
                    i == 64 * k + t,
                    CELLS_PER_PAGE as int % 64 == 0,
            ;
            assert(page.cells()[i] == CellState::Free);
            assert(i / 64 == k && i % 64 == t) by (nonlinear_arith)
                requires
                    i == 64 * k + t,
                    0 <= t < 64,
            ;
        };
        crate::bitmap::lemma_all_bits_clear(block_w);
        crate::bitmap::lemma_all_bits_set(mark_w);
        assert(false);
    }
}

} // verus!
