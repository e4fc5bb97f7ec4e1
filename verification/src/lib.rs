//! A page-based mark-and-sweep cell allocator.
//!
//! Memory is handed out in fixed-size granules ("cells") carved out of
//! fixed-size arenas ("pages").  Two bitmaps per page track, for every cell,
//! whether it is free, the header of a live run (white before tracing, black
//! after), or an interior ("extent") cell of a multi-cell run.  The allocator
//! owns a set of pages, dispatches marking to the page that owns an address,
//! and reclaims unreached runs in place during a sweep.
//!
//! The library never touches the backing memory itself: a region is modelled
//! by its address bounds, and callers supply the start address of each fresh
//! region.  Code that obtains real mappings from the platform lives outside
//! the library and hands plain addresses in.
use vstd::prelude::*;

mod allocator;
mod bitmap;
mod mem;
mod object;

pub use allocator::page::CellState;
pub use allocator::page::Page;
pub use allocator::CLAlloc;
pub use bitmap::GcBitmap;
pub use mem::Mem;
pub use object::ObjectHeader;

verus! {

/// Size in bytes of one allocation granule; one bitmap bit describes one cell.
pub const CELL_SIZE: usize = 16;

/// Size in bytes of one page: the arena each `Page` manages.
pub const PAGE_SIZE: usize = 4096;

/// Number of cells in one page.
pub const CELLS_PER_PAGE: usize = 256;

/// `n` rounded up to the next multiple of `m` (`n` itself if `m` is zero).
pub open spec fn spec_round_up(n: int, m: int) -> int {
    if m == 0 {
        n
    } else if n % m == 0 {
        n
    } else {
        n + m - n % m
    }
}

/// Rounds `n` up to the next multiple of `m`; `m == 0` leaves `n` unchanged.
pub fn round_up(n: usize, m: usize) -> (r: usize)
    requires
        n + m <= usize::MAX,
    ensures
        r == spec_round_up(n as int, m as int),
{
    if m == 0 {
        n
    } else {
        let rem = n % m;
        if rem == 0 {
            n
        } else {
            n + m - rem
        }
    }
}

} // verus!
