//! The model of one virtual-memory region: its address bounds.
//!
//! A region is an anonymous, zero-initialized mapping of a fixed size.  The
//! allocator never reads or writes the mapped bytes; all it needs are the
//! region's bounds, so that is what this type holds.  Obtaining the mapping
//! itself (and the advisory commit/decommit hints, which affect performance
//! only) is platform work that stays outside the library: the caller maps a
//! region and passes its start address in.
use vstd::prelude::*;

use crate::round_up;
use crate::spec_round_up;
use crate::PAGE_SIZE;

verus! {

/// Address bounds of one exclusively owned virtual-memory region.
#[derive(Debug)]
pub struct Mem {
    /// First address of the region.
    pub start: usize,
    /// Byte size of the region, always a multiple of `PAGE_SIZE`.
    pub size: usize,
}

impl Mem {
    /// The region's size is a whole number of pages and its end address
    /// does not wrap around the address space.
    pub open spec fn wf(&self) -> bool {
        &&& (self.size as int) % (PAGE_SIZE as int) == 0
        &&& self.start + self.size <= usize::MAX
    }

    /// One past the last address of the region.
    pub open spec fn spec_end(&self) -> int {
        self.start + self.size
    }

    /// A region of at least `size` bytes (rounded up to the page granularity)
    /// starting at `start`, an address the caller obtained from the platform.
    pub fn new(start: usize, size: usize) -> (r: Mem)
        requires
            size + PAGE_SIZE <= usize::MAX,
            start + spec_round_up(size as int, PAGE_SIZE as int) <= usize::MAX,
        ensures
            r.wf(),
            r.start == start,
            r.size == spec_round_up(size as int, PAGE_SIZE as int),
            size <= r.size,
    {
        let size = round_up(size, PAGE_SIZE);
        Mem { start, size }
    }

    /// First address of the region.
    pub fn start(&self) -> (r: usize)
        ensures
            r == self.start,
    {
        self.start
    }

    /// Byte size of the region.
    pub fn size(&self) -> (r: usize)
        ensures
            r == self.size,
    {
        self.size
    }

    /// One past the last address of the region.
    pub fn end(&self) -> (r: usize)
        requires
            self.wf(),
        ensures
            r == self.spec_end(),
    {
        self.start + self.size
    }
}

} // verus!
