//! The in-band record written at the start of every allocation.
//!
//! The header is exactly one cell wide, which is why the cell granule and
//! the header width are the same; the first cell of every run can therefore
//! hold exactly one header.  The allocator itself never reads a header: the
//! type exists for the client that places one at each returned address.
use vstd::prelude::*;

use crate::CELL_SIZE;

verus! {

/// One allocation's in-band record: a type tag, the current logical size in
/// bytes, and the cell count of the run that backs it.
#[derive(Debug)]
pub struct ObjectHeader {
    /// Cell count of the backing run.
    pub run_size: u32,
    /// Current logical size in bytes, never above `max_size`.
    pub size: u32,
    /// Opaque type tag handed in by the client.
    pub ty: usize,
}

impl ObjectHeader {
    /// The logical size never exceeds what the backing run can hold, and
    /// that capacity is representable.
    pub open spec fn wf(&self) -> bool {
        &&& self.size <= self.run_size * CELL_SIZE
        &&& self.run_size * CELL_SIZE <= usize::MAX
    }

    /// A header for a run of `run_size` cells holding an object of `size`
    /// bytes tagged `ty`.
    pub fn new(ty: usize, size: u32, run_size: u32) -> (r: ObjectHeader)
        requires
            size <= run_size * CELL_SIZE,
            run_size * CELL_SIZE <= usize::MAX,
        ensures
            r.wf(),
            r.ty == ty,
            r.size == size,
            r.run_size == run_size,
    {
        ObjectHeader { run_size, size, ty }
    }

    /// The byte capacity of the backing run.
    pub fn max_size(&self) -> (r: usize)
        requires
            self.wf(),
        ensures
            r == self.run_size * CELL_SIZE,
    {
        self.run_size as usize * CELL_SIZE
    }

    /// The current logical size in bytes.
    pub fn size(&self) -> (r: usize)
        ensures
            r == self.size,
    {
        self.size as usize
    }

    /// The client's type tag.
    pub fn ty(&self) -> (r: usize)
        ensures
            r == self.ty,
    {
        self.ty
    }

    /// Shrinks or grows the logical size; a size beyond the backing run's
    /// capacity is rejected by contract.
    pub fn set_size(&mut self, size: u32)
        requires
            old(self).wf(),
            size <= old(self).run_size * CELL_SIZE,
        ensures
            final(self).wf(),
            final(self).size == size,
            final(self).run_size == old(self).run_size,
            final(self).ty == old(self).ty,
    {
        self.size = size;
    }
}

} // verus!
