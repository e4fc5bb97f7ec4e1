//! A packed bit array with one bit per memory cell of a region.
//!
//! The bitmap is overlaid logically on a `Mem` region: bit `i` describes the
//! cell at address `heap_start + i * CELL_SIZE`.  Addresses are translated to
//! bit positions by `(addr - heap_start) / CELL_SIZE`, then split into a word
//! index and a bit offset within that 64-bit word.
use vstd::prelude::*;

use crate::mem::Mem;
use crate::round_up;
use crate::CELL_SIZE;
use crate::PAGE_SIZE;

verus! {

/// Bit `k` of the word `w`.
pub open spec fn word_bit(w: u64, k: u64) -> bool {
    (w >> k) & 1u64 == 1u64
}

/// Setting bit `j` by or-ing a mask changes bit `j` alone.
proof fn lemma_bit_or(w: u64, j: u64)
    by (bit_vector)
    requires
        j < 64,
    ensures
        word_bit(w | (1u64 << j), j),
        forall|k: u64| #![auto] k < 64 && k != j ==> word_bit(w | (1u64 << j), k) == word_bit(w, k),
{
}

/// Clearing bit `j` by and-ing the negated mask changes bit `j` alone.
proof fn lemma_bit_clear(w: u64, j: u64)
    by (bit_vector)
    requires
        j < 64,
    ensures
        !word_bit(w & !(1u64 << j), j),
        forall|k: u64| #![auto] k < 64 && k != j ==> word_bit(w & !(1u64 << j), k) == word_bit(
            w,
            k,
        ),
{
}

/// And-ing with a one-bit mask tests exactly that bit.
proof fn lemma_bit_test(w: u64, j: u64)
    by (bit_vector)
    requires
        j < 64,
    ensures
        ((w & (1u64 << j)) != 0) == word_bit(w, j),
{
}

/// The all-zero word has no bit set; the all-one word has every bit set.
pub proof fn lemma_const_word_bits(k: u64)
    by (bit_vector)
    requires
        k < 64,
    ensures
        !word_bit(0u64, k),
        word_bit(0xffff_ffff_ffff_ffffu64, k),
{
}

/// A word with each of its 64 bits set is the all-one word.
proof fn lemma_all_bits_set_each(w: u64)
    by (bit_vector)
    requires
        word_bit(w, 0),
        word_bit(w, 1),
        word_bit(w, 2),
        word_bit(w, 3),
        word_bit(w, 4),
        word_bit(w, 5),
        word_bit(w, 6),
        word_bit(w, 7),
        word_bit(w, 8),
        word_bit(w, 9),
        word_bit(w, 10),
        word_bit(w, 11),
        word_bit(w, 12),
        word_bit(w, 13),
        word_bit(w, 14),
        word_bit(w, 15),
        word_bit(w, 16),
        word_bit(w, 17),
        word_bit(w, 18),
        word_bit(w, 19),
        word_bit(w, 20),
        word_bit(w, 21),
        word_bit(w, 22),
        word_bit(w, 23),
        word_bit(w, 24),
        word_bit(w, 25),
        word_bit(w, 26),
        word_bit(w, 27),
        word_bit(w, 28),
        word_bit(w, 29),
        word_bit(w, 30),
        word_bit(w, 31),
        word_bit(w, 32),
        word_bit(w, 33),
        word_bit(w, 34),
        word_bit(w, 35),
        word_bit(w, 36),
        word_bit(w, 37),
        word_bit(w, 38),
        word_bit(w, 39),
        word_bit(w, 40),
        word_bit(w, 41),
        word_bit(w, 42),
        word_bit(w, 43),
        word_bit(w, 44),
        word_bit(w, 45),
        word_bit(w, 46),
        word_bit(w, 47),
        word_bit(w, 48),
        word_bit(w, 49),
        word_bit(w, 50),
        word_bit(w, 51),
        word_bit(w, 52),
        word_bit(w, 53),
        word_bit(w, 54),
        word_bit(w, 55),
        word_bit(w, 56),
        word_bit(w, 57),
        word_bit(w, 58),
        word_bit(w, 59),
        word_bit(w, 60),
        word_bit(w, 61),
        word_bit(w, 62),
        word_bit(w, 63),
    ensures
        w == 0xffff_ffff_ffff_ffffu64,
{
}

/// A word with every bit set is the all-one word.
pub proof fn lemma_all_bits_set(w: u64)
    requires
        forall|k: u64| #![auto] k < 64 ==> word_bit(w, k),
    ensures
        w == 0xffff_ffff_ffff_ffffu64,
{
    lemma_all_bits_set_each(w);
}

/// A word with each of its 64 bits clear is zero.
proof fn lemma_all_bits_clear_each(w: u64)
    by (bit_vector)
    requires
        !word_bit(w, 0),
        !word_bit(w, 1),
        !word_bit(w, 2),
        !word_bit(w, 3),
        !word_bit(w, 4),
        !word_bit(w, 5),
        !word_bit(w, 6),
        !word_bit(w, 7),
        !word_bit(w, 8),
        !word_bit(w, 9),
        !word_bit(w, 10),
        !word_bit(w, 11),
        !word_bit(w, 12),
        !word_bit(w, 13),
        !word_bit(w, 14),
        !word_bit(w, 15),
        !word_bit(w, 16),
        !word_bit(w, 17),
        !word_bit(w, 18),
        !word_bit(w, 19),
        !word_bit(w, 20),
        !word_bit(w, 21),
        !word_bit(w, 22),
        !word_bit(w, 23),
        !word_bit(w, 24),
        !word_bit(w, 25),
        !word_bit(w, 26),
        !word_bit(w, 27),
        !word_bit(w, 28),
        !word_bit(w, 29),
        !word_bit(w, 30),
        !word_bit(w, 31),
        !word_bit(w, 32),
        !word_bit(w, 33),
        !word_bit(w, 34),
        !word_bit(w, 35),
        !word_bit(w, 36),
        !word_bit(w, 37),
        !word_bit(w, 38),
        !word_bit(w, 39),
        !word_bit(w, 40),
        !word_bit(w, 41),
        !word_bit(w, 42),
        !word_bit(w, 43),
        !word_bit(w, 44),
        !word_bit(w, 45),
        !word_bit(w, 46),
        !word_bit(w, 47),
        !word_bit(w, 48),
        !word_bit(w, 49),
        !word_bit(w, 50),
        !word_bit(w, 51),
        !word_bit(w, 52),
        !word_bit(w, 53),
        !word_bit(w, 54),
        !word_bit(w, 55),
        !word_bit(w, 56),
        !word_bit(w, 57),
        !word_bit(w, 58),
        !word_bit(w, 59),
        !word_bit(w, 60),
        !word_bit(w, 61),
        !word_bit(w, 62),
        !word_bit(w, 63),
    ensures
        w == 0u64,
{
}

/// A word with no bit set is zero.
pub proof fn lemma_all_bits_clear(w: u64)
    requires
        forall|k: u64| #![auto] k < 64 ==> !word_bit(w, k),
    ensures
        w == 0u64,
{
    lemma_all_bits_clear_each(w);
}

/// One bit per cell of the region `[heap_start, heap_end)`, packed into
/// 64-bit words.
#[derive(Debug)]
pub struct GcBitmap {
    /// The packed bits, 64 per word.
    pub words: Vec<u64>,
    /// First address of the region this bitmap indexes.
    pub heap_start: usize,
    /// One past the last address of the region this bitmap indexes.
    pub heap_end: usize,
}

impl GcBitmap {
    /// Number of cells (and so of live bits) the bitmap describes.
    pub open spec fn cell_count(&self) -> int {
        (self.heap_end - self.heap_start) / (CELL_SIZE as int)
    }

    /// The region is a whole number of pages, so the bit count fills the
    /// word array exactly.
    pub open spec fn wf(&self) -> bool {
        &&& self.heap_start <= self.heap_end
        &&& (self.heap_end - self.heap_start) % (PAGE_SIZE as int) == 0
        &&& self.words@.len() * 64 == self.cell_count()
    }

    /// The bit array: bit `i` describes the cell at
    /// `heap_start + i * CELL_SIZE`.
    pub open spec fn bits(&self) -> Seq<bool> {
        Seq::new(self.cell_count() as nat, |i: int| word_bit(self.words@[i / 64], (i % 64) as u64))
    }

    /// Whether `addr` lies within the region this bitmap indexes.
    pub open spec fn in_range(&self, addr: usize) -> bool {
        self.heap_start <= addr < self.heap_end
    }

    /// The bit position that describes the cell holding `addr`.
    pub open spec fn spec_bit_index(&self, addr: usize) -> int {
        (addr - self.heap_start) / (CELL_SIZE as int)
    }

    /// A zero-filled bitmap sized for `heap`, one bit per cell.
    pub fn new(heap: &Mem) -> (r: GcBitmap)
        requires
            heap.wf(),
        ensures
            r.wf(),
            r.heap_start == heap.start,
            r.heap_end == heap.spec_end(),
            r.cell_count() == (heap.size as int) / (CELL_SIZE as int),
            forall|i: int| 0 <= i < r.cell_count() ==> !r.bits()[i],
    {
        let size = round_up(heap.size() / CELL_SIZE, 64) / 64;
        let words: Vec<u64> = vec![0u64; size];
        let r = GcBitmap { words, heap_start: heap.start(), heap_end: heap.end() };
        proof {
            let s = heap.size as int;
            let c = s / (CELL_SIZE as int);
            assert(s % 4096 == 0);
            assert(c % 64 == 0 && c / 64 * 64 == c) by {
                vstd::arithmetic::div_mod::lemma_fundamental_div_mod(s, 4096);
                let m = s / 4096;
                assert(s == 4096 * m);
                assert(c == 256 * m) by (nonlinear_arith)
                    requires
                        s == 4096 * m,
                        c == s / 16,
                ;
                assert(c % 64 == 0 && c / 64 * 64 == c) by (nonlinear_arith)
                    requires
                        c == 256 * m,
                ;
            };
            assert(size as int == c / 64);
            assert(r.words@.len() * 64 == r.cell_count());
            assert forall|i: int| 0 <= i < r.cell_count() implies !r.bits()[i] by {
                lemma_const_word_bits((i % 64) as u64);
            };
        }
        r
    }

    /// Number of words in the bit array.
    pub fn size(&self) -> (r: usize)
        ensures
            r == self.words@.len(),
    {
        self.words.len()
    }

    /// The word at `index`, or nothing when `index` is out of bounds.
    pub fn _index(&self, index: usize) -> (r: Option<u64>)
        ensures
            r == if index < self.words@.len() {
                Some(self.words@[index as int])
            } else {
                None::<u64>
            },
    {
        if index < self.words.len() {
            Some(self.words[index])
        } else {
            None
        }
    }

    /// The word at `index`; the caller shows `index` is in bounds.
    pub fn index_unchecked(&self, index: usize) -> (r: u64)
        requires
            index < self.words@.len(),
        ensures
            r == self.words@[index as int],
    {
        self.words[index]
    }

    /// The word index and the bit offset of the bit that describes `addr`.
    proof fn lemma_split_bit_index(&self, addr: usize)
        requires
            self.wf(),
            self.in_range(addr),
        ensures
            0 <= self.spec_bit_index(addr) < self.cell_count(),
            self.spec_bit_index(addr) / 64 < self.words@.len(),
            self.spec_bit_index(addr) == 64 * (self.spec_bit_index(addr) / 64) + (
            self.spec_bit_index(addr) % 64),
    {
        let offset = addr - self.heap_start;
        let total = self.heap_end - self.heap_start;
        let b = self.spec_bit_index(addr);
        vstd::arithmetic::div_mod::lemma_fundamental_div_mod(offset, 16);
        vstd::arithmetic::div_mod::lemma_fundamental_div_mod(total, 4096);
        assert(total % 16 == 0) by (nonlinear_arith)
            requires
                total % 4096 == 0,
                total == 4096 * (total / 4096) + total % 4096,
        ;
        assert(b < total / 16) by (nonlinear_arith)
            requires
                b == offset / 16,
                0 <= offset < total,
                total % 16 == 0,
        ;
        assert(total / 16 == self.cell_count());
        vstd::arithmetic::div_mod::lemma_fundamental_div_mod(b, 64);
        assert(b / 64 < self.words@.len()) by (nonlinear_arith)
            requires
                0 <= b < self.words@.len() * 64,
        ;
    }

    /// Sets (when `SET` is true) or clears the bit corresponding to `addr`,
    /// an address within the owning region's bounds.
    pub fn set<const SET: bool>(&mut self, obj: usize)
        requires
            old(self).wf(),
            old(self).in_range(obj),
        ensures
            final(self).wf(),
            final(self).heap_start == old(self).heap_start,
            final(self).heap_end == old(self).heap_end,
            final(self).bits() == old(self).bits().update(old(self).spec_bit_index(obj), SET),
    {
        let ghost pre = *self;
        let offset = obj - self.heap_start;
        let index = Self::offset_to_index(offset);
        let mask = Self::offset_to_mask(offset);
        proof {
            pre.lemma_split_bit_index(obj);
        }
        let w = self.words[index];
        let neww = if SET {
            w | mask
        } else {
            w & !mask
        };
        let elem = &mut self.words[index];
        *elem = neww;
        proof {
            let b = pre.spec_bit_index(obj);
            let j = (b % 64) as u64;
            if SET {
                lemma_bit_or(w, j);
            } else {
                lemma_bit_clear(w, j);
            }
            assert forall|i: int| 0 <= i < self.cell_count() implies self.bits()[i]
                == pre.bits().update(b, SET)[i] by {
                vstd::arithmetic::div_mod::lemma_fundamental_div_mod(i, 64);
            };
            assert(self.bits() =~= pre.bits().update(b, SET));
        }
    }

    /// Whether the bit corresponding to `addr` is set.
    pub fn get(&self, obj: usize) -> (r: bool)
        requires
            self.wf(),
            self.in_range(obj),
        ensures
            r == self.bits()[self.spec_bit_index(obj)],
    {
        let offset = obj - self.heap_start;
        let index = Self::offset_to_index(offset);
        let mask = Self::offset_to_mask(offset);
        proof {
            self.lemma_split_bit_index(obj);
        }
        let bitmap = self.words[index];
        proof {
            lemma_bit_test(bitmap, (self.spec_bit_index(obj) % 64) as u64);
        }
        bitmap & mask != 0
    }

    /// Sets every bit of the bitmap.
    pub fn set_all(&mut self)
        requires
            old(self).wf(),
        ensures
            final(self).wf(),
            final(self).heap_start == old(self).heap_start,
            final(self).heap_end == old(self).heap_end,
            final(self).words@.len() == old(self).words@.len(),
            forall|i: int| 0 <= i < final(self).cell_count() ==> final(self).bits()[i],
    {
        let ghost pre = *self;
        let n = self.words.len();
        let mut index: usize = 0;
        while index < n
            invariant
                n == self.words@.len(),
                self.heap_start == pre.heap_start,
                self.heap_end == pre.heap_end,
                forall|k: int| 0 <= k < index ==> self.words@[k] == 0xffff_ffff_ffff_ffffu64,
            decreases n - index,
        {
            let elem = &mut self.words[index];
            *elem = 0xffff_ffff_ffff_ffffu64;
            index = index + 1;
        }
        proof {
            assert forall|i: int| 0 <= i < self.cell_count() implies self.bits()[i] by {
                vstd::arithmetic::div_mod::lemma_fundamental_div_mod(i, 64);
                assert(0 <= i / 64 < self.words@.len()) by (nonlinear_arith)
                    requires
                        0 <= i < self.words@.len() * 64,
                ;
                lemma_const_word_bits((i % 64) as u64);
            };
        }
    }

    /// The address offset that bit `index` describes.
    pub fn bit_index_to_offset(index: usize) -> (r: usize)
        requires
            index * CELL_SIZE <= usize::MAX,
        ensures
            r == index * CELL_SIZE,
    {
        index * CELL_SIZE
    }

    /// The word that holds the bit describing the cell at `offset`.
    pub fn offset_to_index(offset: usize) -> (r: usize)
        ensures
            r == (offset as int) / (CELL_SIZE as int) / 64,
    {
        (offset / CELL_SIZE) / 64
    }

    /// The position within its word of the bit describing the cell at
    /// `offset`.
    pub fn offset_bit_index(offset: usize) -> (r: usize)
        ensures
            r == ((offset as int) / (CELL_SIZE as int)) % 64,
    {
        (offset / CELL_SIZE) % 64
    }

    /// A mask selecting the bit that describes the cell at `offset`.
    pub fn offset_to_mask(offset: usize) -> (r: u64)
        ensures
            r == 1u64 << ((((offset as int) / (CELL_SIZE as int)) % 64) as u64),
    {
        1u64 << (Self::offset_bit_index(offset) as u64)
    }
}

} // verus!
