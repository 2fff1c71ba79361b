//! The cells that one frame hands to the renderer: the number of records in
//! the first cell, and after it one record per value, each a header of four
//! cells (handle, size, block, variable) followed by `size` values.
//!
//! The buffer is generic in its cell: it lays cells out and never looks into
//! one. The numbers that it writes itself (sizes and the count) it makes
//! from a `u16` by the cell's own conversion.

use crate::arena::{lemma_handle_round_trip, Arena, ArenaID};
use vstd::prelude::*;

verus! {

/// The number of cells in the header of a record.
pub const HEADER_CELLS: usize = 4;

/// The number of values in the record of a matrix.
pub const MATRIX_CELLS: u16 = 16;

/// The sixteen cells of a 4x4 matrix, row by row.
pub open spec fn row_major<T>(matrix: [[T; 4]; 4]) -> Seq<T> {
    Seq::new(16, |c: int| matrix@[c / 4]@[c % 4])
}

/// Whether `cell` is what the number `n` converts to, by the conversion of
/// the cell type.
pub open spec fn is_number<T: From<u16>>(cell: T, n: u16) -> bool {
    call_ensures(<T as From<u16>>::from, (n,), cell)
}

/// The header of a record and its values, as the cells of the record.
pub open spec fn record<T>(id: T, size: T, ublock: T, uvar: T, values: Seq<T>) -> Seq<T> {
    seq![id, size, ublock, uvar] + values
}

/// A frame's cells, at most `N` of them, and the number of records in them.
pub struct MemoryBuffer<T, const N: usize> {
    cells: Arena<T, N>,
    count: usize,
}

impl<T, const N: usize> View for MemoryBuffer<T, N> {
    type V = Seq<T>;

    /// The cells, the count cell first.
    closed spec fn view(&self) -> Seq<T> {
        self.cells@
    }
}

impl<T: Copy + From<u16>, const N: usize> MemoryBuffer<T, N> {
    /// The number of records appended since the buffer was made or reset.
    pub closed spec fn records(&self) -> nat {
        self.count as nat
    }

    /// The count cell is there, the cells fit the capacity, and every record
    /// has its five cells or more.
    pub closed spec fn wf(&self) -> bool {
        &&& self.cells.wf()
        &&& 1 <= self.cells@.len() <= N
        &&& 5 * self.count + 1 <= self.cells@.len()
    }

    /// The records are fewer than the cells: each takes five cells at least.
    pub proof fn lemma_records_fit(&self)
        requires
            self.wf(),
        ensures
            5 * self.records() + 1 <= self@.len() <= N,
    {
    }

    /// A buffer with no record: the count cell alone, holding zero.
    pub fn empty() -> (buffer: Self) where T: Default
        requires
            1 <= N,
        ensures
            buffer.wf(),
            buffer.records() == 0,
            buffer@.len() == 1,
            is_number(buffer@[0], 0),
    {
        let mut cells: Arena<T, N> = Arena::empty();
        cells.add(T::from(0u16));
        MemoryBuffer { cells, count: 0 }
    }

    /// Drops every record: the count cell alone is left, holding zero.
    pub fn buffer_reset(&mut self)
        requires
            old(self).wf(),
        ensures
            final(self).wf(),
            final(self).records() == 0,
            final(self)@.len() == 1,
            is_number(final(self)@[0], 0),
    {
        self.cells.reset();
        self.cells.add(T::from(0u16));
        self.count = 0;
    }

    /// The number of cells, the count cell included.
    pub fn len(&self) -> (n: usize)
        requires
            self.wf(),
        ensures
            n == self@.len(),
            1 <= n <= N,
    {
        self.cells.len()
    }

    /// The number of records appended since the buffer was made or reset.
    pub fn record_count(&self) -> (n: usize)
        requires
            self.wf(),
        ensures
            n == self.records(),
            5 * n + 1 <= self@.len(),
    {
        self.count
    }

    /// The cells as a slice, the count cell first.
    pub fn cells(&self) -> (cells: &[T])
        requires
            self.wf(),
        ensures
            cells@ == self@,
    {
        self.cells.slice()
    }

    /// Writes the number of records into the count cell; no other cell
    /// changes, and neither does the number of cells. The count must be one
    /// that a cell can be made of.
    pub fn update_length(&mut self)
        requires
            old(self).wf(),
            old(self).records() <= u16::MAX,
        ensures
            final(self).wf(),
            final(self).records() == old(self).records(),
            final(self)@ == old(self)@.update(0, final(self)@[0]),
            is_number(final(self)@[0], old(self).records() as u16),
    {
        let count = T::from(self.count as u16);
        let first = ArenaID::from(0usize);
        proof {
            lemma_handle_round_trip(0usize);
        }
        let cell = self.cells.get_mut(first);
        *cell = count;
        assert(self@ =~= old(self)@.update(0, count));
    }

    /// Appends the record of one scalar: handle, size 1, block, variable, value.
    pub fn add_float(&mut self, id: T, ublock: T, uvar: T, value: T)
        requires
            old(self).wf(),
            old(self)@.len() + 5 <= N,
        ensures
            final(self).wf(),
            final(self).records() == old(self).records() + 1,
            final(self)@.len() == old(self)@.len() + 5,
            is_number(final(self)@[old(self)@.len() as int + 1], 1),
            final(self)@ == old(self)@ + record(
                id,
                final(self)@[old(self)@.len() as int + 1],
                ublock,
                uvar,
                seq![value],
            ),
    {
        let size = T::from(1u16);
        self.cells.add(id);
        self.cells.add(size);
        self.cells.add(ublock);
        self.cells.add(uvar);
        self.cells.add(value);
        self.count = self.count + 1;
        assert(self@ =~= old(self)@ + record(id, size, ublock, uvar, seq![value]));
    }

    /// Appends the record of a matrix: handle, size 16, block, variable, and
    /// the sixteen values row by row.
    pub fn add_matrix(&mut self, id: T, ublock: T, uvar: T, matrix: &[[T; 4]; 4])
        requires
            old(self).wf(),
            old(self)@.len() + 20 <= N,
        ensures
            final(self).wf(),
            final(self).records() == old(self).records() + 1,
            final(self)@.len() == old(self)@.len() + 20,
            is_number(final(self)@[old(self)@.len() as int + 1], MATRIX_CELLS),
            final(self)@ == old(self)@ + record(
                id,
                final(self)@[old(self)@.len() as int + 1],
                ublock,
                uvar,
                row_major(*matrix),
            ),
    {
        let size = T::from(MATRIX_CELLS);
        self.cells.add(id);
        self.cells.add(size);
        self.cells.add(ublock);
        self.cells.add(uvar);
        let ghost head = old(self)@ + seq![id, size, ublock, uvar];
        assert(self@ =~= head);
        let mut i: usize = 0;
        while i < 4
            invariant
                i <= 4,
                self.cells.wf(),
                self.count == old(self).count,
                head.len() + 16 <= N,
                self@ == head + row_major(*matrix).take(4 * i as int),
            decreases 4 - i,
        {
            let mut j: usize = 0;
            while j < 4
                invariant
                    i < 4,
                    j <= 4,
                    self.cells.wf(),
                    self.count == old(self).count,
                    head.len() + 16 <= N,
                    self@ == head + row_major(*matrix).take(4 * i as int + j as int),
                decreases 4 - j,
            {
                let value = matrix[i][j];
                self.cells.add(value);
                assert(row_major(*matrix).take(4 * i as int + j as int + 1) =~= row_major(
                    *matrix,
                ).take(4 * i as int + j as int).push(value));
                assert(self@ =~= head + row_major(*matrix).take(4 * i as int + j as int + 1));
                j = j + 1;
            }
            i = i + 1;
        }
        self.count = self.count + 1;
        assert(row_major(*matrix).take(16) =~= row_major(*matrix));
        assert(self@ =~= old(self)@ + record(id, size, ublock, uvar, row_major(*matrix)));
    }
}

} // verus!
