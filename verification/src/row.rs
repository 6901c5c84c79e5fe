//! A fixed sequence of 9 cells, addressable by column index.

use vstd::prelude::*;
use vstd::pervasive::VecAdditionalExecFns;
use crate::cell::Cell;
use crate::cell::cell_value_ok;

verus! {

/// One row of the grid.  Its view is the sequence of the 9 cell values.
#[derive(Debug)]
pub struct Row {
    inner: Vec<Cell>,
}

impl View for Row {
    type V = Seq<Option<u8>>;

    closed spec fn view(&self) -> Seq<Option<u8>> {
        Seq::new(self.inner@.len() as nat, |i: int| self.inner@[i]@)
    }
}

impl Row {
    /// Well-formedness: exactly 9 cells, each empty or holding 1..=9.
    pub open spec fn wf(&self) -> bool {
        self@.len() == 9 && forall|i: int| 0 <= i < 9 ==> cell_value_ok(#[trigger] self@[i])
    }

    /// A row of 9 empty cells.
    pub fn empty() -> (r: Row)
        ensures
            r.wf(),
            forall|i: int| 0 <= i < 9 ==> r@[i] is None,
    {
        let mut inner: Vec<Cell> = Vec::new();
        let mut k: usize = 0;
        while k < 9
            invariant
                k <= 9,
                inner@.len() == k,
                forall|i: int| 0 <= i < k ==> (#[trigger] inner@[i])@ is None,
            decreases 9 - k,
        {
            inner.push(Cell::empty());
            k = k + 1;
        }
        Row { inner }
    }

    /// Replaces the cell at column `col_idx`; the caller supplies an index
    /// in 0..=8.
    pub fn set(&mut self, cell: Cell, col_idx: usize)
        requires
            old(self).wf(),
            cell.wf(),
            col_idx < 9,
        ensures
            final(self).wf(),
            final(self)@ =~= old(self)@.update(col_idx as int, cell@),
    {
        self.inner.set(col_idx, cell);
        proof {
            assert(self@ =~= old(self)@.update(col_idx as int, cell@));
            assert forall|i: int| 0 <= i < 9 implies cell_value_ok(#[trigger] self@[i]) by {
                if i != col_idx as int {
                    assert(cell_value_ok(old(self)@[i]));
                }
            }
        }
    }

    /// Read-only access to the cell at column `col_idx`.
    pub fn cell(&self, col_idx: usize) -> (c: &Cell)
        requires
            col_idx < self@.len(),
        ensures
            c@ == self@[col_idx as int],
    {
        &self.inner[col_idx]
    }
}

} // verus!
