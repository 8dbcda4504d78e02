//! A rectangular frame buffer of character cells, stored row-major, and the
//! differ that lists the positions at which two equally sized buffers
//! disagree.

use vstd::prelude::*;

use crate::cell::{default_cell, BufCell};

verus! {

/// The row-major sequence of differing positions between the first `n` cells
/// of `cur` and `prev`: one `(col, row, new_cell)` triple for every index at
/// which the two buffers hold different cells, in index order.
pub open spec fn diff_upto(cur: Seq<BufCell>, prev: Seq<BufCell>, w: usize, n: int) -> Seq<
    (usize, usize, BufCell),
>
    decreases n,
{
    if n <= 0 {
        Seq::empty()
    } else {
        let i = n - 1;
        diff_upto(cur, prev, w, i) + if cur[i] != prev[i] {
            seq![(((i % (w as int)) as usize, (i / (w as int)) as usize, cur[i]))]
        } else {
            Seq::empty()
        }
    }
}

/// The full diff of two buffers of `len` cells each.
pub open spec fn diff_of(cur: Seq<BufCell>, prev: Seq<BufCell>, w: usize, len: int) -> Seq<
    (usize, usize, BufCell),
> {
    diff_upto(cur, prev, w, len)
}

/// Equal buffers have an empty diff.
pub proof fn lemma_equal_buffers_empty_diff(cur: Seq<BufCell>, prev: Seq<BufCell>, w: usize, n: int)
    requires
        forall|i: int| 0 <= i < n ==> cur[i] == prev[i],
    ensures
        diff_upto(cur, prev, w, n) == Seq::<(usize, usize, BufCell)>::empty(),
    decreases n,
{
    if n > 0 {
        lemma_equal_buffers_empty_diff(cur, prev, w, n - 1);
        assert(diff_upto(cur, prev, w, n) =~= diff_upto(cur, prev, w, n - 1));
    }
}

/// A rectangular grid of cells. `size` is `(columns, rows)` and `cells` holds
/// exactly `columns * rows` entries, row-major: the cell at `(col, row)` is
/// `cells[col + row * columns]`.
pub struct Buffer {
    pub size: (usize, usize),
    pub cells: Vec<BufCell>,
}

impl Buffer {
    /// The structural invariant: the cell count matches the dimensions.
    pub open spec fn wf(self) -> bool {
        self.cells.len() == self.size.0 * self.size.1
    }

    /// A buffer of the given size with every cell blank.
    pub fn empty(size: (usize, usize)) -> (r: Buffer)
        requires
            size.0 * size.1 <= usize::MAX,
        ensures
            r.wf(),
            r.size == size,
            forall|i: int| 0 <= i < r.cells.len() ==> r.cells[i] == default_cell(),
    {
        Buffer::filled_with(size, BufCell::default())
    }

    /// A buffer of the given size with every cell equal to `cell`.
    pub fn filled_with(size: (usize, usize), cell: BufCell) -> (r: Buffer)
        requires
            size.0 * size.1 <= usize::MAX,
        ensures
            r.wf(),
            r.size == size,
            forall|i: int| 0 <= i < r.cells.len() ==> r.cells[i] == cell,
    {
        let n = size.0 * size.1;
        let mut cells: Vec<BufCell> = Vec::new();
        let mut k: usize = 0;
        while k < n
            invariant
                k <= n,
                cells.len() == k,
                forall|i: int| 0 <= i < k ==> cells[i] == cell,
            decreases n - k,
        {
            cells.push(cell);
            k = k + 1;
        }
        Buffer { size, cells }
    }

    /// Returns every cell to the blank state, keeping the dimensions.
    pub fn reset(&mut self)
        ensures
            final(self).size == old(self).size,
            final(self).cells.len() == old(self).cells.len(),
            forall|i: int|
                0 <= i < final(self).cells.len() ==> final(self).cells[i] == default_cell(),
    {
        let n = self.cells.len();
        let mut k: usize = 0;
        while k < n
            invariant
                k <= n,
                self.size == old(self).size,
                self.cells.len() == n,
                forall|i: int| 0 <= i < k ==> self.cells[i] == default_cell(),
            decreases n - k,
        {
            let blank = BufCell::default();
            self.cells.set(k, blank);
            k = k + 1;
        }
    }

    /// Lists the positions where `self` and `other` differ, with `self`'s
    /// cell, in row-major order. Both buffers must have the same shape.
    pub fn diff(&self, other: &Buffer) -> (r: Vec<(usize, usize, BufCell)>)
        requires
            self.wf(),
            other.wf(),
            self.size == other.size,
            self.size.0 > 0,
        ensures
            r@ == diff_of(self.cells@, other.cells@, self.size.0, self.cells@.len() as int),
    {
        let n = self.cells.len();
        let w = self.size.0;
        let mut r: Vec<(usize, usize, BufCell)> = Vec::new();
        let mut i: usize = 0;
        while i < n
            invariant
                i <= n,
                n == self.cells.len(),
                w == self.size.0,
                w > 0,
                other.cells.len() == n,
                r@ == diff_upto(self.cells@, other.cells@, w, i as int),
            decreases n - i,
        {
            let a = self.cells[i];
            let b = other.cells[i];
            if a != b {
                r.push((i % w, i / w, a));
            }
            i = i + 1;
        }
        r
    }
}

} // verus!
