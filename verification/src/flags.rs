//! A rectangular table of flags that start unset and can only be set.

use crate::counting::{count_in_rows, lemma_count_cell_update, rows_of};
use vstd::prelude::*;

verus! {

/// A table of `width` columns of `height` flags.
pub struct Flags {
    rows: Vec<Vec<bool>>,
    width: usize,
    height: usize,
}

impl Flags {
    /// The table is a full rectangle.
    pub closed spec fn wf(&self) -> bool {
        &&& self.rows@.len() == self.width
        &&& forall|x: int| 0 <= x < self.width ==> (#[trigger] self.rows@[x])@.len() == self.height
    }

    /// The number of columns.
    pub closed spec fn width(&self) -> int {
        self.width as int
    }

    /// The number of flags in a column.
    pub closed spec fn height(&self) -> int {
        self.height as int
    }

    /// Whether the flag at `(x, y)` is set; `false` outside the table.
    pub closed spec fn has(&self, x: int, y: int) -> bool {
        0 <= x < self.width && 0 <= y < self.height && self.rows@[x]@[y]
    }

    /// How many flags are not set.
    pub closed spec fn unset(&self) -> nat {
        count_in_rows(rows_of(self.rows@), false)
    }

    /// A flag that is set lies in the table.
    pub proof fn lemma_has_inside(&self, x: int, y: int)
        requires
            self.has(x, y),
        ensures
            0 <= x < self.width(),
            0 <= y < self.height(),
    {
    }

    /// A table of `width` by `height` flags, none set.
    pub fn new(width: usize, height: usize) -> (r: Flags)
        ensures
            r.wf(),
            r.width() == width,
            r.height() == height,
            forall|x: int, y: int| !#[trigger] r.has(x, y),
    {
        let mut row: Vec<bool> = Vec::new();
        let mut j: usize = 0;
        while j < height
            invariant
                j <= height,
                row@.len() == j,
                forall|k: int| 0 <= k < j ==> !row@[k],
            decreases height - j,
        {
            row.push(false);
            j += 1;
        }
        let mut rows: Vec<Vec<bool>> = Vec::new();
        let mut i: usize = 0;
        while i < width
            invariant
                i <= width,
                rows@.len() == i,
                row@.len() == height,
                forall|k: int| 0 <= k < height ==> !row@[k],
                forall|k: int| 0 <= k < i ==> (#[trigger] rows@[k])@ == row@,
            decreases width - i,
        {
            let copy = row.clone();
            assert(copy@ =~= row@);
            rows.push(copy);
            i += 1;
        }
        Flags { rows, width, height }
    }

    /// Whether the flag at `(x, y)` is set.
    pub fn get(&self, x: usize, y: usize) -> (r: bool)
        requires
            self.wf(),
            x < self.width(),
            y < self.height(),
        ensures
            r == self.has(x as int, y as int),
    {
        self.rows[x][y]
    }

    /// Sets the flag at `(x, y)`.
    pub fn set(&mut self, x: usize, y: usize)
        requires
            old(self).wf(),
            x < old(self).width(),
            y < old(self).height(),
        ensures
            final(self).wf(),
            final(self).width() == old(self).width(),
            final(self).height() == old(self).height(),
            forall|i: int, j: int| #[trigger]
                final(self).has(i, j) == (old(self).has(i, j) || (i == x && j == y)),
            final(self).unset() + (if old(self).has(x as int, y as int) {
                0int
            } else {
                1int
            }) == old(self).unset(),
    {
        proof {
            lemma_count_cell_update(rows_of(self.rows@), x as int, y as int, true, false);
        }
        self.rows[x][y] = true;
        assert(rows_of(self.rows@) =~= rows_of(old(self).rows@).update(
            x as int,
            rows_of(old(self).rows@)[x as int].update(y as int, true),
        ));
    }

    /// Sets every flag that is set in `other`.
    pub fn merge(&mut self, other: &Flags)
        requires
            old(self).wf(),
            other.wf(),
            other.width() == old(self).width(),
            other.height() == old(self).height(),
        ensures
            final(self).wf(),
            final(self).width() == old(self).width(),
            final(self).height() == old(self).height(),
            forall|i: int, j: int| #[trigger]
                final(self).has(i, j) == (old(self).has(i, j) || other.has(i, j)),
    {
        let w = self.width;
        let h = self.height;
        let mut x: usize = 0;
        while x < w
            invariant
                x <= w,
                self.wf(),
                other.wf(),
                w == self.width() == other.width(),
                h == self.height() == other.height(),
                self.width() == old(self).width(),
                self.height() == old(self).height(),
                forall|i: int, j: int| #[trigger]
                    self.has(i, j) == (old(self).has(i, j) || (other.has(i, j) && i < x)),
            decreases w - x,
        {
            let mut y: usize = 0;
            while y < h
                invariant
                    x < w,
                    y <= h,
                    self.wf(),
                    other.wf(),
                    w == self.width() == other.width(),
                    h == self.height() == other.height(),
                    self.width() == old(self).width(),
                    self.height() == old(self).height(),
                    forall|i: int, j: int| #[trigger]
                        self.has(i, j) == (old(self).has(i, j) || (other.has(i, j) && (i < x || (i
                            == x && j < y)))),
                decreases h - y,
            {
                if other.get(x, y) {
                    self.set(x, y);
                }
                y += 1;
            }
            x += 1;
        }
    }
}

} // verus!
