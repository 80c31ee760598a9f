//! A rectangular field of cells addressed by `(row, col)`.

use vstd::prelude::*;

verus! {

/// A `rows x cols` field stored row by row.
#[derive(Clone, Debug, PartialEq, Eq)]
pub struct Grid<T> {
    rows: usize,
    cols: usize,
    cells: Vec<T>,
}

/// A cell `(r, c)` of a `rows x cols` field has a slot in the row-major store.
pub proof fn lemma_slot_in_range(rows: int, cols: int, r: int, c: int)
    requires
        0 <= r < rows,
        0 <= c < cols,
    ensures
        0 <= r * cols + c < rows * cols,
        r * cols <= (rows - 1) * cols,
{
    assert(r * cols <= (rows - 1) * cols) by (nonlinear_arith)
        requires
            0 <= r <= rows - 1,
            0 <= cols,
    ;
    assert((rows - 1) * cols == rows * cols - cols) by (nonlinear_arith);
    assert(0 <= r * cols) by (nonlinear_arith)
        requires
            0 <= r,
            0 <= cols,
    ;
}

impl<T: Copy> View for Grid<T> {
    type V = Seq<Seq<T>>;

    /// The field as a sequence of rows, each a sequence of cells.
    closed spec fn view(&self) -> Seq<Seq<T>> {
        Seq::new(
            self.rows as nat,
            |r: int| Seq::new(self.cols as nat, |c: int| self.cells@[r * (self.cols as int) + c]),
        )
    }
}

impl<T: Copy> Grid<T> {
    /// The store holds exactly one slot for each cell.
    pub closed spec fn wf(&self) -> bool {
        &&& self.rows * self.cols <= usize::MAX
        &&& self.cells@.len() == self.rows * self.cols
    }

    /// Number of rows.
    pub closed spec fn height(&self) -> nat {
        self.rows as nat
    }

    /// Number of columns.
    pub closed spec fn width(&self) -> nat {
        self.cols as nat
    }

    /// Whether `(r, c)` names a cell of the field.
    pub open spec fn contains(&self, r: int, c: int) -> bool {
        0 <= r < self.height() && 0 <= c < self.width()
    }

    /// The value held at `(r, c)`.
    pub open spec fn at(&self, r: int, c: int) -> T {
        self@[r][c]
    }

    /// The view has the shape that `height` and `width` give.
    pub proof fn lemma_shape(&self)
        ensures
            self@.len() == self.height(),
            forall|r: int| 0 <= r < self.height() ==> (#[trigger] self@[r]).len() == self.width(),
    {
    }

    /// A field of the given shape with `value` in every cell.
    pub fn filled(rows: usize, cols: usize, value: T) -> (g: Self)
        requires
            rows * cols <= usize::MAX,
        ensures
            g.wf(),
            g.height() == rows,
            g.width() == cols,
            forall|r: int, c: int| g.contains(r, c) ==> #[trigger] g.at(r, c) == value,
    {
        let total: usize = rows * cols;
        let mut cells: Vec<T> = Vec::new();
        let mut i: usize = 0;
        while i < total
            invariant
                i <= total,
                cells@.len() == i,
                forall|k: int| 0 <= k < i ==> cells@[k] == value,
            decreases total - i,
        {
            cells.push(value);
            i += 1;
        }
        let g = Grid { rows, cols, cells };
        proof {
            assert forall|r: int, c: int| g.contains(r, c) implies #[trigger] g.at(r, c)
                == value by {
                lemma_slot_in_range(rows as int, cols as int, r, c);
            }
        }
        g
    }

    /// Writes `value` to every cell.
    pub fn fill(&mut self, value: T)
        requires
            old(self).wf(),
        ensures
            final(self).wf(),
            final(self).height() == old(self).height(),
            final(self).width() == old(self).width(),
            forall|r: int, c: int|
                final(self).contains(r, c) ==> #[trigger] final(self).at(r, c) == value,
    {
        let total: usize = self.cells.len();
        let mut i: usize = 0;
        while i < total
            invariant
                i <= total,
                self.cells@.len() == total,
                self.rows == old(self).rows,
                self.cols == old(self).cols,
                forall|k: int| 0 <= k < i ==> self.cells@[k] == value,
            decreases total - i,
        {
            self.cells.set(i, value);
            i += 1;
        }
        proof {
            assert forall|r: int, c: int| self.contains(r, c) implies #[trigger] self.at(r, c)
                == value by {
                lemma_slot_in_range(self.rows as int, self.cols as int, r, c);
            }
        }
    }

    /// Whether the store holds exactly one slot for each cell.
    pub fn is_sound(&self) -> (sound: bool)
        ensures
            sound == self.wf(),
    {
        match self.rows.checked_mul(self.cols) {
            Some(total) => self.cells.len() == total,
            None => false,
        }
    }

    /// Number of rows.
    pub fn rows(&self) -> (n: usize)
        ensures
            n == self.height(),
    {
        self.rows
    }

    /// Number of columns.
    pub fn cols(&self) -> (n: usize)
        ensures
            n == self.width(),
    {
        self.cols
    }

    /// Reads the cell `(r, c)`.
    pub fn get(&self, r: usize, c: usize) -> (value: T)
        requires
            self.wf(),
            self.contains(r as int, c as int),
        ensures
            value == self.at(r as int, c as int),
    {
        proof {
            lemma_slot_in_range(self.rows as int, self.cols as int, r as int, c as int);
        }
        self.cells[r * self.cols + c]
    }

    /// Writes `value` to the cell `(r, c)` and leaves every other cell as it was.
    pub fn set(&mut self, r: usize, c: usize, value: T)
        requires
            old(self).wf(),
            old(self).contains(r as int, c as int),
        ensures
            final(self).wf(),
            final(self).height() == old(self).height(),
            final(self).width() == old(self).width(),
            final(self)@ == old(self)@.update(r as int, old(self)@[r as int].update(c as int, value)),
            final(self).at(r as int, c as int) == value,
            forall|r2: int, c2: int|
                old(self).contains(r2, c2) && (r2 != r || c2 != c) ==> #[trigger] final(self).at(
                    r2,
                    c2,
                ) == old(self).at(r2, c2),
    {
        proof {
            lemma_slot_in_range(self.rows as int, self.cols as int, r as int, c as int);
        }
        let slot: usize = r * self.cols + c;
        self.cells.set(slot, value);
        proof {
            let cols = self.cols as int;
            let target = old(self)@.update(r as int, old(self)@[r as int].update(c as int, value));
            assert(target.len() == self@.len());
            assert forall|r2: int| 0 <= r2 < self@.len() implies #[trigger] self@[r2]
                =~= target[r2] by {
                assert(target[r2].len() == cols);
                assert forall|c2: int| 0 <= c2 < cols implies #[trigger] self@[r2][c2]
                    == target[r2][c2] by {
                    lemma_slot_in_range(self.rows as int, cols, r2, c2);
                    if r2 != r {
                        lemma_slots_differ(cols, r2, c2, r as int, c as int);
                    }
                }
            }
            assert(self@ =~= target);
        }
    }
}

/// Two cells in different rows occupy different slots.
pub proof fn lemma_slots_differ(cols: int, r1: int, c1: int, r2: int, c2: int)
    requires
        0 <= c1 < cols,
        0 <= c2 < cols,
        r1 != r2,
    ensures
        r1 * cols + c1 != r2 * cols + c2,
{
    if r1 < r2 {
        assert(r1 * cols + cols <= r2 * cols) by (nonlinear_arith)
            requires
                r1 + 1 <= r2,
                0 <= cols,
        ;
    } else {
        assert(r2 * cols + cols <= r1 * cols) by (nonlinear_arith)
            requires
                r2 + 1 <= r1,
                0 <= cols,
        ;
    }
}

} // verus!
