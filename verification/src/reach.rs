//! Reachability over the passable cells of a hardness field.
//!
//! A cell can be entered when its hardness is below [`BLOCKING`]. Two cells
//! are connected when a walk leads from one to the other that only ever
//! steps to the cell above, below, left or right and never leaves the
//! passable cells.

use vstd::prelude::*;

verus! {

/// The least hardness that blocks movement.
pub const BLOCKING: u8 = 2;

/// A cell position, row first.
pub type Cell = (int, int);

/// Whether `(r, c)` lies in the field and can be entered.
pub open spec fn passable(h: Seq<Seq<u8>>, r: int, c: int) -> bool {
    0 <= r < h.len() && 0 <= c < h[r].len() && h[r][c] < BLOCKING
}

/// Whether `b` is the cell directly above, below, left or right of `a`.
pub open spec fn adjacent(a: Cell, b: Cell) -> bool {
    ||| (a.0 == b.0 && (a.1 == b.1 + 1 || b.1 == a.1 + 1))
    ||| (a.1 == b.1 && (a.0 == b.0 + 1 || b.0 == a.0 + 1))
}

/// A non-empty sequence of passable cells in which each cell is adjacent
/// to the next.
pub open spec fn is_walk(h: Seq<Seq<u8>>, p: Seq<Cell>) -> bool {
    &&& p.len() > 0
    &&& forall|i: int| 0 <= i < p.len() ==> passable(h, (#[trigger] p[i]).0, p[i].1)
    &&& forall|i: int| 0 <= i < p.len() - 1 ==> adjacent(#[trigger] p[i], p[i + 1])
}

/// Whether a walk over passable cells leads from `a` to `b`.
pub open spec fn connected(h: Seq<Seq<u8>>, a: Cell, b: Cell) -> bool {
    exists|p: Seq<Cell>| is_walk(h, p) && p[0] == a && p[p.len() - 1] == b
}

/// A passable cell is connected to itself.
pub proof fn lemma_connected_self(h: Seq<Seq<u8>>, a: Cell)
    requires
        passable(h, a.0, a.1),
    ensures
        connected(h, a, a),
{
    let p = seq![a];
    assert(is_walk(h, p) && p[0] == a && p[p.len() - 1] == a);
}

/// Connection has no direction.
pub proof fn lemma_connected_symmetric(h: Seq<Seq<u8>>, a: Cell, b: Cell)
    requires
        connected(h, a, b),
    ensures
        connected(h, b, a),
{
    let p = choose|p: Seq<Cell>| is_walk(h, p) && p[0] == a && p[p.len() - 1] == b;
    let n = p.len() as int;
    let q = Seq::new(p.len(), |i: int| p[n - 1 - i]);
    assert forall|i: int| 0 <= i < q.len() - 1 implies adjacent(#[trigger] q[i], q[i + 1]) by {
        let k = n - 2 - i;
        assert(adjacent(p[k], p[k + 1]));
    }
    assert(is_walk(h, q) && q[0] == b && q[q.len() - 1] == a);
}

/// Two walks that meet in a cell make one walk.
pub proof fn lemma_connected_transitive(h: Seq<Seq<u8>>, a: Cell, b: Cell, c: Cell)
    requires
        connected(h, a, b),
        connected(h, b, c),
    ensures
        connected(h, a, c),
{
    let p = choose|p: Seq<Cell>| is_walk(h, p) && p[0] == a && p[p.len() - 1] == b;
    let q = choose|q: Seq<Cell>| is_walk(h, q) && q[0] == b && q[q.len() - 1] == c;
    let n = p.len() as int;
    let w = p + q.subrange(1, q.len() as int);
    assert forall|i: int| 0 <= i < w.len() implies passable(h, (#[trigger] w[i]).0, w[i].1) by {
        if i < n {
            assert(w[i] == p[i]);
        } else {
            assert(w[i] == q[i - n + 1]);
        }
    }
    assert forall|i: int| 0 <= i < w.len() - 1 implies adjacent(#[trigger] w[i], w[i + 1]) by {
        if i < n - 1 {
            assert(adjacent(p[i], p[i + 1]));
        } else if i == n - 1 {
            assert(w[i] == q[0]);
            assert(w[i + 1] == q[1]);
            assert(adjacent(q[0int], q[0int + 1]));
        } else {
            let k = i - n + 1;
            assert(w[i] == q[k]);
            assert(w[i + 1] == q[k + 1]);
            assert(adjacent(q[k], q[k + 1]));
        }
    }
    assert(is_walk(h, w) && w[0] == a && w[w.len() - 1] == c);
}

/// Whether every cell that can be entered in `h` can be entered in `g`.
pub open spec fn opens_no_less(h: Seq<Seq<u8>>, g: Seq<Seq<u8>>) -> bool {
    forall|r: int, c: int| #[trigger] passable(h, r, c) ==> passable(g, r, c)
}

/// Making more cells passable breaks no connection.
pub proof fn lemma_connected_monotone(h: Seq<Seq<u8>>, g: Seq<Seq<u8>>, a: Cell, b: Cell)
    requires
        connected(h, a, b),
        opens_no_less(h, g),
    ensures
        connected(g, a, b),
{
    let p = choose|p: Seq<Cell>| is_walk(h, p) && p[0] == a && p[p.len() - 1] == b;
    assert forall|i: int| 0 <= i < p.len() implies passable(g, (#[trigger] p[i]).0, p[i].1) by {
        assert(passable(h, p[i].0, p[i].1));
    }
    assert(is_walk(g, p) && p[0] == a && p[p.len() - 1] == b);
}

/// Whether the cells of row `r` from column `c1` to column `c2`, both
/// included, are all passable.
pub open spec fn row_run_open(h: Seq<Seq<u8>>, r: int, c1: int, c2: int) -> bool {
    forall|c: int| c1 <= c <= c2 ==> #[trigger] passable(h, r, c)
}

/// Whether the cells of column `c` from row `r1` to row `r2`, both
/// included, are all passable.
pub open spec fn col_run_open(h: Seq<Seq<u8>>, c: int, r1: int, r2: int) -> bool {
    forall|r: int| r1 <= r <= r2 ==> #[trigger] passable(h, r, c)
}

/// The two ends of an open run along a row are connected.
pub proof fn lemma_row_run_connected(h: Seq<Seq<u8>>, r: int, c1: int, c2: int)
    requires
        c1 <= c2,
        row_run_open(h, r, c1, c2),
    ensures
        connected(h, (r, c1), (r, c2)),
    decreases c2 - c1,
{
    assert(passable(h, r, c1));
    if c1 == c2 {
        lemma_connected_self(h, (r, c1));
    } else {
        lemma_row_run_connected(h, r, c1, c2 - 1);
        assert(passable(h, r, c2 - 1));
        assert(passable(h, r, c2));
        let p = seq![(r, c2 - 1), (r, c2)];
        assert(is_walk(h, p) && p[0] == (r, c2 - 1) && p[p.len() - 1] == (r, c2));
        lemma_connected_transitive(h, (r, c1), (r, c2 - 1), (r, c2));
    }
}

/// The two ends of an open run along a column are connected.
pub proof fn lemma_col_run_connected(h: Seq<Seq<u8>>, c: int, r1: int, r2: int)
    requires
        r1 <= r2,
        col_run_open(h, c, r1, r2),
    ensures
        connected(h, (r1, c), (r2, c)),
    decreases r2 - r1,
{
    assert(passable(h, r1, c));
    if r1 == r2 {
        lemma_connected_self(h, (r1, c));
    } else {
        lemma_col_run_connected(h, c, r1, r2 - 1);
        assert(passable(h, r2 - 1, c));
        assert(passable(h, r2, c));
        let p = seq![(r2 - 1, c), (r2, c)];
        assert(is_walk(h, p) && p[0] == (r2 - 1, c) && p[p.len() - 1] == (r2, c));
        lemma_connected_transitive(h, (r1, c), (r2 - 1, c), (r2, c));
    }
}

/// Whether every cell of the rectangle with rows `r1..=r2` and columns
/// `c1..=c2` is passable.
pub open spec fn block_open(h: Seq<Seq<u8>>, r1: int, r2: int, c1: int, c2: int) -> bool {
    forall|r: int, c: int| r1 <= r <= r2 && c1 <= c <= c2 ==> #[trigger] passable(h, r, c)
}

/// Any two cells of an open rectangle are connected.
pub proof fn lemma_block_connected(
    h: Seq<Seq<u8>>,
    r1: int,
    r2: int,
    c1: int,
    c2: int,
    a: Cell,
    b: Cell,
)
    requires
        block_open(h, r1, r2, c1, c2),
        r1 <= a.0 <= r2 && c1 <= a.1 <= c2,
        r1 <= b.0 <= r2 && c1 <= b.1 <= c2,
    ensures
        connected(h, a, b),
{
    // Along the row of `a` to the column of `b`, then along that column.
    let corner: Cell = (a.0, b.1);
    if a.1 <= b.1 {
        assert(row_run_open(h, a.0, a.1, b.1)) by {
            assert forall|c: int| a.1 <= c <= b.1 implies #[trigger] passable(h, a.0, c) by {}
        }
        lemma_row_run_connected(h, a.0, a.1, b.1);
    } else {
        assert(row_run_open(h, a.0, b.1, a.1)) by {
            assert forall|c: int| b.1 <= c <= a.1 implies #[trigger] passable(h, a.0, c) by {}
        }
        lemma_row_run_connected(h, a.0, b.1, a.1);
        lemma_connected_symmetric(h, corner, a);
    }
    if a.0 <= b.0 {
        assert(col_run_open(h, b.1, a.0, b.0)) by {
            assert forall|r: int| a.0 <= r <= b.0 implies #[trigger] passable(h, r, b.1) by {}
        }
        lemma_col_run_connected(h, b.1, a.0, b.0);
    } else {
        assert(col_run_open(h, b.1, b.0, a.0)) by {
            assert forall|r: int| b.0 <= r <= a.0 implies #[trigger] passable(h, r, b.1) by {}
        }
        lemma_col_run_connected(h, b.1, b.0, a.0);
        lemma_connected_symmetric(h, b, corner);
    }
    lemma_connected_transitive(h, a, corner, b);
}

} // verus!
