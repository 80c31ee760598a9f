//! Corridors: how two rooms are joined, how all rooms are joined in the
//! order of their first columns, and why every room can then be reached
//! from every other.

use crate::dungeon::{Dungeon, CORRIDOR, FLOOR, OPEN};
use crate::reach::{
    block_open, col_run_open, connected, lemma_block_connected, lemma_col_run_connected,
    lemma_connected_monotone, lemma_connected_self, lemma_connected_symmetric,
    lemma_connected_transitive, lemma_row_run_connected, opens_no_less, passable, row_run_open,
    Cell,
};
use crate::rooms::{
    ascending_by_col, determine_overlap, lemma_midpoint_in_both, lemma_sorted_properties,
    overlap_midpoint, ranges_overlap, ranges_share, sort_rooms, sorted_by_col, Room,
};
use vstd::prelude::*;

verus! {

/// Whether two rooms share a column.
pub open spec fn cols_shared(a: Room, b: Room) -> bool {
    ranges_share((a.y as int, a.y + a.length - 1), (b.y as int, b.y + b.length - 1))
}

/// Whether two rooms share a row.
pub open spec fn rows_shared(a: Room, b: Room) -> bool {
    ranges_share((a.x as int, a.x + a.width - 1), (b.x as int, b.x + b.width - 1))
}

/// Midpoint of the columns that two rooms share.
pub open spec fn col_mid(a: Room, b: Room) -> int {
    overlap_midpoint((a.y as int, a.y + a.length - 1), (b.y as int, b.y + b.length - 1))
}

/// Midpoint of the rows that two rooms share.
pub open spec fn row_mid(a: Room, b: Room) -> int {
    overlap_midpoint((a.x as int, a.x + a.width - 1), (b.x as int, b.x + b.width - 1))
}

/// Whether `(r, c)` lies on the corridor from room `a` to room `b`.
///
/// Rooms that share columns are joined along the midpoint of those columns,
/// from one room's rows to the other's. Rooms that share rows are joined
/// along the midpoint of those rows, across the columns between them. Rooms
/// that share neither are joined by two legs that meet at a right angle:
/// one runs along the first row of the upper room, the other along the
/// first column of the lower room.
pub open spec fn in_corridor(a: Room, b: Room, r: int, c: int) -> bool {
    if cols_shared(a, b) {
        c == col_mid(a, b) && if a.x + a.width > b.x {
            b.x <= r < a.x + a.width
        } else {
            a.x <= r < b.x
        }
    } else if rows_shared(a, b) {
        r == row_mid(a, b) && a.y + a.length <= c < b.y
    } else if a.x > b.x {
        (c == a.y && b.x <= r < a.x + a.width) || (r == b.x && a.y <= c < b.y)
    } else {
        (c == b.y && a.x <= r < b.x) || (r == a.x && a.y <= c < b.y)
    }
}

/// The cells of the corridor from `a` to `b`.
pub open spec fn corridor_cells(a: Room, b: Room) -> Set<Cell> {
    Set::new(|cell: Cell| in_corridor(a, b, cell.0, cell.1))
}

/// The cells of the corridors that join the first `n` rooms of `s`, each to
/// the next.
pub open spec fn hallway_cells(s: Seq<Room>, n: int) -> Set<Cell> {
    Set::new(
        |cell: Cell|
            exists|i: int|
                0 <= i < n && i + 1 < s.len() && in_corridor(
                    #[trigger] s[i],
                    s[i + 1],
                    cell.0,
                    cell.1,
                ),
    )
}

/// The cells of row `row` in the columns `from..to`.
pub open spec fn row_cells(row: int, from: int, to: int) -> Set<Cell> {
    Set::new(|cell: Cell| cell.0 == row && from <= cell.1 < to)
}

/// The cells of column `col` in the rows `from..to`.
pub open spec fn col_cells(col: int, from: int, to: int) -> Set<Cell> {
    Set::new(|cell: Cell| cell.1 == col && from <= cell.0 < to)
}

/// `after` is `before` with a corridor dug through `cells`: each of them
/// that was not floor is now corridor and open; every other cell, and
/// everything else in the dungeon, is as it was.
pub open spec fn dug(before: Dungeon, after: Dungeon, cells: Set<Cell>) -> bool {
    &&& after.fields_wf()
    &&& after.dungeon_x == before.dungeon_x
    &&& after.dungeon_y == before.dungeon_y
    &&& after.min_width == before.min_width
    &&& after.max_width == before.max_width
    &&& after.min_length == before.min_length
    &&& after.max_length == before.max_length
    &&& after.rooms == before.rooms
    &&& after.player == before.player
    &&& after.monsters@ == before.monsters@
    &&& after.distance_map@ == before.distance_map@
    &&& after.mon_map@ == before.mon_map@
    &&& forall|r: int, c: int|
        before.in_grid(r, c) ==> #[trigger] after.char_map.at(r, c) == (if cells.contains((r, c))
            && before.char_map.at(r, c) != FLOOR {
            CORRIDOR
        } else {
            before.char_map.at(r, c)
        })
    &&& forall|r: int, c: int|
        before.in_grid(r, c) ==> #[trigger] after.hardness_map.at(r, c) == (if cells.contains(
            (r, c),
        ) && before.char_map.at(r, c) != FLOOR {
            OPEN
        } else {
            before.hardness_map.at(r, c)
        })
}

/// Digging through no cell changes nothing.
pub proof fn lemma_dug_nothing(d: Dungeon)
    requires
        d.fields_wf(),
    ensures
        dug(d, d, Set::empty()),
{
}

/// Digging through one set of cells and then through another is digging
/// through both.
pub proof fn lemma_dug_twice(a: Dungeon, b: Dungeon, c: Dungeon, s1: Set<Cell>, s2: Set<Cell>)
    requires
        dug(a, b, s1),
        dug(b, c, s2),
    ensures
        dug(a, c, s1.union(s2)),
{
    let s = s1.union(s2);
    assert forall|r: int, col: int| a.in_grid(r, col) implies #[trigger] c.char_map.at(r, col) == (
    if s.contains((r, col)) && a.char_map.at(r, col) != FLOOR {
        CORRIDOR
    } else {
        a.char_map.at(r, col)
    }) by {
        let x = b.char_map.at(r, col);
        let y = b.hardness_map.at(r, col);
    }
    assert forall|r: int, col: int| a.in_grid(r, col) implies #[trigger] c.hardness_map.at(r, col)
        == (if s.contains((r, col)) && a.char_map.at(r, col) != FLOOR {
        OPEN
    } else {
        a.hardness_map.at(r, col)
    }) by {
        let x = b.char_map.at(r, col);
        let y = b.hardness_map.at(r, col);
    }
}

/// Turns one cell into corridor unless it is floor.
fn carve_cell(d: &mut Dungeon, r: usize, c: usize)
    requires
        old(d).fields_wf(),
        old(d).in_grid(r as int, c as int),
    ensures
        dug(*old(d), *final(d), set![(r as int, c as int)]),
{
    if d.char_map.get(r, c) != FLOOR {
        d.char_map.set(r, c, CORRIDOR);
        d.hardness_map.set(r, c, OPEN);
    }
}

/// Digs along row `row` through the columns `from..to`.
fn carve_row_run(d: &mut Dungeon, row: usize, from: usize, to: usize)
    requires
        old(d).fields_wf(),
        from < to ==> row < old(d).dungeon_x && to <= old(d).dungeon_y,
    ensures
        dug(*old(d), *final(d), row_cells(row as int, from as int, to as int)),
{
    proof {
        lemma_dug_nothing(*d);
        assert(row_cells(row as int, from as int, from as int) =~= Set::empty());
    }
    let mut j: usize = from;
    while j < to
        invariant
            from <= j,
            j <= to || j == from,
            from < to ==> j <= to && row < d.dungeon_x && to <= d.dungeon_y,
            dug(*old(d), *d, row_cells(row as int, from as int, j as int)),
        decreases to - j,
    {
        let ghost before = *d;
        carve_cell(d, row, j);
        proof {
            lemma_dug_twice(
                *old(d),
                before,
                *d,
                row_cells(row as int, from as int, j as int),
                set![(row as int, j as int)],
            );
            assert(row_cells(row as int, from as int, j as int).union(
                set![(row as int, j as int)],
            ) =~= row_cells(row as int, from as int, j + 1));
        }
        j += 1;
    }
    proof {
        assert(row_cells(row as int, from as int, j as int) =~= row_cells(
            row as int,
            from as int,
            to as int,
        ));
    }
}

/// Digs along column `col` through the rows `from..to`.
fn carve_col_run(d: &mut Dungeon, col: usize, from: usize, to: usize)
    requires
        old(d).fields_wf(),
        from < to ==> col < old(d).dungeon_y && to <= old(d).dungeon_x,
    ensures
        dug(*old(d), *final(d), col_cells(col as int, from as int, to as int)),
{
    proof {
        lemma_dug_nothing(*d);
        assert(col_cells(col as int, from as int, from as int) =~= Set::empty());
    }
    let mut j: usize = from;
    while j < to
        invariant
            from <= j,
            j <= to || j == from,
            from < to ==> j <= to && col < d.dungeon_y && to <= d.dungeon_x,
            dug(*old(d), *d, col_cells(col as int, from as int, j as int)),
        decreases to - j,
    {
        let ghost before = *d;
        carve_cell(d, j, col);
        proof {
            lemma_dug_twice(
                *old(d),
                before,
                *d,
                col_cells(col as int, from as int, j as int),
                set![(j as int, col as int)],
            );
            assert(col_cells(col as int, from as int, j as int).union(
                set![(j as int, col as int)],
            ) =~= col_cells(col as int, from as int, j + 1));
        }
        j += 1;
    }
    proof {
        assert(col_cells(col as int, from as int, j as int) =~= col_cells(
            col as int,
            from as int,
            to as int,
        ));
    }
}

/// Joins room `a` to room `b` by a corridor.
pub fn connect_rooms(d: &mut Dungeon, a: Room, b: Room)
    requires
        old(d).fields_wf(),
        a.fits(old(d).dungeon_x as int, old(d).dungeon_y as int),
        b.fits(old(d).dungeon_x as int, old(d).dungeon_y as int),
    ensures
        dug(*old(d), *final(d), corridor_cells(a, b)),
{
    let mut overlap_x: Vec<(usize, usize)> = Vec::new();
    let mut overlap_y: Vec<(usize, usize)> = Vec::new();
    overlap_x.push((a.x, a.x + a.width - 1));
    overlap_x.push((b.x, b.x + b.width - 1));
    overlap_y.push((a.y, a.y + a.length - 1));
    overlap_y.push((b.y, b.y + b.length - 1));
    let share_x: bool = ranges_overlap(overlap_x[0], overlap_x[1]);
    let share_y: bool = ranges_overlap(overlap_y[0], overlap_y[1]);
    let mid_x: usize = determine_overlap(overlap_x);
    let mid_y: usize = determine_overlap(overlap_y);
    proof {
        assert(mid_x == row_mid(a, b));
        assert(mid_y == col_mid(a, b));
        assert(share_x == rows_shared(a, b));
        assert(share_y == cols_shared(a, b));
        if share_y {
            lemma_midpoint_in_both(
                (a.y as int, a.y + a.length - 1),
                (b.y as int, b.y + b.length - 1),
            );
        }
        if share_x {
            lemma_midpoint_in_both((a.x as int, a.x + a.width - 1), (b.x as int, b.x + b.width - 1));
        }
    }
    if share_y {
        if a.x + a.width > b.x {
            carve_col_run(d, mid_y, b.x, a.x + a.width);
            assert(corridor_cells(a, b) =~= col_cells(mid_y as int, b.x as int, a.x + a.width));
        } else {
            carve_col_run(d, mid_y, a.x, b.x);
            assert(corridor_cells(a, b) =~= col_cells(mid_y as int, a.x as int, b.x as int));
        }
    } else if share_x {
        carve_row_run(d, mid_x, a.y + a.length, b.y);
        assert(corridor_cells(a, b) =~= row_cells(mid_x as int, a.y + a.length, b.y as int));
    } else if a.x > b.x {
        carve_col_run(d, a.y, b.x, a.x + a.width);
        let ghost between = *d;
        carve_row_run(d, b.x, a.y, b.y);
        proof {
            let leg1 = col_cells(a.y as int, b.x as int, a.x + a.width);
            let leg2 = row_cells(b.x as int, a.y as int, b.y as int);
            lemma_dug_twice(*old(d), between, *d, leg1, leg2);
            assert(corridor_cells(a, b) =~= leg1.union(leg2));
        }
    } else {
        carve_col_run(d, b.y, a.x, b.x);
        let ghost between = *d;
        carve_row_run(d, a.x, a.y, b.y);
        proof {
            let leg1 = col_cells(b.y as int, a.x as int, b.x as int);
            let leg2 = row_cells(a.x as int, a.y as int, b.y as int);
            lemma_dug_twice(*old(d), between, *d, leg1, leg2);
            assert(corridor_cells(a, b) =~= leg1.union(leg2));
        }
    }
}

/// A corridor between two rooms stays within the rows and within the
/// columns that the two rooms span together.
pub proof fn lemma_corridor_within(a: Room, b: Room, r: int, c: int)
    requires
        1 <= a.width && 1 <= a.length,
        1 <= b.width && 1 <= b.length,
        in_corridor(a, b, r, c),
    ensures
        a.x <= r || b.x <= r,
        r < a.x + a.width || r < b.x + b.width,
        a.y <= c || b.y <= c,
        c < a.y + a.length || c < b.y + b.length,
{
    if cols_shared(a, b) {
        lemma_midpoint_in_both((a.y as int, a.y + a.length - 1), (b.y as int, b.y + b.length - 1));
    } else if rows_shared(a, b) {
        lemma_midpoint_in_both((a.x as int, a.x + a.width - 1), (b.x as int, b.x + b.width - 1));
    }
}

/// The first cell of a room: its first row and first column.
pub open spec fn anchor(room: Room) -> Cell {
    (room.x as int, room.y as int)
}

/// Whether the field has `rows` rows of `cols` cells each.
pub open spec fn has_shape(h: Seq<Seq<u8>>, rows: int, cols: int) -> bool {
    h.len() == rows && forall|r: int| 0 <= r < rows ==> (#[trigger] h[r]).len() == cols
}

/// Whether the cells of both rooms and of the corridor between them are
/// passable.
pub open spec fn pair_open(h: Seq<Seq<u8>>, a: Room, b: Room) -> bool {
    forall|r: int, c: int|
        a.covers(r, c) || b.covers(r, c) || in_corridor(a, b, r, c) ==> #[trigger] passable(
            h,
            r,
            c,
        )
}

/// The corridor joins what it was dug for: where `a` does not start to the
/// right of `b`, and the cells of both rooms and of the corridor between
/// them are passable, a walk leads from the first cell of `a` to the first
/// cell of `b`.
pub proof fn lemma_corridor_joins(h: Seq<Seq<u8>>, rows: int, cols: int, a: Room, b: Room)
    requires
        has_shape(h, rows, cols),
        a.fits(rows, cols),
        b.fits(rows, cols),
        a.y <= b.y,
        pair_open(h, a, b),
    ensures
        connected(h, anchor(a), anchor(b)),
{
    let ax = a.x as int;
    let ay = a.y as int;
    let ax2 = a.x + a.width - 1;
    let ay2 = a.y + a.length - 1;
    let bx = b.x as int;
    let by = b.y as int;
    let bx2 = b.x + b.width - 1;
    let by2 = b.y + b.length - 1;
    assert(block_open(h, ax, ax2, ay, ay2)) by {
        assert forall|r: int, c: int| ax <= r <= ax2 && ay <= c <= ay2 implies #[trigger] passable(
            h,
            r,
            c,
        ) by {
            assert(a.covers(r, c));
        }
    }
    assert(block_open(h, bx, bx2, by, by2)) by {
        assert forall|r: int, c: int| bx <= r <= bx2 && by <= c <= by2 implies #[trigger] passable(
            h,
            r,
            c,
        ) by {
            assert(b.covers(r, c));
        }
    }
    if cols_shared(a, b) {
        let cm = col_mid(a, b);
        lemma_midpoint_in_both((ay, ay2), (by, by2));
        if ax + a.width > bx {
            assert(col_run_open(h, cm, bx, ax2)) by {
                assert forall|r: int| bx <= r <= ax2 implies #[trigger] passable(h, r, cm) by {
                    assert(in_corridor(a, b, r, cm));
                }
            }
            lemma_col_run_connected(h, cm, bx, ax2);
            lemma_connected_symmetric(h, (bx, cm), (ax2, cm));
            lemma_block_connected(h, ax, ax2, ay, ay2, anchor(a), (ax2, cm));
            lemma_block_connected(h, bx, bx2, by, by2, (bx, cm), anchor(b));
            lemma_connected_transitive(h, anchor(a), (ax2, cm), (bx, cm));
            lemma_connected_transitive(h, anchor(a), (bx, cm), anchor(b));
        } else {
            assert(col_run_open(h, cm, ax, bx)) by {
                assert forall|r: int| ax <= r <= bx implies #[trigger] passable(h, r, cm) by {
                    if r < bx {
                        assert(in_corridor(a, b, r, cm));
                    } else {
                        assert(b.covers(r, cm));
                    }
                }
            }
            lemma_col_run_connected(h, cm, ax, bx);
            lemma_block_connected(h, ax, ax2, ay, ay2, anchor(a), (ax, cm));
            lemma_block_connected(h, bx, bx2, by, by2, (bx, cm), anchor(b));
            lemma_connected_transitive(h, anchor(a), (ax, cm), (bx, cm));
            lemma_connected_transitive(h, anchor(a), (bx, cm), anchor(b));
        }
    } else if rows_shared(a, b) {
        let rm = row_mid(a, b);
        lemma_midpoint_in_both((ax, ax2), (bx, bx2));
        if ay2 < by {
            assert(row_run_open(h, rm, ay2, by)) by {
                assert forall|c: int| ay2 <= c <= by implies #[trigger] passable(h, rm, c) by {
                    if c == ay2 {
                        assert(a.covers(rm, c));
                    } else if c == by {
                        assert(b.covers(rm, c));
                    } else {
                        assert(in_corridor(a, b, rm, c));
                    }
                }
            }
            lemma_row_run_connected(h, rm, ay2, by);
            lemma_block_connected(h, ax, ax2, ay, ay2, anchor(a), (rm, ay2));
            lemma_block_connected(h, bx, bx2, by, by2, (rm, by), anchor(b));
            lemma_connected_transitive(h, anchor(a), (rm, ay2), (rm, by));
            lemma_connected_transitive(h, anchor(a), (rm, by), anchor(b));
        } else {
            // The rooms share the cell in which the midpoint row meets the
            // first column of `b`.
            lemma_block_connected(h, ax, ax2, ay, ay2, anchor(a), (rm, by));
            lemma_block_connected(h, bx, bx2, by, by2, (rm, by), anchor(b));
            lemma_connected_transitive(h, anchor(a), (rm, by), anchor(b));
        }
    } else if ax > bx {
        assert(col_run_open(h, ay, bx, ax)) by {
            assert forall|r: int| bx <= r <= ax implies #[trigger] passable(h, r, ay) by {
                assert(in_corridor(a, b, r, ay));
            }
        }
        lemma_col_run_connected(h, ay, bx, ax);
        lemma_connected_symmetric(h, (bx, ay), (ax, ay));
        assert(row_run_open(h, bx, ay, by)) by {
            assert forall|c: int| ay <= c <= by implies #[trigger] passable(h, bx, c) by {
                if c < by {
                    assert(in_corridor(a, b, bx, c));
                } else {
                    assert(b.covers(bx, c));
                }
            }
        }
        lemma_row_run_connected(h, bx, ay, by);
        lemma_connected_transitive(h, anchor(a), (bx, ay), anchor(b));
    } else {
        assert(row_run_open(h, ax, ay, by)) by {
            assert forall|c: int| ay <= c <= by implies #[trigger] passable(h, ax, c) by {
                if c < by {
                    assert(in_corridor(a, b, ax, c));
                } else if ax < bx {
                    assert(in_corridor(a, b, ax, c));
                } else {
                    assert(b.covers(ax, c));
                }
            }
        }
        lemma_row_run_connected(h, ax, ay, by);
        assert(col_run_open(h, by, ax, bx)) by {
            assert forall|r: int| ax <= r <= bx implies #[trigger] passable(h, r, by) by {
                if r < bx {
                    assert(in_corridor(a, b, r, by));
                } else {
                    assert(b.covers(r, by));
                }
            }
        }
        lemma_col_run_connected(h, by, ax, bx);
        lemma_connected_transitive(h, anchor(a), (ax, by), anchor(b));
    }
}

/// Whether every cell of every room of `s` is floor.
pub open spec fn rooms_are_floor(d: Dungeon, s: Seq<Room>) -> bool {
    forall|i: int, r: int, c: int|
        0 <= i < s.len() && #[trigger] s[i].covers(r, c) ==> d.char_map.at(r, c) == FLOOR
}

/// Whether every room of `s` lies within a grid of the given shape.
pub open spec fn rooms_fit(s: Seq<Room>, rows: int, cols: int) -> bool {
    forall|i: int| 0 <= i < s.len() ==> (#[trigger] s[i]).fits(rows, cols)
}

/// Whether a walk over passable cells leads from every cell of every room
/// of `s` to every cell of every room of `s`.
pub open spec fn rooms_connected(h: Seq<Seq<u8>>, s: Seq<Room>) -> bool {
    forall|i: int, j: int, p: Cell, q: Cell|
        0 <= i < s.len() && 0 <= j < s.len() && #[trigger] s[i].covers(p.0, p.1)
            && #[trigger] s[j].covers(q.0, q.1) ==> connected(h, p, q)
}

/// Whether a walk over passable cells leads from every floor cell to every
/// other.
pub open spec fn floor_connected(d: Dungeon) -> bool {
    forall|p: Cell, q: Cell|
        d.in_grid(p.0, p.1) && d.in_grid(q.0, q.1) && #[trigger] d.char_map.at(p.0, p.1) == FLOOR
            && #[trigger] d.char_map.at(q.0, q.1) == FLOOR ==> connected(d.hardness_map@, p, q)
}

/// Digging keeps floor where it was, closes no cell, and opens every cell
/// it goes through, provided the floor was open before.
pub proof fn lemma_dug_keeps_open(a: Dungeon, b: Dungeon, s: Set<Cell>)
    requires
        a.fields_wf(),
        dug(a, b, s),
        a.floor_open(),
    ensures
        b.floor_open(),
        opens_no_less(a.hardness_map@, b.hardness_map@),
        forall|r: int, c: int|
            a.in_grid(r, c) ==> (#[trigger] b.char_map.at(r, c) == FLOOR <==> a.char_map.at(r, c)
                == FLOOR),
        forall|r: int, c: int|
            a.in_grid(r, c) && s.contains((r, c)) ==> #[trigger] passable(b.hardness_map@, r, c),
{
    a.lemma_passable_agrees();
    b.lemma_passable_agrees();
    assert forall|r: int, c: int| a.in_grid(r, c) implies (#[trigger] b.char_map.at(r, c) == FLOOR
        <==> a.char_map.at(r, c) == FLOOR) by {}
    assert forall|r: int, c: int| b.in_grid(r, c) && #[trigger] b.char_map.at(r, c)
        == FLOOR implies b.hardness_map.at(r, c) < crate::reach::BLOCKING by {
        assert(a.char_map.at(r, c) == FLOOR);
        let x = b.hardness_map.at(r, c);
    }
    assert forall|r: int, c: int| #[trigger] passable(a.hardness_map@, r, c) implies passable(
        b.hardness_map@,
        r,
        c,
    ) by {
        assert(a.is_passable(r, c));
        let x = b.hardness_map.at(r, c);
        let y = a.char_map.at(r, c);
        assert(b.is_passable(r, c));
    }
    assert forall|r: int, c: int| a.in_grid(r, c) && s.contains((r, c)) implies #[trigger] passable(
        b.hardness_map@,
        r,
        c,
    ) by {
        let x = b.hardness_map.at(r, c);
        let y = a.char_map.at(r, c);
        assert(b.is_passable(r, c));
    }
}

/// Where the first cell of every room is connected to that of the first
/// room, every cell of every room is connected to every other.
pub proof fn lemma_star_connects_rooms(h: Seq<Seq<u8>>, s: Seq<Room>)
    requires
        forall|k: int, r: int, c: int|
            0 <= k < s.len() && #[trigger] s[k].covers(r, c) ==> passable(h, r, c),
        forall|k: int| 0 <= k < s.len() ==> connected(h, anchor(s[0]), anchor(#[trigger] s[k])),
    ensures
        rooms_connected(h, s),
{
    assert forall|i: int, j: int, p: Cell, q: Cell|
        0 <= i < s.len() && 0 <= j < s.len() && #[trigger] s[i].covers(p.0, p.1)
            && #[trigger] s[j].covers(q.0, q.1) implies connected(h, p, q) by {
        lemma_room_cell_to_anchor(h, s[i], p);
        lemma_room_cell_to_anchor(h, s[j], q);
        assert(connected(h, anchor(s[0]), anchor(s[i])));
        assert(connected(h, anchor(s[0]), anchor(s[j])));
        lemma_connected_symmetric(h, anchor(s[0]), anchor(s[i]));
        lemma_connected_symmetric(h, q, anchor(s[j]));
        lemma_connected_transitive(h, p, anchor(s[i]), anchor(s[0]));
        lemma_connected_transitive(h, p, anchor(s[0]), anchor(s[j]));
        lemma_connected_transitive(h, p, anchor(s[j]), q);
    }
}

/// Within a room whose cells are all passable, every cell is connected to
/// the first.
pub proof fn lemma_room_cell_to_anchor(h: Seq<Seq<u8>>, room: Room, p: Cell)
    requires
        forall|r: int, c: int| #[trigger] room.covers(r, c) ==> passable(h, r, c),
        room.covers(p.0, p.1),
    ensures
        connected(h, p, anchor(room)),
{
    let x2 = room.x + room.width - 1;
    let y2 = room.y + room.length - 1;
    assert(block_open(h, room.x as int, x2, room.y as int, y2)) by {
        assert forall|r: int, c: int|
            room.x <= r <= x2 && room.y <= c <= y2 implies #[trigger] passable(h, r, c) by {
            assert(room.covers(r, c));
        }
    }
    lemma_block_connected(h, room.x as int, x2, room.y as int, y2, p, anchor(room));
}

/// The rooms of `s` are open floor, and the first cell of each of the
/// rooms up to the `n`-th is connected to the first cell of the first.
pub open spec fn joined_upto(d: Dungeon, s: Seq<Room>, n: int) -> bool {
    &&& d.floor_open()
    &&& rooms_are_floor(d, s)
    &&& forall|k: int|
        0 <= k <= n && k < s.len() ==> connected(
            d.hardness_map@,
            anchor(s[0]),
            anchor(#[trigger] s[k]),
        )
}

/// The corridors up to the `n`-th room, with the corridor from that room to
/// the next, are the corridors up to the next room.
pub proof fn lemma_hallway_cells_step(s: Seq<Room>, n: int)
    requires
        0 <= n,
        n + 1 < s.len(),
    ensures
        hallway_cells(s, n).union(corridor_cells(s[n], s[n + 1])) =~= hallway_cells(s, n + 1),
{
    let left = hallway_cells(s, n).union(corridor_cells(s[n], s[n + 1]));
    let right = hallway_cells(s, n + 1);
    assert forall|cell: Cell| left.contains(cell) implies right.contains(cell) by {
        if corridor_cells(s[n], s[n + 1]).contains(cell) {
            assert(in_corridor(s[n], s[n + 1], cell.0, cell.1));
        } else {
            let k = choose|k: int|
                0 <= k < n && k + 1 < s.len() && in_corridor(
                    #[trigger] s[k],
                    s[k + 1],
                    cell.0,
                    cell.1,
                );
            assert(in_corridor(s[k], s[k + 1], cell.0, cell.1));
        }
    }
    assert forall|cell: Cell| right.contains(cell) implies left.contains(cell) by {
        let k = choose|k: int|
            0 <= k < n + 1 && k + 1 < s.len() && in_corridor(
                #[trigger] s[k],
                s[k + 1],
                cell.0,
                cell.1,
            );
        if k < n {
            assert(in_corridor(s[k], s[k + 1], cell.0, cell.1));
            assert(hallway_cells(s, n).contains(cell));
        } else {
            assert(corridor_cells(s[n], s[n + 1]).contains(cell));
        }
    }
}

/// Beyond the last pair of rooms there is no corridor to count.
pub proof fn lemma_hallway_cells_end(s: Seq<Room>, n: int)
    requires
        n + 1 >= s.len(),
    ensures
        hallway_cells(s, n) =~= hallway_cells(s, s.len() as int),
{
    assert forall|cell: Cell| hallway_cells(s, n).contains(cell) implies hallway_cells(
        s,
        s.len() as int,
    ).contains(cell) by {
        let k = choose|k: int|
            0 <= k < n && k + 1 < s.len() && in_corridor(#[trigger] s[k], s[k + 1], cell.0, cell.1);
        assert(in_corridor(s[k], s[k + 1], cell.0, cell.1));
    }
    assert forall|cell: Cell| hallway_cells(s, s.len() as int).contains(cell) implies hallway_cells(
        s,
        n,
    ).contains(cell) by {
        let k = choose|k: int|
            0 <= k < s.len() && k + 1 < s.len() && in_corridor(
                #[trigger] s[k],
                s[k + 1],
                cell.0,
                cell.1,
            );
        assert(in_corridor(s[k], s[k + 1], cell.0, cell.1));
    }
}

/// Digging the corridor from the `n`-th room to the next connects one room
/// more to the first.
pub proof fn lemma_join_step(before: Dungeon, after: Dungeon, s: Seq<Room>, n: int)
    requires
        before.fields_wf(),
        rooms_fit(s, before.dungeon_x as int, before.dungeon_y as int),
        ascending_by_col(s),
        0 <= n,
        n + 1 < s.len(),
        joined_upto(before, s, n),
        dug(before, after, corridor_cells(s[n], s[n + 1])),
    ensures
        joined_upto(after, s, n + 1),
{
    let rows = before.dungeon_x as int;
    let cols = before.dungeon_y as int;
    let a = s[n];
    let b = s[n + 1];
    let h = after.hardness_map@;
    lemma_dug_keeps_open(before, after, corridor_cells(a, b));
    after.lemma_passable_agrees();
    after.hardness_map.lemma_shape();
    assert(rooms_are_floor(after, s)) by {
        assert forall|k: int, r: int, c: int|
            0 <= k < s.len() && #[trigger] s[k].covers(r, c) implies after.char_map.at(r, c)
            == FLOOR by {
            assert(before.char_map.at(r, c) == FLOOR);
            assert(s[k].fits(rows, cols));
            assert(before.in_grid(r, c));
        }
    }
    assert(a.fits(rows, cols) && b.fits(rows, cols));
    assert(pair_open(h, a, b)) by {
        assert forall|r: int, c: int|
            a.covers(r, c) || b.covers(r, c) || in_corridor(a, b, r, c) implies #[trigger] passable(
            h,
            r,
            c,
        ) by {
            if a.covers(r, c) {
                assert(s[n].covers(r, c));
                assert(after.char_map.at(r, c) == FLOOR);
                assert(after.is_passable(r, c));
            } else if b.covers(r, c) {
                assert(s[n + 1].covers(r, c));
                assert(after.char_map.at(r, c) == FLOOR);
                assert(after.is_passable(r, c));
            } else {
                lemma_corridor_within(a, b, r, c);
                assert(corridor_cells(a, b).contains((r, c)));
            }
        }
    }
    assert(s[n].y <= s[n + 1].y);
    lemma_corridor_joins(h, rows, cols, a, b);
    assert forall|k: int| 0 <= k <= n + 1 && k < s.len() implies connected(
        h,
        anchor(s[0]),
        anchor(#[trigger] s[k]),
    ) by {
        if k <= n {
            lemma_connected_monotone(before.hardness_map@, h, anchor(s[0]), anchor(s[k]));
        } else {
            assert(connected(before.hardness_map@, anchor(s[0]), anchor(s[n])));
            lemma_connected_monotone(before.hardness_map@, h, anchor(s[0]), anchor(s[n]));
            lemma_connected_transitive(h, anchor(s[0]), anchor(a), anchor(b));
        }
    }
}

/// Open floor rooms are joined up to the first of them by themselves.
pub proof fn lemma_join_start(d: Dungeon, rooms: Seq<Room>, s: Seq<Room>)
    requires
        d.fields_wf(),
        d.floor_open(),
        rooms_are_floor(d, rooms),
        rooms_fit(rooms, d.dungeon_x as int, d.dungeon_y as int),
        forall|i: int| 0 <= i < s.len() ==> rooms.contains(#[trigger] s[i]),
    ensures
        joined_upto(d, s, 0),
        rooms_fit(s, d.dungeon_x as int, d.dungeon_y as int),
{
    d.lemma_passable_agrees();
    assert forall|i: int| 0 <= i < s.len() implies (#[trigger] s[i]).fits(
        d.dungeon_x as int,
        d.dungeon_y as int,
    ) by {
        assert(rooms.contains(s[i]));
    }
    assert forall|i: int, r: int, c: int|
        0 <= i < s.len() && #[trigger] s[i].covers(r, c) implies d.char_map.at(r, c) == FLOOR by {
        assert(rooms.contains(s[i]));
        let k = choose|k: int| 0 <= k < rooms.len() && rooms[k] == s[i];
        assert(rooms[k].covers(r, c));
    }
    if s.len() > 0 {
        assert(s[0].fits(d.dungeon_x as int, d.dungeon_y as int));
        assert(s[0].covers(s[0].x as int, s[0].y as int));
        assert(d.char_map.at(s[0].x as int, s[0].y as int) == FLOOR);
        assert(d.is_passable(s[0].x as int, s[0].y as int));
        lemma_connected_self(d.hardness_map@, anchor(s[0]));
    }
}

/// Rooms that are joined up to the last are connected cell by cell, and so
/// are the rooms of any list that holds no room but these.
pub proof fn lemma_join_end(d: Dungeon, rooms: Seq<Room>, s: Seq<Room>, n: int)
    requires
        d.fields_wf(),
        rooms_fit(s, d.dungeon_x as int, d.dungeon_y as int),
        joined_upto(d, s, n),
        n + 1 >= s.len(),
        forall|i: int| 0 <= i < rooms.len() ==> s.contains(#[trigger] rooms[i]),
    ensures
        rooms_connected(d.hardness_map@, rooms),
{
    let h = d.hardness_map@;
    d.lemma_passable_agrees();
    assert forall|k: int, r: int, c: int|
        0 <= k < s.len() && #[trigger] s[k].covers(r, c) implies passable(h, r, c) by {
        assert(s[k].fits(d.dungeon_x as int, d.dungeon_y as int));
        assert(d.char_map.at(r, c) == FLOOR);
        assert(d.is_passable(r, c));
    }
    lemma_star_connects_rooms(h, s);
    assert forall|i: int, j: int, p: Cell, q: Cell|
        0 <= i < rooms.len() && 0 <= j < rooms.len() && #[trigger] rooms[i].covers(p.0, p.1)
            && #[trigger] rooms[j].covers(q.0, q.1) implies connected(h, p, q) by {
        assert(s.contains(rooms[i]));
        assert(s.contains(rooms[j]));
        let m = choose|m: int| 0 <= m < s.len() && s[m] == rooms[i];
        let n2 = choose|n2: int| 0 <= n2 < s.len() && s[n2] == rooms[j];
        assert(s[m].covers(p.0, p.1) && s[n2].covers(q.0, q.1));
    }
}

/// Joins the rooms by corridors: in ascending order of their first
/// columns, each room to the next. No floor cell is overwritten. Where the
/// rooms are floor and all floor is open, every cell of every room can
/// afterwards be reached from every other.
pub fn add_hallways(d: &mut Dungeon, rooms: Vec<Room>)
    requires
        old(d).fields_wf(),
        rooms_fit(rooms@, old(d).dungeon_x as int, old(d).dungeon_y as int),
    ensures
        dug(*old(d), *final(d), hallway_cells(sorted_by_col(rooms@), rooms@.len() as int)),
        old(d).floor_open() && rooms_are_floor(*old(d), rooms@) ==> rooms_connected(
            final(d).hardness_map@,
            rooms@,
        ) && final(d).floor_open(),
{
    let sorted: Vec<Room> = sort_rooms(&rooms);
    let ghost s = sorted@;
    let ghost joinable = d.floor_open() && rooms_are_floor(*d, rooms@);
    proof {
        lemma_sorted_properties(rooms@);
        lemma_dug_nothing(*d);
        assert(hallway_cells(s, 0) =~= Set::empty());
        assert forall|i: int| 0 <= i < s.len() implies (#[trigger] s[i]).fits(
            d.dungeon_x as int,
            d.dungeon_y as int,
        ) by {
            assert(rooms@.contains(s[i]));
        }
        if joinable {
            lemma_join_start(*d, rooms@, s);
        }
    }
    let count: usize = sorted.len();
    let mut i: usize = 0;
    while count > 0 && i < count - 1
        invariant
            i < count || i == 0,
            s == sorted@,
            count == s.len(),
            s.len() == rooms@.len(),
            d.dungeon_x == old(d).dungeon_x,
            d.dungeon_y == old(d).dungeon_y,
            rooms_fit(s, d.dungeon_x as int, d.dungeon_y as int),
            ascending_by_col(s),
            d.fields_wf(),
            dug(*old(d), *d, hallway_cells(s, i as int)),
            joinable ==> joined_upto(*d, s, i as int),
        decreases count - i,
    {
        let ghost before = *d;
        let a: Room = sorted[i];
        let b: Room = sorted[i + 1];
        connect_rooms(d, a, b);
        proof {
            lemma_dug_twice(*old(d), before, *d, hallway_cells(s, i as int), corridor_cells(a, b));
            lemma_hallway_cells_step(s, i as int);
            if joinable {
                lemma_join_step(before, *d, s, i as int);
            }
        }
        i += 1;
    }
    proof {
        lemma_hallway_cells_end(s, i as int);
        if joinable {
            lemma_join_end(*d, rooms@, s, i as int);
        }
    }
}

} // verus!
