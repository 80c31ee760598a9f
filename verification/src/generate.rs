//! Building a dungeon: rooms at random places, corridors between them, a
//! sealed border, and the entities.

use crate::dungeon::{
    calculate_distance_map, monster_map, Dungeon, BORDER, CORRIDOR, EMPTY, FLOOR, OPEN, SOLID,
};
use crate::hallways::{
    add_hallways, dug, floor_connected, hallway_cells, in_corridor, rooms_are_floor,
    rooms_connected, rooms_fit,
};
use crate::monster::Monster;
use crate::player::Player;
use crate::reach::{connected, Cell, BLOCKING};
use crate::rooms::{lemma_sorted_properties, sorted_by_col, Room};
use rand::Rng;
use vstd::prelude::*;

verus! {

/// A number drawn by `rand::thread_rng().gen_range(low..high)`. The range
/// must not be empty; the number lies in it, and nothing else is known of
/// it.
#[verifier::external_body]
fn random_in_range(low: usize, high: usize) -> (value: usize)
    requires
        low < high,
    ensures
        low <= value < high,
{
    rand::thread_rng().gen_range(low..high)
}

/// Whether every cell of `room` is solid rock that nothing was carved from.
pub open spec fn room_is_free(d: Dungeon, room: Room) -> bool {
    forall|r: int, c: int| #[trigger] room.covers(r, c) ==> d.char_map.at(r, c) == EMPTY
}

/// `after` is `before` with `room` carved out: its cells are open floor,
/// and every other cell, and everything else in the dungeon, is as it was.
pub open spec fn room_carved(before: Dungeon, after: Dungeon, room: Room) -> bool {
    &&& after.fields_wf()
    &&& after.dungeon_x == before.dungeon_x
    &&& after.dungeon_y == before.dungeon_y
    &&& after.min_width == before.min_width
    &&& after.max_width == before.max_width
    &&& after.min_length == before.min_length
    &&& after.max_length == before.max_length
    &&& after.rooms == before.rooms
    &&& after.player == before.player
    &&& after.monsters@ == before.monsters@
    &&& after.distance_map@ == before.distance_map@
    &&& after.mon_map@ == before.mon_map@
    &&& forall|r: int, c: int|
        before.in_grid(r, c) ==> #[trigger] after.char_map.at(r, c) == (if room.covers(r, c) {
            FLOOR
        } else {
            before.char_map.at(r, c)
        })
    &&& forall|r: int, c: int|
        before.in_grid(r, c) ==> #[trigger] after.hardness_map.at(r, c) == (if room.covers(r, c) {
            OPEN
        } else {
            before.hardness_map.at(r, c)
        })
}

/// Whether a room with first row `x`, first column `y`, `width` rows and
/// `length` columns would lie on solid rock only.
pub fn is_valid_room(x: usize, y: usize, width: usize, length: usize, d: &Dungeon) -> (valid: bool)
    requires
        d.fields_wf(),
        x + width <= d.dungeon_x,
        y + length <= d.dungeon_y,
    ensures
        valid == room_is_free(*d, Room { x, y, length, width }),
{
    let ghost room = Room { x, y, length, width };
    let mut i: usize = x;
    while i < x + width
        invariant
            x <= i <= x + width,
            d.fields_wf(),
            x + width <= d.dungeon_x,
            y + length <= d.dungeon_y,
            room == (Room { x, y, length, width }),
            forall|r: int, c: int|
                x <= r < i && y <= c < y + length ==> d.char_map.at(r, c) == EMPTY,
        decreases x + width - i,
    {
        let mut j: usize = y;
        while j < y + length
            invariant
                x <= i < x + width,
                y <= j <= y + length,
                d.fields_wf(),
                x + width <= d.dungeon_x,
                y + length <= d.dungeon_y,
                room == (Room { x, y, length, width }),
                forall|r: int, c: int|
                    x <= r < i && y <= c < y + length ==> d.char_map.at(r, c) == EMPTY,
                forall|c: int| y <= c < j ==> d.char_map.at(i as int, c) == EMPTY,
            decreases y + length - j,
        {
            if d.char_map.get(i, j) != EMPTY {
                proof {
                    assert(room.covers(i as int, j as int));
                }
                return false;
            }
            j += 1;
        }
        i += 1;
    }
    proof {
        assert forall|r: int, c: int| #[trigger] room.covers(r, c) implies d.char_map.at(r, c)
            == EMPTY by {}
    }
    true
}

/// Carves a room with first row `x`, first column `y`, `width` rows and
/// `length` columns: every cell of it becomes open floor.
pub fn add_room(x: usize, y: usize, width: usize, length: usize, d: &mut Dungeon)
    requires
        old(d).fields_wf(),
        x + width <= old(d).dungeon_x,
        y + length <= old(d).dungeon_y,
    ensures
        room_carved(*old(d), *final(d), Room { x, y, length, width }),
{
    let mut i: usize = x;
    while i < x + width
        invariant
            x <= i <= x + width,
            x + width <= d.dungeon_x,
            y + length <= d.dungeon_y,
            room_carved(*old(d), *d, Room { x, y, length: length, width: (i - x) as usize }),
        decreases x + width - i,
    {
        let mut j: usize = y;
        let ghost row_start = *d;
        while j < y + length
            invariant
                x <= i < x + width,
                y <= j <= y + length,
                x + width <= d.dungeon_x,
                y + length <= d.dungeon_y,
                room_carved(
                    *old(d),
                    row_start,
                    Room { x, y, length: length, width: (i - x) as usize },
                ),
                room_carved(row_start, *d, Room { x: i, y, length: (j - y) as usize, width: 1 }),
            decreases y + length - j,
        {
            d.char_map.set(i, j, FLOOR);
            d.hardness_map.set(i, j, OPEN);
            j += 1;
        }
        i += 1;
    }
}

/// Whether `(r, c)` lies in the outermost rows or columns.
pub open spec fn on_border(d: Dungeon, r: int, c: int) -> bool {
    r == 0 || c == 0 || r == d.dungeon_x - 1 || c == d.dungeon_y - 1
}

/// Whether every cell of the outermost rows and columns shows the wall
/// glyph and is solid.
pub open spec fn border_sealed(d: Dungeon) -> bool {
    forall|r: int, c: int|
        d.in_grid(r, c) && on_border(d, r, c) ==> #[trigger] d.char_map.at(r, c) == BORDER
            && d.hardness_map.at(r, c) == SOLID
}

/// `after` is `before` with the border sealed: every cell of the outermost
/// rows and columns shows the wall glyph and is solid; every other cell,
/// and everything else in the dungeon, is as it was.
pub open spec fn border_forced(before: Dungeon, after: Dungeon) -> bool {
    &&& after.fields_wf()
    &&& after.dungeon_x == before.dungeon_x
    &&& after.dungeon_y == before.dungeon_y
    &&& after.min_width == before.min_width
    &&& after.max_width == before.max_width
    &&& after.min_length == before.min_length
    &&& after.max_length == before.max_length
    &&& after.rooms == before.rooms
    &&& after.player == before.player
    &&& after.monsters@ == before.monsters@
    &&& after.distance_map@ == before.distance_map@
    &&& after.mon_map@ == before.mon_map@
    &&& forall|r: int, c: int|
        before.in_grid(r, c) ==> #[trigger] after.char_map.at(r, c) == (if on_border(before, r, c) {
            BORDER
        } else {
            before.char_map.at(r, c)
        })
    &&& forall|r: int, c: int|
        before.in_grid(r, c) ==> #[trigger] after.hardness_map.at(r, c) == (if on_border(
            before,
            r,
            c,
        ) {
            SOLID
        } else {
            before.hardness_map.at(r, c)
        })
}

/// Forces the outermost rows and columns to the wall glyph and to solid
/// rock, whatever was there.
pub fn seal_border(d: &mut Dungeon)
    requires
        old(d).fields_wf(),
    ensures
        border_forced(*old(d), *final(d)),
        border_sealed(*final(d)),
{
    let rows: usize = d.dungeon_x;
    let cols: usize = d.dungeon_y;
    let mut i: usize = 0;
    while i < rows
        invariant
            i <= rows,
            rows == d.dungeon_x,
            cols == d.dungeon_y,
            d.fields_wf(),
            d.dungeon_x == old(d).dungeon_x,
            d.dungeon_y == old(d).dungeon_y,
            d.min_width == old(d).min_width,
            d.max_width == old(d).max_width,
            d.min_length == old(d).min_length,
            d.max_length == old(d).max_length,
            d.rooms == old(d).rooms,
            d.player == old(d).player,
            d.monsters@ == old(d).monsters@,
            d.distance_map@ == old(d).distance_map@,
            d.mon_map@ == old(d).mon_map@,
            forall|r: int, c: int|
                d.in_grid(r, c) ==> #[trigger] d.char_map.at(r, c) == (if r < i && on_border(
                    *d,
                    r,
                    c,
                ) {
                    BORDER
                } else {
                    old(d).char_map.at(r, c)
                }),
            forall|r: int, c: int|
                d.in_grid(r, c) ==> #[trigger] d.hardness_map.at(r, c) == (if r < i && on_border(
                    *d,
                    r,
                    c,
                ) {
                    SOLID
                } else {
                    old(d).hardness_map.at(r, c)
                }),
        decreases rows - i,
    {
        let mut j: usize = 0;
        while j < cols
            invariant
                i < rows,
                j <= cols,
                rows == d.dungeon_x,
                cols == d.dungeon_y,
                d.fields_wf(),
                d.dungeon_x == old(d).dungeon_x,
                d.dungeon_y == old(d).dungeon_y,
                d.min_width == old(d).min_width,
                d.max_width == old(d).max_width,
                d.min_length == old(d).min_length,
                d.max_length == old(d).max_length,
                d.rooms == old(d).rooms,
                d.player == old(d).player,
                d.monsters@ == old(d).monsters@,
                d.distance_map@ == old(d).distance_map@,
                d.mon_map@ == old(d).mon_map@,
                forall|r: int, c: int|
                    d.in_grid(r, c) ==> #[trigger] d.char_map.at(r, c) == (if (r < i || (r == i
                        && c < j)) && on_border(*d, r, c) {
                        BORDER
                    } else {
                        old(d).char_map.at(r, c)
                    }),
                forall|r: int, c: int|
                    d.in_grid(r, c) ==> #[trigger] d.hardness_map.at(r, c) == (if (r < i || (r == i
                        && c < j)) && on_border(*d, r, c) {
                        SOLID
                    } else {
                        old(d).hardness_map.at(r, c)
                    }),
            decreases cols - j,
        {
            if i == 0 || j == 0 || i == rows - 1 || j == cols - 1 {
                d.char_map.set(i, j, BORDER);
                d.hardness_map.set(i, j, SOLID);
            }
            j += 1;
        }
        i += 1;
    }
}

/// Whether `(r, c)` belongs to one of the rooms.
pub open spec fn in_some_room(s: Seq<Room>, r: int, c: int) -> bool {
    exists|i: int| 0 <= i < s.len() && #[trigger] s[i].covers(r, c)
}

/// Whether the rooms of `s` are open floor and everything else is solid
/// rock that nothing was carved from.
pub open spec fn only_rooms_carved(d: Dungeon, s: Seq<Room>) -> bool {
    &&& forall|r: int, c: int|
        d.in_grid(r, c) ==> #[trigger] d.char_map.at(r, c) == (if in_some_room(s, r, c) {
            FLOOR
        } else {
            EMPTY
        })
    &&& forall|r: int, c: int|
        d.in_grid(r, c) ==> #[trigger] d.hardness_map.at(r, c) == (if in_some_room(s, r, c) {
            OPEN
        } else {
            SOLID
        })
}

/// Whether every room keeps clear of the outermost rows and columns.
pub open spec fn rooms_inside(s: Seq<Room>, rows: int, cols: int) -> bool {
    forall|i: int| 0 <= i < s.len() ==> (#[trigger] s[i]).inside(rows, cols)
}

/// Whether every room has a width in `min_width..max_width` and a length
/// in `min_length..max_length`.
pub open spec fn rooms_sized(
    s: Seq<Room>,
    min_width: int,
    max_width: int,
    min_length: int,
    max_length: int,
) -> bool {
    forall|i: int|
        0 <= i < s.len() ==> min_width <= (#[trigger] s[i]).width < max_width && min_length
            <= s[i].length < max_length
}

/// Whether no two rooms share a cell.
pub open spec fn rooms_disjoint(s: Seq<Room>) -> bool {
    forall|i: int, j: int, r: int, c: int|
        #![trigger s[i].covers(r, c), s[j].covers(r, c)]
        0 <= i < j < s.len() ==> !(s[i].covers(r, c) && s[j].covers(r, c))
}

/// Whether the floor cells are exactly the cells of the rooms.
pub open spec fn floor_is_rooms(d: Dungeon, s: Seq<Room>) -> bool {
    forall|r: int, c: int|
        d.in_grid(r, c) ==> (#[trigger] d.char_map.at(r, c) == FLOOR <==> in_some_room(s, r, c))
}

/// Whether glyph and hardness agree in every cell: floor and corridor are
/// open, solid rock and border are solid, and there is no other glyph.
pub open spec fn terrain_consistent(d: Dungeon) -> bool {
    forall|r: int, c: int|
        d.in_grid(r, c) ==> {
            let glyph = #[trigger] d.char_map.at(r, c);
            let hard = d.hardness_map.at(r, c);
            ||| (glyph == FLOOR && hard == OPEN)
            ||| (glyph == CORRIDOR && hard == OPEN)
            ||| (glyph == EMPTY && hard == SOLID)
            ||| (glyph == BORDER && hard == SOLID)
        }
}

/// What holds of a finished terrain with the rooms `s`: the rooms keep
/// clear of the border and of each other and are the floor; glyphs and
/// hardness agree; the border is sealed; and every floor cell can be
/// reached from every other.
pub open spec fn laid_out(d: Dungeon, s: Seq<Room>) -> bool {
    &&& rooms_inside(s, d.dungeon_x as int, d.dungeon_y as int)
    &&& rooms_disjoint(s)
    &&& floor_is_rooms(d, s)
    &&& terrain_consistent(d)
    &&& border_sealed(d)
    &&& d.floor_open()
    &&& floor_connected(d)
}

/// Carves the room if it would lie on solid rock only, and puts it on the
/// list; otherwise changes nothing.
pub fn try_place_room(
    d: &mut Dungeon,
    rooms: &mut Vec<Room>,
    x: usize,
    y: usize,
    width: usize,
    length: usize,
) -> (placed: bool)
    requires
        old(d).fields_wf(),
        x + width <= old(d).dungeon_x,
        y + length <= old(d).dungeon_y,
    ensures
        placed == room_is_free(*old(d), Room { x, y, length, width }),
        placed ==> room_carved(*old(d), *final(d), Room { x, y, length, width }) && final(rooms)@
            == old(rooms)@.push(Room { x, y, length, width }),
        !placed ==> *final(d) == *old(d) && final(rooms)@ == old(rooms)@,
{
    if is_valid_room(x, y, width, length, d) {
        add_room(x, y, width, length, d);
        rooms.push(Room { x, y, length, width });
        true
    } else {
        false
    }
}

/// A room carved from free rock, clear of the border, joins the rooms
/// without touching any of them.
pub proof fn lemma_room_added(before: Dungeon, after: Dungeon, s: Seq<Room>, room: Room)
    requires
        before.fields_wf(),
        only_rooms_carved(before, s),
        rooms_inside(s, before.dungeon_x as int, before.dungeon_y as int),
        rooms_disjoint(s),
        room.inside(before.dungeon_x as int, before.dungeon_y as int),
        room_is_free(before, room),
        room_carved(before, after, room),
    ensures
        only_rooms_carved(after, s.push(room)),
        rooms_inside(s.push(room), after.dungeon_x as int, after.dungeon_y as int),
        rooms_disjoint(s.push(room)),
{
    let t = s.push(room);
    let n = s.len() as int;
    assert forall|r: int, c: int| before.in_grid(r, c) implies (in_some_room(t, r, c) <==> (
    in_some_room(s, r, c) || room.covers(r, c))) by {
        if in_some_room(s, r, c) {
            let i = choose|i: int| 0 <= i < s.len() && #[trigger] s[i].covers(r, c);
            assert(t[i].covers(r, c));
        }
        if room.covers(r, c) {
            assert(t[n].covers(r, c));
        }
        if in_some_room(t, r, c) {
            let i = choose|i: int| 0 <= i < t.len() && #[trigger] t[i].covers(r, c);
            if i < n {
                assert(s[i].covers(r, c));
            }
        }
    }
    assert forall|r: int, c: int| after.in_grid(r, c) implies #[trigger] after.char_map.at(r, c)
        == (if in_some_room(t, r, c) {
        FLOOR
    } else {
        EMPTY
    }) by {
        let x = before.char_map.at(r, c);
    }
    assert forall|r: int, c: int| after.in_grid(r, c) implies #[trigger] after.hardness_map.at(
        r,
        c,
    ) == (if in_some_room(t, r, c) {
        OPEN
    } else {
        SOLID
    }) by {
        let x = before.hardness_map.at(r, c);
    }
    assert forall|i: int| 0 <= i < t.len() implies (#[trigger] t[i]).inside(
        after.dungeon_x as int,
        after.dungeon_y as int,
    ) by {
        if i < n {
            assert(s[i].inside(before.dungeon_x as int, before.dungeon_y as int));
        }
    }
    assert forall|i: int, j: int, r: int, c: int|
        #![trigger t[i].covers(r, c), t[j].covers(r, c)]
        0 <= i < j < t.len() implies !(t[i].covers(r, c) && t[j].covers(r, c)) by {
        if j < n {
            assert(!(s[i].covers(r, c) && s[j].covers(r, c)));
        } else if t[i].covers(r, c) && t[j].covers(r, c) {
            assert(s[i].covers(r, c));
            assert(s[i].inside(before.dungeon_x as int, before.dungeon_y as int));
            assert(before.in_grid(r, c));
            assert(in_some_room(s, r, c));
            assert(before.char_map.at(r, c) == FLOOR);
            assert(room.covers(r, c));
        }
    }
}

/// `after` is `before` with the rooms joined by corridors and the border
/// sealed.
pub open spec fn terrain_finished(before: Dungeon, after: Dungeon, rooms: Seq<Room>) -> bool {
    exists|mid: Dungeon|
        dug(before, mid, hallway_cells(sorted_by_col(rooms), rooms.len() as int)) && border_forced(
            mid,
            after,
        )
}

/// Joins the rooms by corridors and seals the border. Where the rooms are
/// all that was carved before, and keep clear of the border and of each
/// other, the terrain is then laid out in full.
pub fn finish_terrain(d: &mut Dungeon, rooms: Vec<Room>)
    requires
        old(d).fields_wf(),
        rooms_fit(rooms@, old(d).dungeon_x as int, old(d).dungeon_y as int),
    ensures
        terrain_finished(*old(d), *final(d), rooms@),
        final(d).fields_wf(),
        only_rooms_carved(*old(d), rooms@) && rooms_inside(
            rooms@,
            old(d).dungeon_x as int,
            old(d).dungeon_y as int,
        ) && rooms_disjoint(rooms@) ==> laid_out(*final(d), rooms@),
{
    let ghost layout = rooms@;
    proof {
        if only_rooms_carved(*d, layout) && rooms_inside(
            layout,
            d.dungeon_x as int,
            d.dungeon_y as int,
        ) {
            lemma_rooms_ready(*d, layout);
        }
    }
    add_hallways(d, rooms);
    let ghost mid = *d;
    seal_border(d);
    proof {
        if only_rooms_carved(*old(d), layout) && rooms_inside(
            layout,
            old(d).dungeon_x as int,
            old(d).dungeon_y as int,
        ) && rooms_disjoint(layout) {
            lemma_terrain_laid_out(*old(d), mid, *d, layout);
        }
    }
}

/// Where only rooms were carved, the floor is open and the rooms are floor.
pub proof fn lemma_rooms_ready(d: Dungeon, s: Seq<Room>)
    requires
        d.fields_wf(),
        only_rooms_carved(d, s),
        rooms_inside(s, d.dungeon_x as int, d.dungeon_y as int),
    ensures
        d.floor_open(),
        rooms_are_floor(d, s),
        rooms_fit(s, d.dungeon_x as int, d.dungeon_y as int),
{
    assert forall|r: int, c: int| d.in_grid(r, c) && #[trigger] d.char_map.at(r, c)
        == FLOOR implies d.hardness_map.at(r, c) < BLOCKING by {
        let x = d.hardness_map.at(r, c);
    }
    assert forall|i: int, r: int, c: int|
        0 <= i < s.len() && #[trigger] s[i].covers(r, c) implies d.char_map.at(r, c) == FLOOR by {
        assert(s[i].inside(d.dungeon_x as int, d.dungeon_y as int));
        assert(d.in_grid(r, c));
        assert(in_some_room(s, r, c));
    }
    assert forall|i: int| 0 <= i < s.len() implies (#[trigger] s[i]).fits(
        d.dungeon_x as int,
        d.dungeon_y as int,
    ) by {
        assert(s[i].inside(d.dungeon_x as int, d.dungeon_y as int));
    }
}

/// Corridors between rooms that keep clear of the border keep clear of it
/// too.
pub proof fn lemma_hallways_inside(s: Seq<Room>, rows: int, cols: int, n: int, r: int, c: int)
    requires
        rooms_inside(s, rows, cols),
        hallway_cells(s, n).contains((r, c)),
    ensures
        1 <= r < rows - 1,
        1 <= c < cols - 1,
{
    let k = choose|k: int|
        0 <= k < n && k + 1 < s.len() && in_corridor(#[trigger] s[k], s[k + 1], r, c);
    assert(s[k].inside(rows, cols));
    assert(s[k + 1].inside(rows, cols));
    crate::hallways::lemma_corridor_within(s[k], s[k + 1], r, c);
}

/// Corridors and a sealed border, added to rooms that keep clear of the
/// border and of each other, give a terrain that is laid out in full.
pub proof fn lemma_terrain_laid_out(start: Dungeon, mid: Dungeon, fin: Dungeon, s: Seq<Room>)
    requires
        start.fields_wf(),
        only_rooms_carved(start, s),
        rooms_inside(s, start.dungeon_x as int, start.dungeon_y as int),
        rooms_disjoint(s),
        dug(start, mid, hallway_cells(sorted_by_col(s), s.len() as int)),
        rooms_connected(mid.hardness_map@, s),
        border_forced(mid, fin),
    ensures
        laid_out(fin, s),
{
    let rows = start.dungeon_x as int;
    let cols = start.dungeon_y as int;
    let sorted = sorted_by_col(s);
    let halls = hallway_cells(sorted, s.len() as int);
    lemma_sorted_properties(s);
    assert(rooms_inside(sorted, rows, cols)) by {
        assert forall|i: int| 0 <= i < sorted.len() implies (#[trigger] sorted[i]).inside(
            rows,
            cols,
        ) by {
            assert(s.contains(sorted[i]));
        }
    }
    assert forall|r: int, c: int| start.in_grid(r, c) && on_border(start, r, c) implies !halls.contains(
        (r, c),
    ) && !in_some_room(s, r, c) by {
        if halls.contains((r, c)) {
            lemma_hallways_inside(sorted, rows, cols, s.len() as int, r, c);
        }
        if in_some_room(s, r, c) {
            let i = choose|i: int| 0 <= i < s.len() && #[trigger] s[i].covers(r, c);
            assert(s[i].inside(rows, cols));
        }
    }
    assert forall|r: int, c: int| fin.in_grid(r, c) implies (#[trigger] fin.char_map.at(r, c)
        == FLOOR <==> in_some_room(s, r, c)) by {
        let a = mid.char_map.at(r, c);
        let b = start.char_map.at(r, c);
    }
    assert forall|r: int, c: int| fin.in_grid(r, c) implies ({
        let glyph = #[trigger] fin.char_map.at(r, c);
        let hard = fin.hardness_map.at(r, c);
        ||| (glyph == FLOOR && hard == OPEN)
        ||| (glyph == CORRIDOR && hard == OPEN)
        ||| (glyph == EMPTY && hard == SOLID)
        ||| (glyph == BORDER && hard == SOLID)
    }) by {
        let a = mid.char_map.at(r, c);
        let b = start.char_map.at(r, c);
        let x = mid.hardness_map.at(r, c);
        let y = start.hardness_map.at(r, c);
        let z = fin.hardness_map.at(r, c);
    }
    assert forall|r: int, c: int| fin.in_grid(r, c) && on_border(fin, r, c) implies #[trigger] fin.char_map.at(
        r,
        c,
    ) == BORDER && fin.hardness_map.at(r, c) == SOLID by {
        let z = fin.hardness_map.at(r, c);
    }
    assert forall|r: int, c: int| fin.in_grid(r, c) && #[trigger] fin.char_map.at(r, c)
        == FLOOR implies fin.hardness_map.at(r, c) < BLOCKING by {
        let z = fin.hardness_map.at(r, c);
    }
    mid.lemma_passable_agrees();
    fin.lemma_passable_agrees();
    assert forall|r: int, c: int| #[trigger]
        crate::reach::passable(mid.hardness_map@, r, c) implies crate::reach::passable(
        fin.hardness_map@,
        r,
        c,
    ) by {
        assert(mid.is_passable(r, c));
        let x = mid.hardness_map.at(r, c);
        let y = start.hardness_map.at(r, c);
        let z = fin.hardness_map.at(r, c);
        let b = start.char_map.at(r, c);
        assert(fin.is_passable(r, c));
    }
    assert forall|p: Cell, q: Cell|
        fin.in_grid(p.0, p.1) && fin.in_grid(q.0, q.1) && #[trigger] fin.char_map.at(p.0, p.1)
            == FLOOR && #[trigger] fin.char_map.at(q.0, q.1) == FLOOR implies connected(
        fin.hardness_map@,
        p,
        q,
    ) by {
        assert(in_some_room(s, p.0, p.1));
        assert(in_some_room(s, q.0, q.1));
        let i = choose|i: int| 0 <= i < s.len() && #[trigger] s[i].covers(p.0, p.1);
        let j = choose|j: int| 0 <= j < s.len() && #[trigger] s[j].covers(q.0, q.1);
        assert(connected(mid.hardness_map@, p, q));
        crate::reach::lemma_connected_monotone(mid.hardness_map@, fin.hardness_map@, p, q);
    }
}

/// Why a dungeon could not be generated within the draws that were allowed.
#[derive(Clone, Copy, Debug, PartialEq, Eq, Structural)]
pub enum GenerationError {
    /// Too few of the rooms that were drawn lay on free rock.
    Rooms,
    /// No draw for the player hit a floor cell.
    Player,
    /// Too few of the draws for monsters hit a passable cell.
    Monsters,
}

/// Puts the player on `(x, y)` if that is a floor cell of the grid;
/// otherwise changes nothing.
pub fn try_place_player(d: &mut Dungeon, x: usize, y: usize) -> (placed: bool)
    requires
        old(d).wf(),
    ensures
        placed == (old(d).in_grid(x as int, y as int) && old(d).char_map.at(x as int, y as int)
            == FLOOR),
        placed ==> final(d).wf() && final(d).same_terrain(old(d)),
        placed ==> final(d).player == (Player { position_x: x, position_y: y, ..old(d).player }),
        placed ==> final(d).monsters@ == old(d).monsters@,
        placed ==> final(d).distance_map@ == old(d).distance_map@,
        placed ==> final(d).mon_map@ == old(d).mon_map@,
        !placed ==> *final(d) == *old(d),
{
    if x < d.dungeon_x && y < d.dungeon_y && d.char_map.get(x, y) == FLOOR {
        d.player.position_x = x;
        d.player.position_y = y;
        true
    } else {
        false
    }
}

/// Adds a fresh monster on `(x, y)` to the roster if that is a passable
/// cell of the grid; otherwise changes nothing.
pub fn try_place_monster(d: &mut Dungeon, x: usize, y: usize) -> (placed: bool)
    requires
        old(d).wf(),
    ensures
        placed == old(d).is_passable(x as int, y as int),
        placed ==> final(d).wf() && final(d).same_terrain(old(d)),
        placed ==> final(d).player == old(d).player,
        placed ==> final(d).monsters@ == old(d).monsters@.push(Monster::fresh(x, y)),
        placed ==> final(d).distance_map@ == old(d).distance_map@,
        placed ==> final(d).mon_map@ == old(d).mon_map@,
        !placed ==> *final(d) == *old(d),
{
    if x < d.dungeon_x && y < d.dungeon_y && d.hardness_map.get(x, y) < BLOCKING {
        d.monsters.push(Monster::new(x, y));
        true
    } else {
        false
    }
}

/// Draws cells until the roster holds `monsters` monsters, each put on a
/// passable cell as it is drawn, or until `attempts` cells were drawn.
/// Says whether the roster is full.
pub fn place_monsters(d: &mut Dungeon, monsters: usize, attempts: usize) -> (full: bool)
    requires
        old(d).wf(),
        1 < old(d).dungeon_x,
        1 < old(d).dungeon_y,
    ensures
        final(d).wf(),
        final(d).same_terrain(old(d)),
        final(d).player == old(d).player,
        final(d).distance_map@ == old(d).distance_map@,
        final(d).mon_map@ == old(d).mon_map@,
        full == (final(d).monsters@.len() >= monsters),
        old(d).monsters@.len() <= final(d).monsters@.len(),
        final(d).monsters@.len() <= monsters || final(d).monsters@.len() == old(d).monsters@.len(),
        final(d).monsters@.len() <= old(d).monsters@.len() + attempts,
        final(d).monsters@.subrange(0, old(d).monsters@.len() as int) == old(d).monsters@,
        forall|i: int|
            old(d).monsters@.len() <= i < final(d).monsters@.len() ==> (
            #[trigger] final(d).monsters@[i]) == Monster::fresh(
                final(d).monsters@[i].pos_x,
                final(d).monsters@[i].pos_y,
            ) && final(d).is_passable(
                final(d).monsters@[i].pos_x as int,
                final(d).monsters@[i].pos_y as int,
            ),
{
    let ghost start = old(d).monsters@.len() as int;
    let mut tries: usize = 0;
    proof {
        assert(d.monsters@.subrange(0, start) =~= d.monsters@);
    }
    while d.monsters.len() < monsters
        invariant
            tries <= attempts,
            start == old(d).monsters@.len(),
            d.wf(),
            1 < d.dungeon_x,
            1 < d.dungeon_y,
            d.same_terrain(old(d)),
            d.player == old(d).player,
            d.distance_map@ == old(d).distance_map@,
            d.mon_map@ == old(d).mon_map@,
            start <= d.monsters@.len() <= start + tries,
            d.monsters@.len() <= monsters || d.monsters@.len() == start,
            d.monsters@.subrange(0, start) == old(d).monsters@,
            forall|i: int|
                start <= i < d.monsters@.len() ==> (#[trigger] d.monsters@[i]) == Monster::fresh(
                    d.monsters@[i].pos_x,
                    d.monsters@[i].pos_y,
                ) && d.is_passable(d.monsters@[i].pos_x as int, d.monsters@[i].pos_y as int),
        decreases attempts - tries,
    {
        if tries >= attempts {
            return false;
        }
        tries += 1;
        let x: usize = random_in_range(1, d.dungeon_x);
        let y: usize = random_in_range(1, d.dungeon_y);
        let ghost before = *d;
        let placed: bool = try_place_monster(d, x, y);
        proof {
            if placed {
                assert(d.monsters@.subrange(0, start) =~= before.monsters@.subrange(0, start));
                assert forall|i: int| start <= i < d.monsters@.len() implies (
                #[trigger] d.monsters@[i]) == Monster::fresh(
                    d.monsters@[i].pos_x,
                    d.monsters@[i].pos_y,
                ) && d.is_passable(d.monsters@[i].pos_x as int, d.monsters@[i].pos_y as int) by {
                    if i < before.monsters@.len() {
                        assert(d.monsters@[i] == before.monsters@[i]);
                        assert(before.is_passable(
                            before.monsters@[i].pos_x as int,
                            before.monsters@[i].pos_y as int,
                        ));
                    }
                }
            }
        }
    }
    true
}

/// Whether the room sizes can be drawn and every room that is drawn finds
/// a place to be drawn for: both ranges of sizes hold a size of at least
/// one, and the largest room is smaller than the grid in both directions.
pub open spec fn sizes_fit(
    dungeon_x: usize,
    dungeon_y: usize,
    min_width: usize,
    max_width: usize,
    min_length: usize,
    max_length: usize,
) -> bool {
    &&& 1 <= min_width < max_width < dungeon_x
    &&& 1 <= min_length < max_length < dungeon_y
    &&& dungeon_x + dungeon_y <= u16::MAX
}

/// What holds of a dungeon that was generated for the given shape, sizes
/// and numbers.
pub open spec fn generated(
    d: Dungeon,
    dungeon_x: usize,
    dungeon_y: usize,
    min_width: usize,
    max_width: usize,
    min_length: usize,
    max_length: usize,
    rooms: usize,
    monsters: usize,
) -> bool {
    &&& d.wf()
    &&& d.dungeon_x == dungeon_x
    &&& d.dungeon_y == dungeon_y
    &&& d.min_width == min_width
    &&& d.max_width == max_width
    &&& d.min_length == min_length
    &&& d.max_length == max_length
    &&& d.rooms == rooms
    &&& exists|layout: Seq<Room>|
        #[trigger] layout.len() == rooms && laid_out(d, layout) && rooms_sized(
            layout,
            min_width as int,
            max_width as int,
            min_length as int,
            max_length as int,
        )
    &&& d.player == Player::fresh(d.player.position_x, d.player.position_y)
    &&& d.char_map.at(d.player.position_x as int, d.player.position_y as int) == FLOOR
    &&& d.monsters@.len() == monsters
    &&& forall|i: int|
        0 <= i < d.monsters@.len() ==> (#[trigger] d.monsters@[i]) == Monster::fresh(
            d.monsters@[i].pos_x,
            d.monsters@[i].pos_y,
        ) && d.is_passable(d.monsters@[i].pos_x as int, d.monsters@[i].pos_y as int)
    &&& d.distance_current()
    &&& d.occupancy_current()
}

/// A terrain that is laid out stays so while only entities and derived
/// fields change.
pub proof fn lemma_laid_out_kept(a: Dungeon, b: Dungeon, s: Seq<Room>)
    requires
        laid_out(a, s),
        b.same_terrain(&a),
    ensures
        laid_out(b, s),
{
    assert forall|r: int, c: int| b.in_grid(r, c) implies (#[trigger] b.char_map.at(r, c) == FLOOR
        <==> in_some_room(s, r, c)) by {
        assert(a.char_map.at(r, c) == b.char_map.at(r, c));
    }
    assert forall|r: int, c: int| b.in_grid(r, c) implies ({
        let glyph = #[trigger] b.char_map.at(r, c);
        let hard = b.hardness_map.at(r, c);
        ||| (glyph == FLOOR && hard == OPEN)
        ||| (glyph == CORRIDOR && hard == OPEN)
        ||| (glyph == EMPTY && hard == SOLID)
        ||| (glyph == BORDER && hard == SOLID)
    }) by {
        assert(a.char_map.at(r, c) == b.char_map.at(r, c));
    }
    assert forall|r: int, c: int| b.in_grid(r, c) && on_border(b, r, c) implies #[trigger] b.char_map.at(
        r,
        c,
    ) == BORDER && b.hardness_map.at(r, c) == SOLID by {
        assert(a.char_map.at(r, c) == b.char_map.at(r, c));
    }
    assert forall|r: int, c: int| b.in_grid(r, c) && #[trigger] b.char_map.at(r, c)
        == FLOOR implies b.hardness_map.at(r, c) < BLOCKING by {
        assert(a.char_map.at(r, c) == b.char_map.at(r, c));
    }
    assert forall|p: Cell, q: Cell|
        b.in_grid(p.0, p.1) && b.in_grid(q.0, q.1) && #[trigger] b.char_map.at(p.0, p.1) == FLOOR
            && #[trigger] b.char_map.at(q.0, q.1) == FLOOR implies connected(
        b.hardness_map@,
        p,
        q,
    ) by {
        assert(a.char_map.at(p.0, p.1) == FLOOR);
        assert(a.char_map.at(q.0, q.1) == FLOOR);
    }
}

/// Generates a dungeon of `dungeon_x` rows and `dungeon_y` columns.
///
/// Rooms are drawn until `rooms` of them lie on free rock: a length in
/// `min_length..max_length`, a width in `min_width..max_width`, and a first
/// cell that keeps the room clear of the border. The rooms are joined by
/// corridors and the border is sealed. The player is put on a floor cell
/// and `monsters` monsters on passable cells, all drawn at random, and the
/// distance and occupancy fields are built.
///
/// Each of the three kinds of draw is given up after `attempts` rounds;
/// the error says which. Without rooms there is no floor, and the player
/// is never placed. No dungeon is returned that is not complete.
pub fn generate_with(
    dungeon_x: usize,
    dungeon_y: usize,
    min_width: usize,
    max_width: usize,
    min_length: usize,
    max_length: usize,
    rooms: usize,
    monsters: usize,
    attempts: usize,
) -> (result: Result<Dungeon, GenerationError>)
    requires
        sizes_fit(dungeon_x, dungeon_y, min_width, max_width, min_length, max_length),
    ensures
        result matches Ok(d) ==> generated(
            d,
            dungeon_x,
            dungeon_y,
            min_width,
            max_width,
            min_length,
            max_length,
            rooms,
            monsters,
        ),
        result == Err::<Dungeon, GenerationError>(GenerationError::Rooms) ==> rooms > 0,
        result == Err::<Dungeon, GenerationError>(GenerationError::Monsters) ==> monsters > 0,
        attempts == 0 && rooms > 0 ==> result == Err::<Dungeon, GenerationError>(
            GenerationError::Rooms,
        ),
        rooms == 0 ==> result == Err::<Dungeon, GenerationError>(GenerationError::Player),
{
    let mut d: Dungeon = Dungeon::blank(dungeon_x, dungeon_y);
    d.min_width = min_width;
    d.max_width = max_width;
    d.min_length = min_length;
    d.max_length = max_length;
    d.rooms = rooms;
    let mut room_list: Vec<Room> = Vec::new();
    let mut tries: usize = 0;
    proof {
        assert forall|r: int, c: int| !in_some_room(room_list@, r, c) by {}
    }
    while room_list.len() < rooms
        invariant
            tries <= attempts,
            attempts > 0 || room_list@.len() == 0,
            sizes_fit(dungeon_x, dungeon_y, min_width, max_width, min_length, max_length),
            d.wf(),
            d.dungeon_x == dungeon_x,
            d.dungeon_y == dungeon_y,
            d.min_width == min_width,
            d.max_width == max_width,
            d.min_length == min_length,
            d.max_length == max_length,
            d.rooms == rooms,
            d.player == Player::fresh(0, 0),
            d.monsters@.len() == 0,
            room_list@.len() <= rooms,
            only_rooms_carved(d, room_list@),
            rooms_inside(room_list@, dungeon_x as int, dungeon_y as int),
            rooms_disjoint(room_list@),
            rooms_sized(
                room_list@,
                min_width as int,
                max_width as int,
                min_length as int,
                max_length as int,
            ),
        decreases attempts - tries,
    {
        if tries >= attempts {
            return Err(GenerationError::Rooms);
        }
        tries += 1;
        let length: usize = random_in_range(min_length, max_length);
        let width: usize = random_in_range(min_width, max_width);
        let x: usize = random_in_range(1, dungeon_x - width);
        let y: usize = random_in_range(1, dungeon_y - length);
        let ghost before = d;
        let ghost listed = room_list@;
        let placed: bool = try_place_room(&mut d, &mut room_list, x, y, width, length);
        proof {
            if placed {
                lemma_room_added(before, d, listed, Room { x, y, length, width });
                assert forall|i: int| 0 <= i < room_list@.len() implies min_width <= (
                #[trigger] room_list@[i]).width < max_width && min_length <= room_list@[i].length
                    < max_length by {
                    if i < listed.len() {
                        assert(room_list@[i] == listed[i]);
                    }
                }
            }
        }
    }
    let ghost layout = room_list@;
    proof {
        lemma_rooms_ready(d, layout);
    }
    let ghost carved = d;
    finish_terrain(&mut d, room_list);
    proof {
        let mid = choose|mid: Dungeon|
            dug(carved, mid, hallway_cells(sorted_by_col(layout), layout.len() as int))
                && border_forced(mid, d);
        assert(d.player == Player::fresh(0, 0));
        assert(d.monsters@.len() == 0);
        assert(d.wf());
    }
    let ghost terrain = d;
    let mut set_player: bool = false;
    tries = 0;
    while !set_player
        invariant
            tries <= attempts,
            attempts > 0 || (!set_player && rooms == 0),
            layout.len() == rooms,
            terrain.dungeon_x == dungeon_x,
            terrain.dungeon_y == dungeon_y,
            floor_is_rooms(terrain, layout),
            rooms == 0 ==> !set_player,
            sizes_fit(dungeon_x, dungeon_y, min_width, max_width, min_length, max_length),
            d.wf(),
            d.same_terrain(&terrain),
            d.monsters@.len() == 0,
            !set_player ==> d.player == Player::fresh(0, 0),
            set_player ==> d.player == Player::fresh(d.player.position_x, d.player.position_y)
                && d.char_map.at(d.player.position_x as int, d.player.position_y as int) == FLOOR,
        decreases attempts - tries,
    {
        if tries >= attempts {
            return Err(GenerationError::Player);
        }
        tries += 1;
        let x: usize = random_in_range(1, dungeon_x);
        let y: usize = random_in_range(1, dungeon_y);
        proof {
            // Without rooms there is no floor to stand on.
            assert(terrain.char_map.at(x as int, y as int) == FLOOR <==> in_some_room(
                layout,
                x as int,
                y as int,
            ));
        }
        set_player = try_place_player(&mut d, x, y);
    }
    calculate_distance_map(&mut d);
    let ghost measured = d;
    if !place_monsters(&mut d, monsters, attempts) {
        return Err(GenerationError::Monsters);
    }
    proof {
        assert forall|r: int, c: int| d.in_grid(r, c) implies #[trigger] d.distance_map.at(r, c)
            == d.distance_to_player(r, c) by {
            assert(measured.distance_map.at(r, c) == measured.distance_to_player(r, c));
        }
    }
    let ghost placed_all = d;
    monster_map(&mut d);
    proof {
        lemma_laid_out_kept(terrain, d, layout);
        assert(layout.len() == rooms && laid_out(d, layout) && rooms_sized(
            layout,
            min_width as int,
            max_width as int,
            min_length as int,
            max_length as int,
        ));
        assert forall|i: int| 0 <= i < d.monsters@.len() implies (#[trigger] d.monsters@[i])
            == Monster::fresh(d.monsters@[i].pos_x, d.monsters@[i].pos_y) && d.is_passable(
            d.monsters@[i].pos_x as int,
            d.monsters@[i].pos_y as int,
        ) by {
            assert(placed_all.is_passable(
                placed_all.monsters@[i].pos_x as int,
                placed_all.monsters@[i].pos_y as int,
            ));
        }
        assert forall|r: int, c: int| d.in_grid(r, c) implies #[trigger] d.distance_map.at(r, c)
            == d.distance_to_player(r, c) by {
            assert(placed_all.distance_map.at(r, c) == placed_all.distance_to_player(r, c));
        }
    }
    Ok(d)
}

/// Rounds after which [`generate_dungeon`] gives up each kind of draw.
pub const DRAWS: usize = 100000;

/// Generates the dungeon of the game: 30 rows of 80 columns with 7 rooms,
/// 4 to 8 rows wide and 4 to 11 columns long, and 10 monsters.
pub fn generate_dungeon() -> (result: Result<Dungeon, GenerationError>)
    ensures
        result matches Ok(d) ==> generated(d, 30, 80, 4, 9, 4, 12, 7, 10),
{
    generate_with(30, 80, 4, 9, 4, 12, 7, 10, DRAWS)
}

} // verus!
