//! What a front end draws: one tile for each cell, the tint of a glyph,
//! and the digit that stands for a distance.

use crate::combat::Tint;
use crate::dungeon::{Dungeon, BORDER, CORRIDOR, FLOOR, UNREACHABLE};
use vstd::prelude::*;

verus! {

/// One cell as it is drawn: `x` is its column and `y` its row.
#[derive(Clone, Copy, Debug, PartialEq, Eq, Structural)]
pub struct Tile {
    pub x: usize,
    pub y: usize,
    pub glyph: char,
    pub color: Tint,
}

/// The tile of the cell in column `x` and row `y`: the wall glyph on the
/// outermost rows and columns, the glyph of the terrain elsewhere.
pub open spec fn tile_of(d: Dungeon, x: int, y: int) -> Tile {
    Tile {
        x: x as usize,
        y: y as usize,
        glyph: if x == 0 || x == d.dungeon_y - 1 || y == 0 || y == d.dungeon_x - 1 {
            BORDER
        } else {
            d.char_map.at(y, x)
        },
        color: Tint::Black,
    }
}

/// The place of the tile of column `x` and row `y` among the tiles of a
/// grid with `height` rows.
pub open spec fn tile_slot(height: int, x: int, y: int) -> int {
    x * height + y
}

/// The tiles of the whole grid, column by column from the left, and each
/// column from the top.
pub fn generate_map(d: &Dungeon) -> (map: Vec<Tile>)
    requires
        d.fields_wf(),
    ensures
        map@.len() == d.dungeon_y * d.dungeon_x,
        forall|x: int, y: int|
            0 <= x < d.dungeon_y && 0 <= y < d.dungeon_x ==> 0 <= tile_slot(
                d.dungeon_x as int,
                x,
                y,
            ) < map@.len() && map@[tile_slot(d.dungeon_x as int, x, y)] == #[trigger] tile_of(
                *d,
                x,
                y,
            ),
{
    let width: usize = d.dungeon_y;
    let height: usize = d.dungeon_x;
    let mut map: Vec<Tile> = Vec::new();
    let mut x: usize = 0;
    let ghost h = height as int;
    proof {
        assert(0 * h == 0) by (nonlinear_arith);
    }
    while x < width
        invariant
            x <= width,
            width == d.dungeon_y,
            height == d.dungeon_x,
            h == height,
            d.fields_wf(),
            map@.len() == tile_slot(h, x as int, 0),
            forall|cx: int, cy: int|
                0 <= cx < x && 0 <= cy < h ==> 0 <= tile_slot(h, cx, cy) < map@.len()
                    && map@[tile_slot(h, cx, cy)] == #[trigger] tile_of(*d, cx, cy),
        decreases width - x,
    {
        let mut y: usize = 0;
        let ghost base = tile_slot(h, x as int, 0);
        while y < height
            invariant
                x < width,
                y <= height,
                width == d.dungeon_y,
                height == d.dungeon_x,
                h == height,
                d.fields_wf(),
                base == tile_slot(h, x as int, 0),
                map@.len() == base + y,
                forall|cx: int, cy: int|
                    0 <= cx < x && 0 <= cy < h ==> 0 <= tile_slot(h, cx, cy) < base && map@[tile_slot(
                        h,
                        cx,
                        cy,
                    )] == #[trigger] tile_of(*d, cx, cy),
                forall|cy: int|
                    0 <= cy < y ==> map@[base + cy] == #[trigger] tile_of(*d, x as int, cy),
            decreases height - y,
        {
            let on_edge: bool = x == 0 || x == width - 1 || y == 0 || y == height - 1;
            let glyph: char = if on_edge {
                BORDER
            } else {
                d.char_map.get(y, x)
            };
            let ghost before = map@;
            let tile: Tile = Tile { x, y, glyph, color: Tint::Black };
            map.push(tile);
            assert(map@ == before.push(tile));
            assert(map@.len() == base + y + 1);
            assert(tile == tile_of(*d, x as int, y as int));
            y += 1;
        }
        proof {
            assert(tile_slot(h, x as int, 0) + h == tile_slot(h, x + 1, 0)) by (nonlinear_arith)
                requires
                    tile_slot(h, x as int, 0) == x * h + 0,
                    tile_slot(h, x + 1, 0) == (x + 1) * h + 0,
            ;
            assert forall|cx: int, cy: int| 0 <= cx < x + 1 && 0 <= cy < h implies 0 <= tile_slot(
                h,
                cx,
                cy,
            ) < map@.len() && map@[tile_slot(h, cx, cy)] == #[trigger] tile_of(*d, cx, cy) by {
                if cx == x {
                    assert(tile_slot(h, cx, cy) == base + cy);
                    assert(map@[base + cy] == tile_of(*d, x as int, cy));
                }
            }
        }
        x += 1;
    }
    proof {
        assert(tile_slot(h, width as int, 0) == d.dungeon_y * d.dungeon_x);
    }
    map
}

/// The tint in which a glyph of the terrain is printed: floor green,
/// corridor yellow, the player red, everything else white.
pub open spec fn tint_of(glyph: char) -> Tint {
    if glyph == FLOOR {
        Tint::Green
    } else if glyph == CORRIDOR {
        Tint::Yellow
    } else if glyph == '@' {
        Tint::Red
    } else {
        Tint::White
    }
}

/// The tint in which a glyph of the terrain is printed.
pub fn glyph_tint(glyph: char) -> (tint: Tint)
    ensures
        tint == tint_of(glyph),
{
    if glyph == FLOOR {
        Tint::Green
    } else if glyph == CORRIDOR {
        Tint::Yellow
    } else if glyph == '@' {
        Tint::Red
    } else {
        Tint::White
    }
}

/// The digit `n` as a character.
pub open spec fn digit(n: int) -> char {
    if n == 0 {
        '0'
    } else if n == 1 {
        '1'
    } else if n == 2 {
        '2'
    } else if n == 3 {
        '3'
    } else if n == 4 {
        '4'
    } else if n == 5 {
        '5'
    } else if n == 6 {
        '6'
    } else if n == 7 {
        '7'
    } else if n == 8 {
        '8'
    } else {
        '9'
    }
}

/// What is printed for a value of the distance field: a blank for the
/// sentinel of a cell that blocks, else the last digit of the distance.
pub fn distance_glyph(distance: u16) -> (glyph: char)
    ensures
        glyph == if distance == UNREACHABLE {
            ' '
        } else {
            digit(distance as int % 10)
        },
{
    if distance == UNREACHABLE {
        return ' ';
    }
    let last: u16 = distance % 10;
    if last == 0 {
        '0'
    } else if last == 1 {
        '1'
    } else if last == 2 {
        '2'
    } else if last == 3 {
        '3'
    } else if last == 4 {
        '4'
    } else if last == 5 {
        '5'
    } else if last == 6 {
        '6'
    } else if last == 7 {
        '7'
    } else if last == 8 {
        '8'
    } else {
        '9'
    }
}

} // verus!
