//! The dungeon state and the two fields that are derived from where its
//! entities stand: occupancy and distance to the player.

use crate::grid::Grid;
use crate::monster::Monster;
use crate::player::Player;
use crate::reach::{passable, BLOCKING};
use vstd::prelude::*;

verus! {

/// Glyph of a room's floor.
pub const FLOOR: char = '.';

/// Glyph of a carved corridor.
pub const CORRIDOR: char = '#';

/// Glyph of the sealed perimeter.
pub const BORDER: char = '%';

/// Glyph of solid rock.
pub const EMPTY: char = ' ';

/// Hardness of an open cell.
pub const OPEN: u8 = 0;

/// Hardness of solid rock.
pub const SOLID: u8 = 255;

/// Distance recorded for a cell that cannot be entered.
pub const UNREACHABLE: u16 = 1055;

/// The whole state of one dungeon: the terrain, the entities and the fields
/// derived from them. `dungeon_x` counts rows and `dungeon_y` columns; an
/// `x` is always a row and a `y` a column.
#[derive(Clone, Debug, PartialEq, Eq)]
pub struct Dungeon {
    pub dungeon_x: usize,
    pub dungeon_y: usize,
    pub min_width: usize,
    pub max_width: usize,
    pub min_length: usize,
    pub max_length: usize,
    pub rooms: usize,
    pub char_map: Grid<char>,
    pub player: Player,
    pub hardness_map: Grid<u8>,
    pub distance_map: Grid<u16>,
    pub mon_map: Grid<bool>,
    pub monsters: Vec<Monster>,
}

/// Distance between two cells when each step goes along one axis.
pub open spec fn manhattan(r1: int, c1: int, r2: int, c2: int) -> int {
    (if r1 >= r2 {
        r1 - r2
    } else {
        r2 - r1
    }) + (if c1 >= c2 {
        c1 - c2
    } else {
        c2 - c1
    })
}

impl Dungeon {
    /// Whether `(r, c)` names a cell of the dungeon.
    pub open spec fn in_grid(&self, r: int, c: int) -> bool {
        0 <= r < self.dungeon_x && 0 <= c < self.dungeon_y
    }

    /// The four fields are sound and have the dungeon's shape, and every
    /// distance within it can be held in a `u16`.
    pub open spec fn fields_wf(&self) -> bool {
        &&& self.char_map.wf()
        &&& self.hardness_map.wf()
        &&& self.distance_map.wf()
        &&& self.mon_map.wf()
        &&& self.char_map.height() == self.dungeon_x
        &&& self.char_map.width() == self.dungeon_y
        &&& self.hardness_map.height() == self.dungeon_x
        &&& self.hardness_map.width() == self.dungeon_y
        &&& self.distance_map.height() == self.dungeon_x
        &&& self.distance_map.width() == self.dungeon_y
        &&& self.mon_map.height() == self.dungeon_x
        &&& self.mon_map.width() == self.dungeon_y
        &&& self.dungeon_x + self.dungeon_y <= u16::MAX
    }

    /// The fields are sound and every entity stands on a cell of the grid.
    pub open spec fn wf(&self) -> bool {
        &&& self.fields_wf()
        &&& self.in_grid(self.player.position_x as int, self.player.position_y as int)
        &&& forall|i: int|
            0 <= i < self.monsters@.len() ==> self.in_grid(
                (#[trigger] self.monsters@[i]).pos_x as int,
                self.monsters@[i].pos_y as int,
            )
    }

    /// Whether the cell lies in the grid and its hardness lets an entity in.
    pub open spec fn is_passable(&self, r: int, c: int) -> bool {
        self.in_grid(r, c) && self.hardness_map.at(r, c) < BLOCKING
    }

    /// Whether every floor cell can be entered.
    pub open spec fn floor_open(&self) -> bool {
        forall|r: int, c: int|
            self.in_grid(r, c) && #[trigger] self.char_map.at(r, c) == FLOOR
                ==> self.hardness_map.at(r, c) < BLOCKING
    }

    /// In a sound dungeon the cells that can be entered are the passable
    /// cells of its hardness field.
    pub proof fn lemma_passable_agrees(&self)
        requires
            self.fields_wf(),
        ensures
            forall|r: int, c: int|
                #[trigger] passable(self.hardness_map@, r, c) <==> self.is_passable(r, c),
    {
        self.hardness_map.lemma_shape();
        assert forall|r: int, c: int| #[trigger]
            passable(self.hardness_map@, r, c) <==> self.is_passable(r, c) by {
            if 0 <= r < self.dungeon_x {
                assert(self.hardness_map@[r].len() == self.dungeon_y);
            }
        }
    }

    /// Whether one of the first `n` monsters of the roster is alive and
    /// stands on `(r, c)`.
    pub open spec fn monster_among(&self, n: int, r: int, c: int) -> bool {
        exists|i: int|
            0 <= i < n && i < self.monsters@.len() && (#[trigger] self.monsters@[i]).alive
                && self.monsters@[i].pos_x == r && self.monsters@[i].pos_y == c
    }

    /// Whether a living monster stands on `(r, c)`.
    pub open spec fn monster_at(&self, r: int, c: int) -> bool {
        self.monster_among(self.monsters@.len() as int, r, c)
    }

    /// Whether the living player stands on `(r, c)`.
    pub open spec fn player_at(&self, r: int, c: int) -> bool {
        self.player.alive && self.player.position_x == r && self.player.position_y == c
    }

    /// Whether a living entity, monster or player, stands on `(r, c)`.
    pub open spec fn occupied(&self, r: int, c: int) -> bool {
        self.monster_at(r, c) || self.player_at(r, c)
    }

    /// The occupancy field marks exactly the cells on which a living entity
    /// stands.
    pub open spec fn occupancy_current(&self) -> bool {
        forall|r: int, c: int|
            self.in_grid(r, c) ==> #[trigger] self.mon_map.at(r, c) == self.occupied(r, c)
    }

    /// What the distance field holds for `(r, c)`: the sentinel where the
    /// cell blocks, else the Manhattan distance to the player's cell.
    pub open spec fn distance_to_player(&self, r: int, c: int) -> int {
        if self.hardness_map.at(r, c) >= BLOCKING {
            UNREACHABLE as int
        } else {
            manhattan(self.player.position_x as int, self.player.position_y as int, r, c)
        }
    }

    /// The distance field holds, for every cell, its distance to where the
    /// player stands now.
    pub open spec fn distance_current(&self) -> bool {
        forall|r: int, c: int|
            self.in_grid(r, c) ==> #[trigger] self.distance_map.at(r, c)
                == self.distance_to_player(r, c)
    }

    /// Whether terrain, hardness and room limits are those of `other`.
    pub open spec fn same_terrain(&self, other: &Dungeon) -> bool {
        &&& self.dungeon_x == other.dungeon_x
        &&& self.dungeon_y == other.dungeon_y
        &&& self.min_width == other.min_width
        &&& self.max_width == other.max_width
        &&& self.min_length == other.min_length
        &&& self.max_length == other.max_length
        &&& self.rooms == other.rooms
        &&& self.char_map@ == other.char_map@
        &&& self.hardness_map@ == other.hardness_map@
    }

    /// Whether the fields are sound and every entity stands on a cell of
    /// the grid.
    pub fn is_sound(&self) -> (sound: bool)
        ensures
            sound == self.wf(),
    {
        let shaped: bool = self.char_map.is_sound() && self.hardness_map.is_sound()
            && self.distance_map.is_sound() && self.mon_map.is_sound() && self.char_map.rows()
            == self.dungeon_x && self.char_map.cols() == self.dungeon_y && self.hardness_map.rows()
            == self.dungeon_x && self.hardness_map.cols() == self.dungeon_y
            && self.distance_map.rows() == self.dungeon_x && self.distance_map.cols()
            == self.dungeon_y && self.mon_map.rows() == self.dungeon_x && self.mon_map.cols()
            == self.dungeon_y && self.dungeon_x <= 65535 && self.dungeon_y <= 65535
            - self.dungeon_x;
        if !shaped || self.player.position_x >= self.dungeon_x || self.player.position_y
            >= self.dungeon_y {
            return false;
        }
        let mut i: usize = 0;
        while i < self.monsters.len()
            invariant
                i <= self.monsters@.len(),
                forall|k: int|
                    0 <= k < i ==> self.in_grid(
                        (#[trigger] self.monsters@[k]).pos_x as int,
                        self.monsters@[k].pos_y as int,
                    ),
            decreases self.monsters@.len() - i,
        {
            if self.monsters[i].pos_x >= self.dungeon_x || self.monsters[i].pos_y
                >= self.dungeon_y {
                return false;
            }
            i += 1;
        }
        true
    }

    /// A dungeon of solid rock with no monsters. The player waits in the
    /// corner `(0, 0)` to be placed.
    pub fn blank(dungeon_x: usize, dungeon_y: usize) -> (d: Dungeon)
        requires
            0 < dungeon_x,
            0 < dungeon_y,
            dungeon_x + dungeon_y <= u16::MAX,
        ensures
            d.wf(),
            d.dungeon_x == dungeon_x,
            d.dungeon_y == dungeon_y,
            d.min_width == 4 && d.max_width == 9,
            d.min_length == 4 && d.max_length == 12,
            d.rooms == 7,
            d.monsters@.len() == 0,
            d.player == Player::fresh(0, 0),
            forall|r: int, c: int| d.in_grid(r, c) ==> #[trigger] d.char_map.at(r, c) == EMPTY,
            forall|r: int, c: int| d.in_grid(r, c) ==> #[trigger] d.hardness_map.at(r, c) == SOLID,
            forall|r: int, c: int| d.in_grid(r, c) ==> #[trigger] d.distance_map.at(r, c) == 0,
            forall|r: int, c: int| d.in_grid(r, c) ==> #[trigger] d.mon_map.at(r, c) == false,
    {
        assert(dungeon_x * dungeon_y <= usize::MAX) by (nonlinear_arith)
            requires
                0 < dungeon_x <= 65535,
                0 < dungeon_y <= 65535,
                usize::MAX >= 4294967295,
        ;
        Dungeon {
            dungeon_x,
            dungeon_y,
            min_width: 4,
            max_width: 9,
            min_length: 4,
            max_length: 12,
            rooms: 7,
            char_map: Grid::filled(dungeon_x, dungeon_y, EMPTY),
            player: Player::new(0, 0),
            hardness_map: Grid::filled(dungeon_x, dungeon_y, SOLID),
            distance_map: Grid::filled(dungeon_x, dungeon_y, 0u16),
            mon_map: Grid::filled(dungeon_x, dungeon_y, false),
            monsters: Vec::new(),
        }
    }
}

/// Rebuilds the occupancy field: clears it, then marks the cell of every
/// living monster and of the living player. The dead mark nothing.
pub fn monster_map(d: &mut Dungeon)
    requires
        old(d).wf(),
    ensures
        final(d).wf(),
        final(d).occupancy_current(),
        final(d).same_terrain(old(d)),
        final(d).player == old(d).player,
        final(d).monsters@ == old(d).monsters@,
        final(d).distance_map@ == old(d).distance_map@,
{
    d.mon_map.fill(false);
    let count: usize = d.monsters.len();
    let mut mon: usize = 0;
    while mon < count
        invariant
            mon <= count,
            count == d.monsters@.len(),
            d.wf(),
            d.same_terrain(old(d)),
            d.player == old(d).player,
            d.monsters@ == old(d).monsters@,
            d.distance_map@ == old(d).distance_map@,
            forall|r: int, c: int|
                d.in_grid(r, c) ==> #[trigger] d.mon_map.at(r, c) == d.monster_among(
                    mon as int,
                    r,
                    c,
                ),
        decreases count - mon,
    {
        let m: Monster = d.monsters[mon];
        let ghost before = *d;
        if m.alive {
            d.mon_map.set(m.pos_x, m.pos_y, true);
        }
        proof {
            assert forall|r: int, c: int| d.in_grid(r, c) implies #[trigger] d.mon_map.at(r, c)
                == d.monster_among(mon + 1, r, c) by {
                assert(before.mon_map.at(r, c) == before.monster_among(mon as int, r, c));
                if before.monster_among(mon as int, r, c) {
                    let i = choose|i: int|
                        0 <= i < mon && i < d.monsters@.len() && (#[trigger] d.monsters@[i]).alive
                            && d.monsters@[i].pos_x == r && d.monsters@[i].pos_y == c;
                    assert(d.monsters@[i].alive && 0 <= i < mon + 1);
                } else if m.alive && m.pos_x == r && m.pos_y == c {
                    assert(d.monsters@[mon as int].alive);
                }
            }
        }
        mon += 1;
    }
    let ghost marked = *d;
    if d.player.alive {
        d.mon_map.set(d.player.position_x, d.player.position_y, true);
    }
    proof {
        assert forall|r: int, c: int| d.in_grid(r, c) implies #[trigger] d.mon_map.at(r, c)
            == d.occupied(r, c) by {
            assert(marked.mon_map.at(r, c) == marked.monster_among(count as int, r, c));
        }
    }
}

/// Rebuilds the distance field in one pass over the grid: the sentinel for
/// every cell that blocks, the Manhattan distance to the player's cell for
/// every other. Walls between a cell and the player are not looked at.
pub fn calculate_distance_map(d: &mut Dungeon)
    requires
        old(d).wf(),
    ensures
        final(d).wf(),
        final(d).distance_current(),
        final(d).same_terrain(old(d)),
        final(d).player == old(d).player,
        final(d).monsters@ == old(d).monsters@,
        final(d).mon_map@ == old(d).mon_map@,
{
    let px: usize = d.player.position_x;
    let py: usize = d.player.position_y;
    let mut x: usize = 0;
    while x < d.dungeon_x
        invariant
            x <= d.dungeon_x,
            d.wf(),
            d.same_terrain(old(d)),
            d.player == old(d).player,
            d.monsters@ == old(d).monsters@,
            d.mon_map@ == old(d).mon_map@,
            px == d.player.position_x,
            py == d.player.position_y,
            forall|r: int, c: int|
                0 <= r < x && 0 <= c < d.dungeon_y ==> #[trigger] d.distance_map.at(r, c)
                    == d.distance_to_player(r, c),
        decreases d.dungeon_x - x,
    {
        let mut y: usize = 0;
        while y < d.dungeon_y
            invariant
                x < d.dungeon_x,
                y <= d.dungeon_y,
                d.wf(),
                d.same_terrain(old(d)),
                d.player == old(d).player,
                d.monsters@ == old(d).monsters@,
                d.mon_map@ == old(d).mon_map@,
                px == d.player.position_x,
                py == d.player.position_y,
                forall|r: int, c: int|
                    0 <= r < x && 0 <= c < d.dungeon_y ==> #[trigger] d.distance_map.at(r, c)
                        == d.distance_to_player(r, c),
                forall|c: int|
                    0 <= c < y ==> #[trigger] d.distance_map.at(x as int, c)
                        == d.distance_to_player(x as int, c),
            decreases d.dungeon_y - y,
        {
            if d.hardness_map.get(x, y) >= BLOCKING {
                d.distance_map.set(x, y, UNREACHABLE);
            } else {
                let dx: usize = if px >= x {
                    px - x
                } else {
                    x - px
                };
                let dy: usize = if py >= y {
                    py - y
                } else {
                    y - py
                };
                d.distance_map.set(x, y, (dx + dy) as u16);
            }
            y += 1;
        }
        x += 1;
    }
}

} // verus!
