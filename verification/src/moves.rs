//! Where an entity may step: the test of one step of the player, and the
//! choice of a monster among the cells around it.

use crate::dungeon::Dungeon;
use crate::monster::Monster;
use crate::reach::BLOCKING;
use vstd::prelude::*;

verus! {

/// The axis along which a step goes.
#[derive(Clone, Copy, Debug, PartialEq, Eq, Structural)]
pub enum Axis {
    /// From row to row; the column stays.
    Row,
    /// From column to column; the row stays.
    Col,
}

/// The sense of a step along its axis.
#[derive(Clone, Copy, Debug, PartialEq, Eq, Structural)]
pub enum Delta {
    /// By -1: to the row above, or to the column on the left.
    Minus,
    /// By +1: to the row below, or to the column on the right.
    Plus,
}

/// One of the four directions of a step.
#[derive(Clone, Copy, Debug, PartialEq, Eq, Structural)]
pub enum Direction {
    Up,
    Down,
    Left,
    Right,
}

impl Direction {
    /// The axis of a step in this direction.
    pub open spec fn axis_of(self) -> Axis {
        match self {
            Direction::Up | Direction::Down => Axis::Row,
            Direction::Left | Direction::Right => Axis::Col,
        }
    }

    /// The sense of a step in this direction.
    pub open spec fn delta_of(self) -> Delta {
        match self {
            Direction::Up | Direction::Left => Delta::Minus,
            Direction::Down | Direction::Right => Delta::Plus,
        }
    }

    /// The axis of a step in this direction.
    pub fn axis(self) -> (axis: Axis)
        ensures
            axis == self.axis_of(),
    {
        match self {
            Direction::Up | Direction::Down => Axis::Row,
            Direction::Left | Direction::Right => Axis::Col,
        }
    }

    /// The sense of a step in this direction.
    pub fn delta(self) -> (delta: Delta)
        ensures
            delta == self.delta_of(),
    {
        match self {
            Direction::Up | Direction::Left => Delta::Minus,
            Direction::Down | Direction::Right => Delta::Plus,
        }
    }
}

/// The cell one step from `(r, c)` along `axis` in the sense `delta`.
pub open spec fn shifted(r: int, c: int, axis: Axis, delta: Delta) -> (int, int) {
    let by: int = match delta {
        Delta::Minus => -1,
        Delta::Plus => 1,
    };
    match axis {
        Axis::Row => (r + by, c),
        Axis::Col => (r, c + by),
    }
}

/// The cell one step from `(r, c)`, where its row and column can be held
/// in a `usize`.
pub fn destination(r: usize, c: usize, axis: Axis, delta: Delta) -> (dest: Option<(usize, usize)>)
    ensures
        dest matches Some(p) ==> (p.0 as int, p.1 as int) == shifted(r as int, c as int, axis, delta),
        dest is None ==> {
            let s = shifted(r as int, c as int, axis, delta);
            s.0 < 0 || s.1 < 0 || s.0 > usize::MAX || s.1 > usize::MAX
        },
{
    match axis {
        Axis::Row => match delta {
            Delta::Minus => if r > 0 {
                Some((r - 1, c))
            } else {
                None
            },
            Delta::Plus => if r < usize::MAX {
                Some((r + 1, c))
            } else {
                None
            },
        },
        Axis::Col => match delta {
            Delta::Minus => if c > 0 {
                Some((r, c - 1))
            } else {
                None
            },
            Delta::Plus => if c < usize::MAX {
                Some((r, c + 1))
            } else {
                None
            },
        },
    }
}

/// The axis that [`Dungeon::move_character`] reads from its first
/// argument: `'x'` names a step from column to column, anything else a
/// step from row to row.
pub open spec fn axis_named(direction: char) -> Axis {
    if direction == 'x' {
        Axis::Col
    } else {
        Axis::Row
    }
}

/// The sense that [`Dungeon::move_character`] reads from its second
/// argument: 1000 names a step by -1, anything else a step by +1.
pub open spec fn delta_named(value: usize) -> Delta {
    if value == 1000 {
        Delta::Minus
    } else {
        Delta::Plus
    }
}

/// Whether `b` is one of the eight cells around `a`.
pub open spec fn near(a: (int, int), b: (int, int)) -> bool {
    a.0 - 1 <= b.0 <= a.0 + 1 && a.1 - 1 <= b.1 <= a.1 + 1 && a != b
}

/// Whether a monster prefers the cell `p` to the cell `q`: `p` has the
/// lesser distance, or the same and comes no later row by row.
pub open spec fn prefers(dist_p: int, p: (int, int), dist_q: int, q: (int, int)) -> bool {
    dist_p < dist_q || (dist_p == dist_q && (p.0 < q.0 || (p.0 == q.0 && p.1 <= q.1)))
}

impl Dungeon {
    /// Whether the occupancy field leaves `(r, c)` to an entity that
    /// wants to step there: the cell is passable and not marked.
    pub open spec fn is_free(&self, r: int, c: int) -> bool {
        self.is_passable(r, c) && !self.mon_map.at(r, c)
    }

    /// Whether the player may take the step that `direction` and `value`
    /// name: the cell to step on lies in the grid, can be entered, and is
    /// not marked in the occupancy field.
    pub fn move_character(&self, direction: char, value: usize) -> (free: bool)
        requires
            self.wf(),
        ensures
            free == {
                let to = shifted(
                    self.player.position_x as int,
                    self.player.position_y as int,
                    axis_named(direction),
                    delta_named(value),
                );
                self.is_free(to.0, to.1)
            },
    {
        let axis: Axis = if direction == 'x' {
            Axis::Col
        } else {
            Axis::Row
        };
        let delta: Delta = if value == 1000 {
            Delta::Minus
        } else {
            Delta::Plus
        };
        match destination(self.player.position_x, self.player.position_y, axis, delta) {
            Some((r, c)) => r < self.dungeon_x && c < self.dungeon_y && self.hardness_map.get(r, c)
                < BLOCKING && !self.mon_map.get(r, c),
            None => false,
        }
    }

    /// Whether the monster in slot `monster` may choose `(r, c)`: one of
    /// the eight cells around it that can be entered and that the
    /// occupancy field does not mark. Where `to_attack` is set, the cell
    /// on which the living player stands may be chosen too, marked as it
    /// is.
    pub open spec fn may_choose(&self, monster: int, to_attack: bool, r: int, c: int) -> bool {
        &&& self.is_passable(r, c)
        &&& near((self.monsters@[monster].pos_x as int, self.monsters@[monster].pos_y as int), (r, c))
        &&& (!self.mon_map.at(r, c) || (to_attack && self.player_at(r, c)))
    }

    /// Whether `(r, c)` is the cell that the monster in slot `monster`
    /// chooses: it may choose it, and prefers it to every other cell it
    /// may choose.
    pub open spec fn is_choice_of(&self, monster: int, to_attack: bool, r: int, c: int) -> bool {
        &&& self.may_choose(monster, to_attack, r, c)
        &&& forall|r2: int, c2: int| #[trigger]
            self.may_choose(monster, to_attack, r2, c2) ==> prefers(
                self.distance_map.at(r, c) as int,
                (r, c),
                self.distance_map.at(r2, c2) as int,
                (r2, c2),
            )
    }

    /// No two cells are both the choice of a monster.
    pub proof fn lemma_choice_unique(
        &self,
        monster: int,
        to_attack: bool,
        p: (int, int),
        q: (int, int),
    )
        requires
            self.is_choice_of(monster, to_attack, p.0, p.1),
            self.is_choice_of(monster, to_attack, q.0, q.1),
        ensures
            p == q,
    {
        assert(self.may_choose(monster, to_attack, q.0, q.1));
        assert(self.may_choose(monster, to_attack, p.0, p.1));
    }

    /// Whether the monster in slot `monster` may step to `(r, c)` in its
    /// turn: one of the eight cells around it that can be entered and that
    /// the occupancy field does not mark, or marks for the living player.
    pub open spec fn eligible(&self, monster: int, r: int, c: int) -> bool {
        self.may_choose(monster, true, r, c)
    }

    /// Whether `(r, c)` is the cell to which the monster in slot `monster`
    /// steps in its turn.
    pub open spec fn is_best_step(&self, monster: int, r: int, c: int) -> bool {
        self.is_choice_of(monster, true, r, c)
    }

    /// Whether `(r, c)` is a free neighbour of the monster in slot
    /// `monster`: one of the eight cells around it that can be entered and
    /// that the occupancy field does not mark.
    pub open spec fn free_neighbour(&self, monster: int, r: int, c: int) -> bool {
        self.may_choose(monster, false, r, c)
    }

    /// Whether `(r, c)` is the free neighbour that the monster in slot
    /// `monster` moves to: the one with the least value in the distance
    /// field, and of several such the first row by row.
    pub open spec fn is_monster_move(&self, monster: int, r: int, c: int) -> bool {
        self.is_choice_of(monster, false, r, c)
    }

    /// The cell that the monster in slot `monster` chooses, if it may
    /// choose any: of the cells around it, the one with the least value in
    /// the distance field, and of several such the first row by row.
    pub fn choose_step(&self, monster: usize, to_attack: bool) -> (choice: Option<(usize, usize)>)
        requires
            self.wf(),
            monster < self.monsters@.len(),
        ensures
            choice matches Some(p) ==> self.is_choice_of(
                monster as int,
                to_attack,
                p.0 as int,
                p.1 as int,
            ),
            choice is None ==> forall|r: int, c: int|
                !self.may_choose(monster as int, to_attack, r, c),
    {
        let m: Monster = self.monsters[monster];
        let px: usize = m.pos_x;
        let py: usize = m.pos_y;
        let r_lo: usize = if px > 0 {
            px - 1
        } else {
            0
        };
        let r_hi: usize = if px + 1 < self.dungeon_x {
            px + 1
        } else {
            px
        };
        let c_lo: usize = if py > 0 {
            py - 1
        } else {
            0
        };
        let c_hi: usize = if py + 1 < self.dungeon_y {
            py + 1
        } else {
            py
        };
        let mut best: Option<(usize, usize)> = None;
        let mut least: u16 = 0;
        let mut x: usize = r_lo;
        while x <= r_hi
            invariant
                self.wf(),
                monster < self.monsters@.len(),
                m == self.monsters@[monster as int],
                px == m.pos_x && py == m.pos_y,
                r_lo <= x <= r_hi + 1,
                r_hi < self.dungeon_x,
                c_hi < self.dungeon_y,
                c_lo <= c_hi,
                r_lo + 1 == px || (r_lo == 0 && px == 0),
                c_lo + 1 == py || (c_lo == 0 && py == 0),
                r_hi == px + 1 || (r_hi == px && px + 1 == self.dungeon_x),
                c_hi == py + 1 || (c_hi == py && py + 1 == self.dungeon_y),
                best is None ==> forall|r: int, c: int|
                    r < x ==> !#[trigger] self.may_choose(monster as int, to_attack, r, c),
                best matches Some(p) ==> {
                    &&& self.may_choose(monster as int, to_attack, p.0 as int, p.1 as int)
                    &&& p.0 < x
                    &&& least == self.distance_map.at(p.0 as int, p.1 as int)
                    &&& forall|r: int, c: int|
                        r < x && #[trigger] self.may_choose(monster as int, to_attack, r, c) ==> prefers(
                            least as int,
                            (p.0 as int, p.1 as int),
                            self.distance_map.at(r, c) as int,
                            (r, c),
                        )
                },
            decreases r_hi + 1 - x,
        {
            let mut y: usize = c_lo;
            while y <= c_hi
                invariant
                    self.wf(),
                    monster < self.monsters@.len(),
                    m == self.monsters@[monster as int],
                    px == m.pos_x && py == m.pos_y,
                    r_lo <= x <= r_hi,
                    c_lo <= y <= c_hi + 1,
                    r_hi < self.dungeon_x,
                    c_hi < self.dungeon_y,
                    r_lo + 1 == px || (r_lo == 0 && px == 0),
                    c_lo + 1 == py || (c_lo == 0 && py == 0),
                    r_hi == px + 1 || (r_hi == px && px + 1 == self.dungeon_x),
                    c_hi == py + 1 || (c_hi == py && py + 1 == self.dungeon_y),
                    best is None ==> forall|r: int, c: int|
                        (r < x || (r == x && c < y)) ==> !#[trigger] self.may_choose(monster as int, to_attack,
                            r,
                            c,
                        ),
                    best matches Some(p) ==> {
                        &&& self.may_choose(monster as int, to_attack, p.0 as int, p.1 as int)
                        &&& (p.0 < x || (p.0 == x && p.1 < y))
                        &&& least == self.distance_map.at(p.0 as int, p.1 as int)
                        &&& forall|r: int, c: int|
                            (r < x || (r == x && c < y)) && #[trigger] self.may_choose(monster as int, to_attack,
                                r,
                                c,
                            ) ==> prefers(
                                least as int,
                                (p.0 as int, p.1 as int),
                                self.distance_map.at(r, c) as int,
                                (r, c),
                            )
                    },
                decreases c_hi + 1 - y,
            {
                let own: bool = x == px && y == py;
                let by_player: bool = to_attack && self.player.alive && self.player.position_x
                    == x && self.player.position_y == y;
                if !own && self.hardness_map.get(x, y) < BLOCKING && (!self.mon_map.get(x, y)
                    || by_player) {
                    let here: u16 = self.distance_map.get(x, y);
                    let better: bool = match best {
                        Some(_) => here < least,
                        None => true,
                    };
                    if better {
                        best = Some((x, y));
                        least = here;
                    }
                }
                y += 1;
            }
            x += 1;
        }
        best
    }

    /// The cell to which the monster in slot `monster` steps in its turn,
    /// if there is one: the cell of the living player if that is the best
    /// around it, where it then attacks, and else the best free neighbour.
    pub fn best_step(&self, monster: usize) -> (choice: Option<(usize, usize)>)
        requires
            self.wf(),
            monster < self.monsters@.len(),
        ensures
            choice matches Some(p) ==> self.is_best_step(monster as int, p.0 as int, p.1 as int),
            choice is None ==> forall|r: int, c: int| !self.eligible(monster as int, r, c),
    {
        self.choose_step(monster, true)
    }

    /// The free neighbour that the monster in slot `monster` moves to: of
    /// the eight cells around it that can be entered and that the
    /// occupancy field does not mark, the one with the least value in the
    /// distance field, and of several such the first row by row. A monster
    /// without a free neighbour stays: the result is its own cell.
    pub fn determine_monster_move(&self, monster: usize) -> (to: (usize, usize))
        requires
            self.wf(),
            monster < self.monsters@.len(),
        ensures
            self.is_monster_move(monster as int, to.0 as int, to.1 as int) || (to == (
                self.monsters@[monster as int].pos_x,
                self.monsters@[monster as int].pos_y,
            ) && forall|r: int, c: int| !self.free_neighbour(monster as int, r, c)),
    {
        match self.choose_step(monster, false) {
            Some(p) => p,
            None => (self.monsters[monster].pos_x, self.monsters[monster].pos_y),
        }
    }
}

} // verus!
