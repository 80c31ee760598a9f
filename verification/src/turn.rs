//! One turn: a step of the player or of a monster against terrain and
//! entities, the exchange of an attack, and the turn of the monsters.

use crate::combat::exchange_is_representable;
use crate::dungeon::{calculate_distance_map, monster_map, Dungeon};
use crate::monster::Monster;
use crate::moves::{destination, near, prefers, shifted, Axis, Delta, Direction};
use crate::player::Player;
use crate::reach::{passable, BLOCKING};
use vstd::prelude::*;

verus! {

/// The entity that takes a step.
#[derive(Clone, Copy, Debug, PartialEq, Eq, Structural)]
pub enum Mover {
    /// The player.
    Player,
    /// The monster in the given slot of the roster.
    Monster(usize),
}

/// How an attempted step ended.
#[derive(Clone, Copy, Debug, PartialEq, Eq, Structural)]
pub enum MoveOutcome {
    /// The mover stands on the cell it stepped to.
    Moved,
    /// The cell cannot be entered, or the mover is dead: nothing changed.
    Blocked,
    /// A living opponent stood on the cell: the mover attacked it and
    /// stayed where it was.
    Attacked,
    /// A living opponent stood on the cell, but the hit points it would
    /// be left with cannot be held: nothing changed.
    Unresolved,
}

/// Whether the monster in slot `i` is alive, stands on `(r, c)`, and no
/// monster in an earlier slot does.
pub open spec fn is_first_living_at(monsters: Seq<Monster>, i: int, r: int, c: int) -> bool {
    &&& 0 <= i < monsters.len()
    &&& monsters[i].alive && monsters[i].pos_x == r && monsters[i].pos_y == c
    &&& forall|j: int|
        0 <= j < i ==> !((#[trigger] monsters[j]).alive && monsters[j].pos_x == r
            && monsters[j].pos_y == c)
}

/// The first slot of the roster whose monster is alive and stands on
/// `(r, c)`.
pub open spec fn first_living_at(monsters: Seq<Monster>, r: int, c: int) -> Option<int> {
    if exists|i: int| is_first_living_at(monsters, i, r, c) {
        Some(choose|i: int| is_first_living_at(monsters, i, r, c))
    } else {
        None
    }
}

/// The slot that is first is the one that is found.
pub proof fn lemma_first_living_found(monsters: Seq<Monster>, i: int, r: int, c: int)
    requires
        is_first_living_at(monsters, i, r, c),
    ensures
        first_living_at(monsters, r, c) == Some(i),
{
    let j = choose|j: int| is_first_living_at(monsters, j, r, c);
    if j < i {
        assert(monsters[j].alive);
    } else if i < j {
        assert(monsters[i].alive);
    }
}

/// Where no living monster stands, none is found.
pub proof fn lemma_first_living_none(monsters: Seq<Monster>, r: int, c: int)
    requires
        forall|i: int|
            0 <= i < monsters.len() ==> !((#[trigger] monsters[i]).alive && monsters[i].pos_x == r
                && monsters[i].pos_y == c),
    ensures
        first_living_at(monsters, r, c) is None,
{
    assert forall|i: int| !is_first_living_at(monsters, i, r, c) by {
        if 0 <= i < monsters.len() {
            assert(!(monsters[i].alive && monsters[i].pos_x == r && monsters[i].pos_y == c));
        }
    }
}

/// Whether the living player stands on `(r, c)`.
pub open spec fn player_on(player: Player, r: int, c: int) -> bool {
    player.alive && player.position_x == r && player.position_y == c
}

/// Whether a living monster stands on `(r, c)`.
pub open spec fn monster_on(monsters: Seq<Monster>, r: int, c: int) -> bool {
    exists|i: int|
        0 <= i < monsters.len() && (#[trigger] monsters[i]).alive && monsters[i].pos_x == r
            && monsters[i].pos_y == c
}

/// The monster moved to `(r, c)`.
pub open spec fn moved_to(m: Monster, r: int, c: int) -> Monster {
    Monster { pos_x: r as usize, pos_y: c as usize, ..m }
}

/// Monsters and player after the monster in slot `i`, alive, has stepped
/// to the passable cell `(r, c)`: where the living player stands there, it
/// has attacked the player and stayed, or left everything as it was if the
/// player's hit points could not be held; otherwise it stands on `(r, c)`.
pub open spec fn monster_steps_to(
    monsters: Seq<Monster>,
    player: Player,
    i: int,
    r: int,
    c: int,
) -> (Seq<Monster>, Player) {
    if player_on(player, r, c) {
        if player.can_take(monsters[i].attack as int) {
            (monsters, player.after_attack(monsters[i].attack as int))
        } else {
            (monsters, player)
        }
    } else {
        (monsters.update(i, moved_to(monsters[i], r, c)), player)
    }
}

/// Monsters and player after the living player has stepped to the
/// passable cell `(r, c)`: where a living monster stands there, the player
/// has attacked the first such monster of the roster and stayed, or left
/// everything as it was if that monster's hit points could not be held;
/// otherwise the player stands on `(r, c)`.
pub open spec fn player_steps_to(monsters: Seq<Monster>, player: Player, r: int, c: int) -> (
    Seq<Monster>,
    Player,
) {
    match first_living_at(monsters, r, c) {
        Some(i) => if monsters[i].can_take(player.attack as int) {
            (monsters.update(i, monsters[i].after_attack(player.attack as int)), player)
        } else {
            (monsters, player)
        },
        None => (monsters, Player { position_x: r as usize, position_y: c as usize, ..player }),
    }
}

impl Dungeon {
    /// Whether `mover` names an entity of this dungeon.
    pub open spec fn has_mover(&self, mover: Mover) -> bool {
        match mover {
            Mover::Player => true,
            Mover::Monster(i) => i < self.monsters@.len(),
        }
    }

    /// Whether the entity that `mover` names is alive.
    pub open spec fn mover_alive(&self, mover: Mover) -> bool {
        match mover {
            Mover::Player => self.player.alive,
            Mover::Monster(i) => self.monsters@[i as int].alive,
        }
    }

    /// The cell on which the entity that `mover` names stands.
    pub open spec fn mover_cell(&self, mover: Mover) -> (int, int) {
        match mover {
            Mover::Player => (self.player.position_x as int, self.player.position_y as int),
            Mover::Monster(i) => (
                self.monsters@[i as int].pos_x as int,
                self.monsters@[i as int].pos_y as int,
            ),
        }
    }

    /// How a step of `mover` to `(r, c)` ends.
    pub open spec fn step_outcome(&self, mover: Mover, r: int, c: int) -> MoveOutcome {
        if !self.mover_alive(mover) || !self.is_passable(r, c) {
            MoveOutcome::Blocked
        } else {
            match mover {
                Mover::Player => match first_living_at(self.monsters@, r, c) {
                    Some(i) => if self.monsters@[i].can_take(self.player.attack as int) {
                        MoveOutcome::Attacked
                    } else {
                        MoveOutcome::Unresolved
                    },
                    None => MoveOutcome::Moved,
                },
                Mover::Monster(i) => if player_on(self.player, r, c) {
                    if self.player.can_take(self.monsters@[i as int].attack as int) {
                        MoveOutcome::Attacked
                    } else {
                        MoveOutcome::Unresolved
                    }
                } else {
                    MoveOutcome::Moved
                },
            }
        }
    }

    /// Monsters and player after a step of `mover` to `(r, c)`.
    pub open spec fn step_entities(&self, mover: Mover, r: int, c: int) -> (Seq<Monster>, Player) {
        if !self.mover_alive(mover) || !self.is_passable(r, c) {
            (self.monsters@, self.player)
        } else {
            match mover {
                Mover::Player => player_steps_to(self.monsters@, self.player, r, c),
                Mover::Monster(i) => monster_steps_to(self.monsters@, self.player, i as int, r, c),
            }
        }
    }

    /// The first slot of the roster whose monster is alive and stands on
    /// `(r, c)`.
    pub fn living_monster_at(&self, r: usize, c: usize) -> (found: Option<usize>)
        ensures
            found matches Some(i) ==> is_first_living_at(self.monsters@, i as int, r as int, c as int),
            found is None ==> !monster_on(self.monsters@, r as int, c as int),
            found == match first_living_at(self.monsters@, r as int, c as int) {
                Some(i) => Some(i as usize),
                None => None,
            },
    {
        let mut i: usize = 0;
        while i < self.monsters.len()
            invariant
                i <= self.monsters@.len(),
                forall|j: int|
                    0 <= j < i ==> !((#[trigger] self.monsters@[j]).alive && self.monsters@[j].pos_x
                        == r && self.monsters@[j].pos_y == c),
            decreases self.monsters@.len() - i,
        {
            let m: Monster = self.monsters[i];
            if m.alive && m.pos_x == r && m.pos_y == c {
                proof {
                    lemma_first_living_found(self.monsters@, i as int, r as int, c as int);
                }
                return Some(i);
            }
            i += 1;
        }
        proof {
            lemma_first_living_none(self.monsters@, r as int, c as int);
        }
        None
    }
}

/// What a step of `mover` to `(r, c)` makes of `before`: the outcome and
/// the entities are those of the step; the terrain stays; after an attack
/// or a move the occupancy field is rebuilt, and after a move of the
/// player the distance field too; a step that is blocked or cannot be
/// resolved changes nothing at all.
pub open spec fn stepped(
    before: Dungeon,
    after: Dungeon,
    mover: Mover,
    r: int,
    c: int,
    outcome: MoveOutcome,
) -> bool {
    &&& outcome == before.step_outcome(mover, r, c)
    &&& (after.monsters@, after.player) == before.step_entities(mover, r, c)
    &&& after.wf()
    &&& after.same_terrain(&before)
    &&& match outcome {
        MoveOutcome::Blocked | MoveOutcome::Unresolved => after == before,
        MoveOutcome::Attacked => after.occupancy_current() && after.distance_map@
            == before.distance_map@,
        MoveOutcome::Moved => after.occupancy_current() && match mover {
            Mover::Player => after.distance_current(),
            Mover::Monster(_) => after.distance_map@ == before.distance_map@,
        },
    }
}

/// After a step that was taken, the occupancy field marks exactly the
/// cells on which a living entity stands, and no others.
pub proof fn lemma_move_marks_the_living(
    before: Dungeon,
    after: Dungeon,
    mover: Mover,
    r: int,
    c: int,
)
    requires
        stepped(before, after, mover, r, c, MoveOutcome::Moved),
    ensures
        forall|r2: int, c2: int|
            after.in_grid(r2, c2) ==> (#[trigger] after.mon_map.at(r2, c2) <==> (player_on(
                after.player,
                r2,
                c2,
            ) || monster_on(after.monsters@, r2, c2))),
{
    assert forall|r2: int, c2: int| after.in_grid(r2, c2) implies (#[trigger] after.mon_map.at(
        r2,
        c2,
    ) <==> (player_on(after.player, r2, c2) || monster_on(after.monsters@, r2, c2))) by {
        assert(after.mon_map.at(r2, c2) == after.occupied(r2, c2));
        if after.monster_at(r2, c2) {
            let k = choose|k: int|
                0 <= k < after.monsters@.len() && k < after.monsters@.len() && (
                #[trigger] after.monsters@[k]).alive && after.monsters@[k].pos_x == r2
                    && after.monsters@[k].pos_y == c2;
            assert(after.monsters@[k].alive);
        }
        if monster_on(after.monsters@, r2, c2) {
            let k = choose|k: int|
                0 <= k < after.monsters@.len() && (#[trigger] after.monsters@[k]).alive
                    && after.monsters@[k].pos_x == r2 && after.monsters@[k].pos_y == c2;
            assert(after.monsters@[k].alive);
            assert(after.monster_at(r2, c2));
        }
    }
}

/// Steps `mover` to `(r, c)`: nothing happens if the cell cannot be
/// entered or the mover is dead; a living opponent on the cell is attacked
/// and the mover stays; otherwise the mover stands on the cell, and the
/// fields that depend on where entities stand are rebuilt.
pub fn step_to(d: &mut Dungeon, mover: Mover, r: usize, c: usize) -> (outcome: MoveOutcome)
    requires
        old(d).wf(),
        old(d).has_mover(mover),
    ensures
        stepped(*old(d), *final(d), mover, r as int, c as int, outcome),
{
    let alive: bool = match mover {
        Mover::Player => d.player.alive,
        Mover::Monster(i) => d.monsters[i].alive,
    };
    if !alive || r >= d.dungeon_x || c >= d.dungeon_y || d.hardness_map.get(r, c) >= BLOCKING {
        return MoveOutcome::Blocked;
    }
    match mover {
        Mover::Player => {
            match d.living_monster_at(r, c) {
                Some(i) => {
                    let mut target: Monster = d.monsters[i];
                    if exchange_is_representable(target.hp, d.player.attack, target.defence) {
                        target.resolve_attack(&d.player);
                        d.monsters.set(i, target);
                        monster_map(d);
                        MoveOutcome::Attacked
                    } else {
                        MoveOutcome::Unresolved
                    }
                },
                None => {
                    d.player.position_x = r;
                    d.player.position_y = c;
                    calculate_distance_map(d);
                    let ghost measured = *d;
                    monster_map(d);
                    proof {
                        assert forall|r2: int, c2: int|
                            d.in_grid(r2, c2) implies #[trigger] d.distance_map.at(r2, c2)
                            == d.distance_to_player(r2, c2) by {
                            assert(measured.distance_map.at(r2, c2) == measured.distance_to_player(
                                r2,
                                c2,
                            ));
                        }
                    }
                    MoveOutcome::Moved
                },
            }
        },
        Mover::Monster(i) => {
            let mut m: Monster = d.monsters[i];
            if d.player.alive && d.player.position_x == r && d.player.position_y == c {
                if exchange_is_representable(d.player.hp, m.attack, d.player.defence) {
                    d.player.resolve_attack(&m);
                    monster_map(d);
                    MoveOutcome::Attacked
                } else {
                    MoveOutcome::Unresolved
                }
            } else {
                m.pos_x = r;
                m.pos_y = c;
                d.monsters.set(i, m);
                monster_map(d);
                MoveOutcome::Moved
            }
        },
    }
}

/// An attempt of `mover` to step along `axis` in the sense `delta`.
///
/// A step against a wall, or out of the grid, changes nothing. A step
/// onto a living opponent becomes an attack on it, and the mover stays. Any
/// other step is taken.
pub fn attempt_move(d: &mut Dungeon, mover: Mover, axis: Axis, delta: Delta) -> (outcome:
    MoveOutcome)
    requires
        old(d).wf(),
        old(d).has_mover(mover),
    ensures
        ({
            let from = old(d).mover_cell(mover);
            let to = shifted(from.0, from.1, axis, delta);
            &&& stepped(*old(d), *final(d), mover, to.0, to.1, outcome)
            &&& !old(d).is_passable(to.0, to.1) ==> outcome == MoveOutcome::Blocked && *final(d)
                == *old(d)
        }),
{
    let (r, c) = match mover {
        Mover::Player => (d.player.position_x, d.player.position_y),
        Mover::Monster(i) => (d.monsters[i].pos_x, d.monsters[i].pos_y),
    };
    match destination(r, c, axis, delta) {
        Some((to_r, to_c)) => step_to(d, mover, to_r, to_c),
        None => MoveOutcome::Blocked,
    }
}

/// Monsters after the player has attacked towards `(r, c)`: the first
/// living monster on that cell has taken the attack, if there is one and
/// its hit points can be held; otherwise they are as they were.
pub open spec fn struck_at(monsters: Seq<Monster>, player: Player, r: int, c: int) -> Seq<Monster> {
    match first_living_at(monsters, r, c) {
        Some(i) => if player.alive && monsters[i].can_take(player.attack as int) {
            monsters.update(i, monsters[i].after_attack(player.attack as int))
        } else {
            monsters
        },
        None => monsters,
    }
}

/// Whether an attack of the player towards `(r, c)` finds a living
/// monster whose hit points after the exchange can be held.
pub open spec fn strikes(monsters: Seq<Monster>, player: Player, r: int, c: int) -> bool {
    player.alive && match first_living_at(monsters, r, c) {
        Some(i) => monsters[i].can_take(player.attack as int),
        None => false,
    }
}

/// The player attacks the cell next to it in the given direction: the
/// first living monster of the roster that stands there takes one attack.
/// Where none stands there, and where the player is dead, nothing happens.
pub fn attack(d: &mut Dungeon, direction: Direction) -> (struck: bool)
    requires
        old(d).wf(),
    ensures
        ({
            let to = shifted(
                old(d).player.position_x as int,
                old(d).player.position_y as int,
                direction.axis_of(),
                direction.delta_of(),
            );
            &&& struck == strikes(old(d).monsters@, old(d).player, to.0, to.1)
            &&& final(d).monsters@ == struck_at(old(d).monsters@, old(d).player, to.0, to.1)
            &&& struck ==> final(d).wf() && final(d).same_terrain(old(d)) && final(d).player == old(d).player && final(d).distance_map@ == old(d).distance_map@ && final(d).occupancy_current()
            &&& !struck ==> *final(d) == *old(d)
        }),
{
    if !d.player.alive {
        return false;
    }
    match destination(d.player.position_x, d.player.position_y, direction.axis(), direction.delta()) {
        Some((r, c)) => match d.living_monster_at(r, c) {
            Some(i) => {
                let mut target: Monster = d.monsters[i];
                if exchange_is_representable(target.hp, d.player.attack, target.defence) {
                    target.resolve_attack(&d.player);
                    d.monsters.set(i, target);
                    monster_map(d);
                    true
                } else {
                    false
                }
            },
            None => false,
        },
        None => {
            proof {
                let to = shifted(
                    d.player.position_x as int,
                    d.player.position_y as int,
                    direction.axis_of(),
                    direction.delta_of(),
                );
                assert forall|i: int| 0 <= i < d.monsters@.len() implies !((
                #[trigger] d.monsters@[i]).alive && d.monsters@[i].pos_x == to.0
                    && d.monsters@[i].pos_y == to.1) by {
                    assert(d.in_grid(d.monsters@[i].pos_x as int, d.monsters@[i].pos_y as int));
                }
                lemma_first_living_none(d.monsters@, to.0, to.1);
            }
            false
        },
    }
}

/// Whether the monster in slot `i` may choose `(r, c)`: one of the eight
/// cells around it that can be entered and on which no living monster
/// stands, unless the living player stands there too.
pub open spec fn open_to(
    h: Seq<Seq<u8>>,
    monsters: Seq<Monster>,
    player: Player,
    i: int,
    r: int,
    c: int,
) -> bool {
    &&& passable(h, r, c)
    &&& near((monsters[i].pos_x as int, monsters[i].pos_y as int), (r, c))
    &&& (!monster_on(monsters, r, c) || player_on(player, r, c))
}

/// Whether `(r, c)` is the cell that the monster in slot `i` chooses: it
/// may choose it, and prefers it, by the distance field `dist`, to every
/// other cell it may choose.
pub open spec fn is_choice(
    h: Seq<Seq<u8>>,
    dist: Seq<Seq<u16>>,
    monsters: Seq<Monster>,
    player: Player,
    i: int,
    r: int,
    c: int,
) -> bool {
    &&& open_to(h, monsters, player, i, r, c)
    &&& forall|r2: int, c2: int| #[trigger]
        open_to(h, monsters, player, i, r2, c2) ==> prefers(
            dist[r][c] as int,
            (r, c),
            dist[r2][c2] as int,
            (r2, c2),
        )
}

/// The cell that the monster in slot `i` chooses, if it may choose any.
pub open spec fn choice(
    h: Seq<Seq<u8>>,
    dist: Seq<Seq<u16>>,
    monsters: Seq<Monster>,
    player: Player,
    i: int,
) -> Option<(int, int)> {
    if exists|p: (int, int)| is_choice(h, dist, monsters, player, i, p.0, p.1) {
        Some(choose|p: (int, int)| is_choice(h, dist, monsters, player, i, p.0, p.1))
    } else {
        None
    }
}

/// Monsters and player after the monster in slot `i` has had its turn. A
/// dead monster does nothing, nor one that may choose no cell. Any other
/// steps to the cell it chooses: it attacks the living player if that is
/// where the player stands, and else moves there.
pub open spec fn monster_acts(
    h: Seq<Seq<u8>>,
    dist: Seq<Seq<u16>>,
    monsters: Seq<Monster>,
    player: Player,
    i: int,
) -> (Seq<Monster>, Player) {
    if !monsters[i].alive {
        (monsters, player)
    } else {
        match choice(h, dist, monsters, player, i) {
            Some(p) => monster_steps_to(monsters, player, i, p.0, p.1),
            None => (monsters, player),
        }
    }
}

/// Monsters and player after the monsters in the first `n` slots have had
/// their turns, one after the other in the order of the roster.
pub open spec fn monsters_act(
    h: Seq<Seq<u8>>,
    dist: Seq<Seq<u16>>,
    monsters: Seq<Monster>,
    player: Player,
    n: int,
) -> (Seq<Monster>, Player)
    decreases n,
{
    if n <= 0 {
        (monsters, player)
    } else {
        let before = monsters_act(h, dist, monsters, player, n - 1);
        monster_acts(h, dist, before.0, before.1, n - 1)
    }
}

/// The turn of the monsters leaves the player where the player stands,
/// and the roster as long as it is.
pub proof fn lemma_monsters_act_keeps_place(
    h: Seq<Seq<u8>>,
    dist: Seq<Seq<u16>>,
    monsters: Seq<Monster>,
    player: Player,
    n: int,
)
    requires
        n <= monsters.len(),
    ensures
        monsters_act(h, dist, monsters, player, n).0.len() == monsters.len(),
        monsters_act(h, dist, monsters, player, n).1.position_x == player.position_x,
        monsters_act(h, dist, monsters, player, n).1.position_y == player.position_y,
    decreases n,
{
    if n > 0 {
        lemma_monsters_act_keeps_place(h, dist, monsters, player, n - 1);
    }
}

/// The cell that is chosen is the only one.
pub proof fn lemma_choice_found(
    h: Seq<Seq<u8>>,
    dist: Seq<Seq<u16>>,
    monsters: Seq<Monster>,
    player: Player,
    i: int,
    p: (int, int),
)
    requires
        is_choice(h, dist, monsters, player, i, p.0, p.1),
    ensures
        choice(h, dist, monsters, player, i) == Some(p),
{
    let q = choose|q: (int, int)| is_choice(h, dist, monsters, player, i, q.0, q.1);
    assert(open_to(h, monsters, player, i, p.0, p.1));
    assert(open_to(h, monsters, player, i, q.0, q.1));
}

/// With a current occupancy field, the cells that a monster may choose by
/// the fields are those it may choose by where the entities stand.
pub proof fn lemma_eligible_is_open(d: Dungeon, i: int)
    requires
        d.wf(),
        d.occupancy_current(),
        0 <= i < d.monsters@.len(),
    ensures
        forall|r: int, c: int| #[trigger]
            d.eligible(i, r, c) <==> open_to(d.hardness_map@, d.monsters@, d.player, i, r, c),
        forall|r: int, c: int|
            d.is_best_step(i, r, c) ==> is_choice(
                d.hardness_map@,
                d.distance_map@,
                d.monsters@,
                d.player,
                i,
                r,
                c,
            ),
{
    d.lemma_passable_agrees();
    assert forall|r: int, c: int| #[trigger]
        d.eligible(i, r, c) <==> open_to(d.hardness_map@, d.monsters@, d.player, i, r, c) by {
        if d.in_grid(r, c) {
            assert(d.mon_map.at(r, c) == d.occupied(r, c));
            if d.monster_at(r, c) {
                let k = choose|k: int|
                    0 <= k < d.monsters@.len() && k < d.monsters@.len() && (
                    #[trigger] d.monsters@[k]).alive && d.monsters@[k].pos_x == r
                        && d.monsters@[k].pos_y == c;
                assert(d.monsters@[k].alive);
                assert(monster_on(d.monsters@, r, c));
            }
            if monster_on(d.monsters@, r, c) {
                let k = choose|k: int|
                    0 <= k < d.monsters@.len() && (#[trigger] d.monsters@[k]).alive
                        && d.monsters@[k].pos_x == r && d.monsters@[k].pos_y == c;
                assert(d.monsters@[k].alive);
                assert(d.monster_at(r, c));
            }
        }
    }
    assert forall|r: int, c: int| d.is_best_step(i, r, c) implies is_choice(
        d.hardness_map@,
        d.distance_map@,
        d.monsters@,
        d.player,
        i,
        r,
        c,
    ) by {
        assert(d.eligible(i, r, c));
        assert forall|r2: int, c2: int| #[trigger]
            open_to(d.hardness_map@, d.monsters@, d.player, i, r2, c2) implies prefers(
            d.distance_map@[r][c] as int,
            (r, c),
            d.distance_map@[r2][c2] as int,
            (r2, c2),
        ) by {
            assert(d.eligible(i, r2, c2));
        }
    }
}

/// What the turn of the monsters makes of `before`: monsters and player
/// are those after every monster has had its turn; terrain and distance
/// field stay; the occupancy field is rebuilt.
pub open spec fn monsters_took_turn(before: Dungeon, after: Dungeon) -> bool {
    &&& after.wf()
    &&& after.same_terrain(&before)
    &&& after.distance_map@ == before.distance_map@
    &&& (after.monsters@, after.player) == monsters_act(
        before.hardness_map@,
        before.distance_map@,
        before.monsters@,
        before.player,
        before.monsters@.len() as int,
    )
    &&& after.occupancy_current()
}

/// The turn of the monsters: each living monster, in the order of the
/// roster, steps to the cell around it that has the least value in the
/// distance field, among those that can be entered and hold no living
/// monster. A monster whose cell of choice holds the living player attacks
/// the player and stays. The occupancy is that of the moment at which each
/// monster chooses.
pub fn process_monster_moves_attack(d: &mut Dungeon)
    requires
        old(d).wf(),
    ensures
        monsters_took_turn(*old(d), *final(d)),
{
    let count: usize = d.monsters.len();
    let ghost h = d.hardness_map@;
    let ghost dist = d.distance_map@;
    let mut i: usize = 0;
    while i < count
        invariant
            i <= count,
            count == d.monsters@.len(),
            count == old(d).monsters@.len(),
            d.wf(),
            d.same_terrain(old(d)),
            d.distance_map@ == dist,
            d.hardness_map@ == h,
            h == old(d).hardness_map@,
            dist == old(d).distance_map@,
            (d.monsters@, d.player) == monsters_act(
                h,
                dist,
                old(d).monsters@,
                old(d).player,
                i as int,
            ),
        decreases count - i,
    {
        let ghost before = *d;
        if d.monsters[i].alive {
            monster_map(d);
            let ghost marked = *d;
            proof {
                lemma_eligible_is_open(marked, i as int);
            }
            match d.best_step(i) {
                Some(p) => {
                    proof {
                        lemma_choice_found(
                            h,
                            dist,
                            marked.monsters@,
                            marked.player,
                            i as int,
                            (p.0 as int, p.1 as int),
                        );
                    }
                    let outcome: MoveOutcome = step_to(d, Mover::Monster(i), p.0, p.1);
                    proof {
                        assert(marked.eligible(i as int, p.0 as int, p.1 as int));
                        assert(d.monsters@.len() == count);
                    }
                },
                None => {
                    proof {
                        assert forall|q: (int, int)|
                            !is_choice(
                                h,
                                dist,
                                marked.monsters@,
                                marked.player,
                                i as int,
                                q.0,
                                q.1,
                            ) by {
                            assert(!marked.eligible(i as int, q.0, q.1));
                        }
                    }
                },
            }
        }
        i += 1;
    }
    monster_map(d);
}

/// What one command of the player makes of `before`: the player's step
/// is attempted; if the player moved, the monsters have their turn, with
/// the distance field of the player's new cell.
pub open spec fn turn_taken(
    before: Dungeon,
    after: Dungeon,
    direction: Direction,
    outcome: MoveOutcome,
) -> bool {
    let to = shifted(
        before.player.position_x as int,
        before.player.position_y as int,
        direction.axis_of(),
        direction.delta_of(),
    );
    exists|mid: Dungeon|
        #![trigger stepped(before, mid, Mover::Player, to.0, to.1, outcome)]
        stepped(before, mid, Mover::Player, to.0, to.1, outcome) && if outcome
            == MoveOutcome::Moved {
            monsters_took_turn(mid, after)
        } else {
            after == mid
        }
}

/// One command of the player to move: the step is attempted, and after a
/// step that was taken the monsters have their turn.
pub fn player_turn(d: &mut Dungeon, direction: Direction) -> (outcome: MoveOutcome)
    requires
        old(d).wf(),
    ensures
        turn_taken(*old(d), *final(d), direction, outcome),
        final(d).wf(),
        final(d).same_terrain(old(d)),
        outcome == MoveOutcome::Moved ==> final(d).occupancy_current() && final(d).distance_current(),
        outcome == MoveOutcome::Blocked ==> *final(d) == *old(d),
{
    let outcome: MoveOutcome = attempt_move(d, Mover::Player, direction.axis(), direction.delta());
    let ghost mid = *d;
    match outcome {
        MoveOutcome::Moved => {
            process_monster_moves_attack(d);
            proof {
                lemma_monsters_act_keeps_place(
                    mid.hardness_map@,
                    mid.distance_map@,
                    mid.monsters@,
                    mid.player,
                    mid.monsters@.len() as int,
                );
                assert forall|r: int, c: int| d.in_grid(r, c) implies #[trigger] d.distance_map.at(
                    r,
                    c,
                ) == d.distance_to_player(r, c) by {
                    assert(mid.distance_map.at(r, c) == mid.distance_to_player(r, c));
                }
            }
        },
        _ => {},
    }
    outcome
}

} // verus!
