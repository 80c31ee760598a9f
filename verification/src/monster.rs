//! A monster of the roster.

use crate::combat::{apply_exchange, exchange_fits, hp_after_attack, Tint};
use crate::player::Player;
use vstd::prelude::*;

verus! {

/// One slot of the monster roster. A dead monster keeps its slot and its
/// last position; it is skipped by occupancy, movement and targeting.
#[derive(Clone, Copy, Debug, PartialEq, Eq, Structural)]
pub struct Monster {
    pub character: char,
    pub pos_x: usize,
    pub pos_y: usize,
    pub hp: i32,
    pub max_hp: i32,
    pub attack: i32,
    pub defence: i32,
    pub alive: bool,
    pub color: Tint,
}

impl Monster {
    /// A monster as the game starts, standing on `(x, y)`.
    pub open spec fn fresh(x: usize, y: usize) -> Monster {
        Monster {
            character: 'g',
            pos_x: x,
            pos_y: y,
            hp: 10,
            max_hp: 10,
            attack: 3,
            defence: 1,
            alive: true,
            color: Tint::Green,
        }
    }

    /// Makes a monster as the game starts, standing on `(x, y)`.
    pub fn new(x: usize, y: usize) -> (m: Monster)
        ensures
            m == Monster::fresh(x, y),
    {
        Monster {
            character: 'g',
            pos_x: x,
            pos_y: y,
            hp: 10,
            max_hp: 10,
            attack: 3,
            defence: 1,
            alive: true,
            color: Tint::Green,
        }
    }

    /// The monster after it has been attacked with `attack`: its hit points
    /// are those after the exchange, and it stays alive only if it was alive
    /// and has hit points left.
    pub open spec fn after_attack(self, attack: int) -> Monster {
        let hp = hp_after_attack(self.hp as int, attack, self.defence as int);
        Monster { hp: hp as i32, alive: self.alive && hp > 0, ..self }
    }

    /// Whether an attack of the given strength can be resolved on this monster.
    pub open spec fn can_take(self, attack: int) -> bool {
        exchange_fits(self.hp as int, attack, self.defence as int)
    }

    /// Two attacks of the same strength take off exactly twice the damage
    /// of one: nothing heals or regenerates between them.
    pub proof fn lemma_attacked_twice(self, attack: int)
        requires
            self.can_take(attack),
            self.after_attack(attack).can_take(attack),
        ensures
            self.after_attack(attack).after_attack(attack).hp == self.hp - 2 * (attack
                - self.defence),
            self.after_attack(attack).defence == self.defence,
    {
    }

    /// After an attack on a living monster, the monster is alive exactly
    /// if it has hit points left.
    pub proof fn lemma_alive_means_hp(self, attack: int)
        requires
            self.alive,
            self.can_take(attack),
        ensures
            self.after_attack(attack).alive == (self.after_attack(attack).hp > 0),
    {
    }

    /// Hit points that are left after an attack by the player.
    pub fn process_combat(self, player_attack: i32) -> (hp_after: i32)
        requires
            self.can_take(player_attack as int),
        ensures
            hp_after == hp_after_attack(self.hp as int, player_attack as int, self.defence as int),
    {
        apply_exchange(self.hp, player_attack, self.defence)
    }

    /// Resolves one attack of `attacker` on this monster.
    pub fn resolve_attack(&mut self, attacker: &Player)
        requires
            old(self).can_take(attacker.attack as int),
        ensures
            *final(self) == old(self).after_attack(attacker.attack as int),
            final(self).hp == old(self).hp - (attacker.attack - old(self).defence),
            old(self).alive ==> final(self).alive == (final(self).hp > 0),
    {
        let hp_after: i32 = self.process_combat(attacker.attack);
        self.hp = hp_after;
        if hp_after <= 0 {
            self.alive = false;
        }
    }
}

} // verus!
