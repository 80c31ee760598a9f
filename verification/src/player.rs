//! The player.

use crate::combat::{apply_exchange, exchange_fits, hp_after_attack, Tint};
use crate::monster::Monster;
use vstd::prelude::*;

verus! {

/// The one player of a dungeon.
#[derive(Clone, Copy, Debug, PartialEq, Eq, Structural)]
pub struct Player {
    pub character: char,
    pub position_x: usize,
    pub position_y: usize,
    pub hp: i32,
    pub max_hp: i32,
    pub attack: i32,
    pub defence: i32,
    pub alive: bool,
    pub color: Tint,
}

impl Player {
    /// The player as the game starts, standing on `(x, y)`.
    pub open spec fn fresh(x: usize, y: usize) -> Player {
        Player {
            character: '@',
            position_x: x,
            position_y: y,
            hp: 20,
            max_hp: 20,
            attack: 4,
            defence: 1,
            alive: true,
            color: Tint::Red,
        }
    }

    /// Makes the player as the game starts, standing on `(x, y)`.
    pub fn new(x: usize, y: usize) -> (p: Player)
        ensures
            p == Player::fresh(x, y),
    {
        Player {
            character: '@',
            position_x: x,
            position_y: y,
            hp: 20,
            max_hp: 20,
            attack: 4,
            defence: 1,
            alive: true,
            color: Tint::Red,
        }
    }

    /// The player after having been attacked with `attack`: the hit points
    /// are those after the exchange, and the player stays alive only if alive
    /// before and with hit points left.
    pub open spec fn after_attack(self, attack: int) -> Player {
        let hp = hp_after_attack(self.hp as int, attack, self.defence as int);
        Player { hp: hp as i32, alive: self.alive && hp > 0, ..self }
    }

    /// Whether an attack of the given strength can be resolved on the player.
    pub open spec fn can_take(self, attack: int) -> bool {
        exchange_fits(self.hp as int, attack, self.defence as int)
    }

    /// Two attacks of the same strength take off exactly twice the damage
    /// of one: nothing heals or regenerates between them.
    pub proof fn lemma_attacked_twice(self, attack: int)
        requires
            self.can_take(attack),
            self.after_attack(attack).can_take(attack),
        ensures
            self.after_attack(attack).after_attack(attack).hp == self.hp - 2 * (attack
                - self.defence),
            self.after_attack(attack).defence == self.defence,
    {
    }

    /// After an attack on the living player, the player is alive exactly
    /// if hit points are left.
    pub proof fn lemma_alive_means_hp(self, attack: int)
        requires
            self.alive,
            self.can_take(attack),
        ensures
            self.after_attack(attack).alive == (self.after_attack(attack).hp > 0),
    {
    }

    /// Hit points that are left after an attack by a monster.
    pub fn process_combat(self, mon_attack: i32) -> (hp_after: i32)
        requires
            self.can_take(mon_attack as int),
        ensures
            hp_after == hp_after_attack(self.hp as int, mon_attack as int, self.defence as int),
    {
        apply_exchange(self.hp, mon_attack, self.defence)
    }

    /// Resolves one attack of `attacker` on the player.
    pub fn resolve_attack(&mut self, attacker: &Monster)
        requires
            old(self).can_take(attacker.attack as int),
        ensures
            *final(self) == old(self).after_attack(attacker.attack as int),
            final(self).hp == old(self).hp - (attacker.attack - old(self).defence),
            old(self).alive ==> final(self).alive == (final(self).hp > 0),
    {
        let hp_after: i32 = self.process_combat(attacker.attack);
        self.hp = hp_after;
        if hp_after <= 0 {
            self.alive = false;
        }
    }
}

} // verus!
