//! The arithmetic of one attacker-to-defender exchange.

use vstd::prelude::*;

verus! {

/// How an entity is tinted when it is drawn. The simulation never reads it.
#[derive(Clone, Copy, Debug, PartialEq, Eq, Structural)]
pub enum Tint {
    Black,
    White,
    Red,
    Green,
    Yellow,
}

/// Hit points of a defender after one exchange: the attack, less the
/// defence, is taken off. Nothing is clamped: a defence above the attack
/// raises the hit points, and the result may be zero or negative.
pub open spec fn hp_after_attack(hp: int, attack: int, defence: int) -> int {
    hp - (attack - defence)
}

/// Whether the hit points after an exchange can be held in an `i32`.
pub open spec fn exchange_fits(hp: int, attack: int, defence: int) -> bool {
    i32::MIN <= hp_after_attack(hp, attack, defence) <= i32::MAX
}

/// Decides whether an exchange can be resolved without leaving `i32`.
pub fn exchange_is_representable(hp: i32, attack: i32, defence: i32) -> (fits: bool)
    ensures
        fits == exchange_fits(hp as int, attack as int, defence as int),
{
    let raw: i64 = (hp as i64) - ((attack as i64) - (defence as i64));
    -2147483648 <= raw && raw <= 2147483647
}

/// Hit points after one exchange.
pub fn apply_exchange(hp: i32, attack: i32, defence: i32) -> (hp_after: i32)
    requires
        exchange_fits(hp as int, attack as int, defence as int),
    ensures
        hp_after == hp_after_attack(hp as int, attack as int, defence as int),
{
    let raw: i64 = (hp as i64) - ((attack as i64) - (defence as i64));
    raw as i32
}

/// Two exchanges with the same attack and defence take off exactly twice
/// the damage of one: nothing heals or regenerates between them.
pub proof fn lemma_two_exchanges(hp: int, attack: int, defence: int)
    ensures
        hp_after_attack(hp_after_attack(hp, attack, defence), attack, defence) == hp - 2 * (attack
            - defence),
{
}

/// With a defence above the attack the exchange adds the difference to the
/// defender's hit points.
pub proof fn lemma_negative_damage_heals(hp: int, attack: int, defence: int)
    requires
        defence >= attack,
    ensures
        hp_after_attack(hp, attack, defence) == hp + (defence - attack),
        hp_after_attack(hp, attack, defence) >= hp,
{
}

} // verus!
