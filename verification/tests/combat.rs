use dungeon::combat::{apply_exchange, exchange_is_representable};
use dungeon::{Monster, Player, Tint};

fn monster_with(hp: i32, attack: i32, defence: i32) -> Monster {
    let mut m = Monster::new(3, 4);
    m.hp = hp;
    m.attack = attack;
    m.defence = defence;
    m
}

fn player_with(hp: i32, attack: i32, defence: i32) -> Player {
    let mut p = Player::new(3, 5);
    p.hp = hp;
    p.attack = attack;
    p.defence = defence;
    p
}

#[test]
fn fresh_entities_start_alive_at_full_health() {
    let p = Player::new(2, 9);
    assert_eq!((p.position_x, p.position_y), (2, 9));
    assert_eq!((p.hp, p.max_hp, p.attack, p.defence), (20, 20, 4, 1));
    assert!(p.alive);
    assert_eq!(p.character, '@');
    assert_eq!(p.color, Tint::Red);
    let m = Monster::new(7, 1);
    assert_eq!((m.pos_x, m.pos_y), (7, 1));
    assert_eq!((m.hp, m.max_hp, m.attack, m.defence), (10, 10, 3, 1));
    assert!(m.alive);
    assert_eq!(m.character, 'g');
    assert_eq!(m.color, Tint::Green);
}

#[test]
fn damage_is_attack_less_defence() {
    assert_eq!(apply_exchange(10, 4, 1), 7);
    assert_eq!(apply_exchange(10, 3, 5), 12);
    assert_eq!(apply_exchange(2, 9, 0), -7);
    assert_eq!(apply_exchange(-3, 1, 1), -3);
    assert_eq!(monster_with(10, 0, 1).process_combat(4), 7);
    assert_eq!(player_with(20, 0, 1).process_combat(3), 18);
}

#[test]
fn defence_above_attack_heals_by_the_difference() {
    let mut defender = monster_with(7, 0, 5);
    let attacker = player_with(20, 3, 0);
    assert_eq!(defender.process_combat(attacker.attack), 9);
    defender.resolve_attack(&attacker);
    assert_eq!(defender.hp, 9);
    assert!(defender.alive);

    let mut defender = player_with(7, 0, 5);
    let attacker = monster_with(10, 3, 0);
    defender.resolve_attack(&attacker);
    assert_eq!(defender.hp, 9);
    assert!(defender.alive);
}

#[test]
fn negative_damage_cannot_save_a_defender_at_minus_two() {
    let attacker = player_with(20, 3, 0);
    let mut at_minus_two = monster_with(-2, 0, 5);
    at_minus_two.resolve_attack(&attacker);
    assert_eq!(at_minus_two.hp, 0);
    assert!(!at_minus_two.alive);

    let mut at_minus_one = monster_with(-1, 0, 5);
    at_minus_one.resolve_attack(&attacker);
    assert_eq!(at_minus_one.hp, 1);
    assert!(at_minus_one.alive);
}

#[test]
fn two_attacks_take_twice_the_damage() {
    let attacker = player_with(20, 6, 0);
    let mut defender = monster_with(50, 0, 2);
    defender.resolve_attack(&attacker);
    defender.resolve_attack(&attacker);
    assert_eq!(defender.hp, 50 - 2 * (6 - 2));
    assert_eq!(defender.max_hp, 10);
    assert_eq!(defender.defence, 2);

    let attacker = monster_with(10, 7, 0);
    let mut defender = player_with(30, 0, 3);
    defender.resolve_attack(&attacker);
    defender.resolve_attack(&attacker);
    assert_eq!(defender.hp, 30 - 2 * (7 - 3));
}

#[test]
fn lethal_attack_keeps_the_negative_hit_points() {
    let attacker = player_with(20, 9, 0);
    let mut defender = monster_with(4, 0, 1);
    defender.resolve_attack(&attacker);
    assert_eq!(defender.hp, -4);
    assert!(!defender.alive);
    assert_eq!((defender.pos_x, defender.pos_y), (3, 4));
}

#[test]
fn attack_that_leaves_exactly_zero_kills() {
    let attacker = monster_with(10, 5, 0);
    let mut defender = player_with(4, 0, 1);
    defender.resolve_attack(&attacker);
    assert_eq!(defender.hp, 0);
    assert!(!defender.alive);
}

#[test]
fn the_dead_stay_dead_when_hit_points_rise() {
    let attacker = player_with(20, 0, 0);
    let mut defender = monster_with(-5, 0, 9);
    defender.alive = false;
    defender.resolve_attack(&attacker);
    assert_eq!(defender.hp, 4);
    assert!(!defender.alive);
}

#[test]
fn representable_exchanges_are_told_from_the_others() {
    assert!(exchange_is_representable(10, 4, 1));
    assert!(exchange_is_representable(i32::MIN, 0, 0));
    assert!(exchange_is_representable(i32::MAX, 0, 0));
    assert!(exchange_is_representable(i32::MIN + 3, 4, 1));
    assert!(!exchange_is_representable(i32::MIN + 2, 4, 1));
    assert!(!exchange_is_representable(i32::MAX, 1, 2));
    assert!(exchange_is_representable(0, i32::MAX, i32::MAX));
    assert!(exchange_is_representable(-1, i32::MIN, 0));
    assert!(!exchange_is_representable(0, i32::MIN, 0));
    assert_eq!(apply_exchange(-1, i32::MIN, 0), i32::MAX);
}
