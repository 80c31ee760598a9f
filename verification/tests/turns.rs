use dungeon::dungeon::UNREACHABLE;
use dungeon::generate::{add_room, try_place_monster, try_place_player};
use dungeon::moves::destination;
use dungeon::turn::step_to;
use dungeon::{
    attack, attempt_move, calculate_distance_map, monster_map, player_turn,
    process_monster_moves_attack, Axis, Delta, Direction, Dungeon, MoveOutcome, Mover,
};

/// A room of five by five cells, walled in, with the player in its centre.
fn hall() -> Dungeon {
    let mut d = Dungeon::blank(7, 7);
    add_room(1, 1, 5, 5, &mut d);
    assert!(try_place_player(&mut d, 3, 3));
    calculate_distance_map(&mut d);
    monster_map(&mut d);
    d
}

fn hall_with_monsters(cells: &[(usize, usize)]) -> Dungeon {
    let mut d = hall();
    for &(r, c) in cells {
        assert!(try_place_monster(&mut d, r, c));
    }
    monster_map(&mut d);
    d
}

fn marked_cells(d: &Dungeon) -> Vec<(usize, usize)> {
    let mut cells = Vec::new();
    for r in 0..d.dungeon_x {
        for c in 0..d.dungeon_y {
            if d.mon_map.get(r, c) {
                cells.push((r, c));
            }
        }
    }
    cells
}

fn living_cells(d: &Dungeon) -> Vec<(usize, usize)> {
    let mut cells = Vec::new();
    if d.player.alive {
        cells.push((d.player.position_x, d.player.position_y));
    }
    for m in &d.monsters {
        if m.alive {
            cells.push((m.pos_x, m.pos_y));
        }
    }
    cells.sort();
    cells.dedup();
    cells
}

fn manhattan_everywhere(d: &Dungeon) -> bool {
    for r in 0..d.dungeon_x {
        for c in 0..d.dungeon_y {
            let expected = if d.hardness_map.get(r, c) >= 2 {
                UNREACHABLE
            } else {
                (r.abs_diff(d.player.position_x) + c.abs_diff(d.player.position_y)) as u16
            };
            if d.distance_map.get(r, c) != expected {
                return false;
            }
        }
    }
    true
}

#[test]
fn player_moves_in_each_of_the_four_directions() {
    let steps = [
        (Axis::Row, Delta::Minus, (1, 2)),
        (Axis::Row, Delta::Plus, (3, 2)),
        (Axis::Col, Delta::Minus, (2, 1)),
        (Axis::Col, Delta::Plus, (2, 3)),
    ];
    for (axis, delta, to) in steps {
        let mut d = Dungeon::blank(5, 5);
        add_room(1, 1, 3, 3, &mut d);
        assert!(try_place_player(&mut d, 2, 2));
        calculate_distance_map(&mut d);
        assert_eq!(attempt_move(&mut d, Mover::Player, axis, delta), MoveOutcome::Moved);
        assert_eq!((d.player.position_x, d.player.position_y), to);
        assert_eq!(d.distance_map.get(to.0, to.1), 0);
        assert_eq!(d.distance_map.get(2, 2), 1);
        assert!(manhattan_everywhere(&d));
        assert_eq!(marked_cells(&d), vec![to]);
    }
}

#[test]
fn step_against_a_wall_changes_nothing() {
    let mut d = Dungeon::blank(5, 5);
    add_room(1, 1, 3, 3, &mut d);
    assert!(try_place_player(&mut d, 1, 1));
    calculate_distance_map(&mut d);
    monster_map(&mut d);
    let before = d.clone();
    assert_eq!(attempt_move(&mut d, Mover::Player, Axis::Row, Delta::Minus), MoveOutcome::Blocked);
    assert_eq!(attempt_move(&mut d, Mover::Player, Axis::Col, Delta::Minus), MoveOutcome::Blocked);
    assert_eq!((d.player.position_x, d.player.position_y), (1, 1));
    assert_eq!(d.player.hp, 20);
    assert_eq!(d, before);
    assert_eq!(player_turn(&mut d, Direction::Up), MoveOutcome::Blocked);
    assert_eq!(d, before);
}

#[test]
fn step_off_the_grid_changes_nothing() {
    let mut d = Dungeon::blank(3, 3);
    add_room(0, 0, 3, 3, &mut d);
    calculate_distance_map(&mut d);
    monster_map(&mut d);
    let before = d.clone();
    assert_eq!((d.player.position_x, d.player.position_y), (0, 0));
    assert_eq!(attempt_move(&mut d, Mover::Player, Axis::Row, Delta::Minus), MoveOutcome::Blocked);
    assert_eq!(attempt_move(&mut d, Mover::Player, Axis::Col, Delta::Minus), MoveOutcome::Blocked);
    assert_eq!(d, before);
    assert_eq!(step_to(&mut d, Mover::Player, 3, 0), MoveOutcome::Blocked);
    assert_eq!(step_to(&mut d, Mover::Player, 1, 3), MoveOutcome::Blocked);
    assert_eq!(d, before);
}

#[test]
fn move_character_reads_terrain_and_occupancy() {
    let mut d = hall_with_monsters(&[(3, 4)]);
    assert!(d.move_character('x', 1000));
    assert!(!d.move_character('x', 1));
    assert!(d.move_character('y', 1000));
    assert!(d.move_character('y', 1));
    assert!(d.move_character('q', 7));
    d.hardness_map.set(2, 3, 2);
    assert!(!d.move_character('y', 1000));
    d.hardness_map.set(2, 3, 1);
    assert!(d.move_character('y', 1000));
    // The field is read as it stands, not the roster.
    d.monsters[0].alive = false;
    assert!(!d.move_character('x', 1));
    monster_map(&mut d);
    assert!(d.move_character('x', 1));
}

#[test]
fn move_character_refuses_the_edge_of_the_grid() {
    let mut d = Dungeon::blank(3, 3);
    add_room(0, 0, 3, 3, &mut d);
    assert!(!d.move_character('x', 1000));
    assert!(!d.move_character('y', 1000));
    assert!(d.move_character('x', 1));
    d.player.position_x = 2;
    d.player.position_y = 2;
    assert!(!d.move_character('x', 1));
    assert!(!d.move_character('y', 1));
}

#[test]
fn step_onto_a_monster_is_an_attack() {
    let mut d = hall_with_monsters(&[(3, 4)]);
    let distances = d.distance_map.clone();
    assert_eq!(attempt_move(&mut d, Mover::Player, Axis::Col, Delta::Plus), MoveOutcome::Attacked);
    assert_eq!((d.player.position_x, d.player.position_y), (3, 3));
    assert_eq!(d.monsters[0].hp, 10 - (4 - 1));
    assert!(d.monsters[0].alive);
    assert_eq!(d.player.hp, 20);
    assert_eq!(d.distance_map, distances);
    assert_eq!(marked_cells(&d), vec![(3, 3), (3, 4)]);
}

#[test]
fn attack_hits_the_first_living_monster_on_the_cell() {
    let mut d = hall_with_monsters(&[(2, 3), (2, 3), (2, 3)]);
    d.monsters[0].alive = false;
    assert!(attack(&mut d, Direction::Up));
    assert_eq!(d.monsters[0].hp, 10);
    assert_eq!(d.monsters[1].hp, 7);
    assert_eq!(d.monsters[2].hp, 10);
}

#[test]
fn attack_without_a_target_does_nothing() {
    let mut d = hall_with_monsters(&[(2, 3)]);
    let before = d.clone();
    assert!(!attack(&mut d, Direction::Down));
    assert!(!attack(&mut d, Direction::Left));
    assert!(!attack(&mut d, Direction::Right));
    assert_eq!(d, before);
    d.monsters[0].alive = false;
    let before = d.clone();
    assert!(!attack(&mut d, Direction::Up));
    assert_eq!(d, before);
}

#[test]
fn attack_in_each_direction_finds_its_cell() {
    for (direction, cell) in [
        (Direction::Up, (2, 3)),
        (Direction::Down, (4, 3)),
        (Direction::Left, (3, 2)),
        (Direction::Right, (3, 4)),
    ] {
        let mut d = hall_with_monsters(&[cell]);
        assert!(attack(&mut d, direction));
        assert_eq!(d.monsters[0].hp, 7);
    }
}

#[test]
fn dead_player_neither_attacks_nor_moves() {
    let mut d = hall_with_monsters(&[(2, 3)]);
    d.player.alive = false;
    monster_map(&mut d);
    let before = d.clone();
    assert!(!attack(&mut d, Direction::Up));
    assert_eq!(attempt_move(&mut d, Mover::Player, Axis::Row, Delta::Plus), MoveOutcome::Blocked);
    assert_eq!(d, before);
}

#[test]
fn monster_dies_at_zero_and_leaves_its_cell_free() {
    let mut d = hall_with_monsters(&[(3, 4)]);
    for expected in [7, 4, 1] {
        assert!(attack(&mut d, Direction::Right));
        assert_eq!(d.monsters[0].hp, expected);
        assert!(d.monsters[0].alive);
    }
    assert!(attack(&mut d, Direction::Right));
    assert_eq!(d.monsters[0].hp, -2);
    assert!(!d.monsters[0].alive);
    assert_eq!(d.monsters.len(), 1);
    assert_eq!(marked_cells(&d), vec![(3, 3)]);
    assert!(!attack(&mut d, Direction::Right));
    assert_eq!(d.monsters[0].hp, -2);
    assert_eq!(attempt_move(&mut d, Mover::Player, Axis::Col, Delta::Plus), MoveOutcome::Moved);
    assert_eq!((d.player.position_x, d.player.position_y), (3, 4));
    assert_eq!((d.monsters[0].pos_x, d.monsters[0].pos_y), (3, 4));
    assert_eq!(marked_cells(&d), vec![(3, 4)]);
}

#[test]
fn exchange_that_cannot_be_held_is_left_out() {
    let mut d = hall_with_monsters(&[(3, 4)]);
    d.monsters[0].hp = i32::MIN + 2;
    let before = d.clone();
    assert_eq!(
        attempt_move(&mut d, Mover::Player, Axis::Col, Delta::Plus),
        MoveOutcome::Unresolved
    );
    assert_eq!(d, before);
    assert!(!attack(&mut d, Direction::Right));
    assert_eq!(d, before);
    d.monsters[0].hp = i32::MIN + 3;
    assert!(attack(&mut d, Direction::Right));
    assert_eq!(d.monsters[0].hp, i32::MIN);
    assert!(!d.monsters[0].alive);
}

#[test]
fn monster_steps_along_an_axis_like_the_player() {
    let mut d = hall_with_monsters(&[(1, 1)]);
    let distances = d.distance_map.clone();
    assert_eq!(
        attempt_move(&mut d, Mover::Monster(0), Axis::Row, Delta::Minus),
        MoveOutcome::Blocked
    );
    assert_eq!(attempt_move(&mut d, Mover::Monster(0), Axis::Col, Delta::Plus), MoveOutcome::Moved);
    assert_eq!((d.monsters[0].pos_x, d.monsters[0].pos_y), (1, 2));
    assert_eq!(marked_cells(&d), vec![(1, 2), (3, 3)]);
    assert_eq!(d.distance_map, distances);
}

#[test]
fn monster_that_steps_onto_the_player_attacks() {
    let mut d = hall_with_monsters(&[(3, 2)]);
    assert_eq!(
        attempt_move(&mut d, Mover::Monster(0), Axis::Col, Delta::Plus),
        MoveOutcome::Attacked
    );
    assert_eq!((d.monsters[0].pos_x, d.monsters[0].pos_y), (3, 2));
    assert_eq!(d.player.hp, 20 - (3 - 1));
    assert!(d.player.alive);
    d.monsters[0].alive = false;
    let before = d.clone();
    assert_eq!(
        attempt_move(&mut d, Mover::Monster(0), Axis::Col, Delta::Plus),
        MoveOutcome::Blocked
    );
    assert_eq!(d, before);
}

#[test]
fn monster_chooses_the_least_distance_around_it() {
    let d = hall_with_monsters(&[(1, 1), (3, 1), (5, 4)]);
    assert_eq!(d.best_step(0), Some((2, 2)));
    assert_eq!(d.determine_monster_move(0), (2, 2));
    assert_eq!(d.best_step(1), Some((3, 2)));
    assert_eq!(d.best_step(2), Some((4, 3)));
    assert_eq!(d.determine_monster_move(2), (4, 3));
}

#[test]
fn monster_breaks_ties_row_by_row() {
    // The cell straight towards the player is taken; the two diagonal
    // cells are equally far.
    let d = hall_with_monsters(&[(1, 3), (2, 3)]);
    assert_eq!(d.distance_map.get(2, 2), d.distance_map.get(2, 4));
    assert_eq!(d.best_step(0), Some((2, 2)));
    // Same row: the left cell comes first.
    let mut d = hall_with_monsters(&[(3, 1), (3, 2), (2, 2), (4, 2)]);
    d.player.position_x = 3;
    d.player.position_y = 5;
    calculate_distance_map(&mut d);
    monster_map(&mut d);
    assert_eq!(d.distance_map.get(2, 1), d.distance_map.get(4, 1));
    assert_eq!(d.best_step(0), Some((2, 1)));
}

#[test]
fn monster_next_to_the_player_chooses_the_player() {
    let d = hall_with_monsters(&[(2, 2), (4, 3)]);
    assert_eq!(d.best_step(0), Some((3, 3)));
    assert_eq!(d.best_step(1), Some((3, 3)));
}

#[test]
fn monster_move_is_never_onto_a_marked_cell() {
    // Next to the player the move goes to the best cell that is free:
    // the first, row by row, of those at distance one.
    let d = hall_with_monsters(&[(2, 2), (4, 3)]);
    assert_eq!(d.determine_monster_move(0), (2, 3));
    assert_eq!(d.determine_monster_move(1), (3, 2));
    assert_eq!(d.choose_step(0, false), Some((2, 3)));
    assert_eq!(d.choose_step(0, true), Some((3, 3)));
    // Another monster on the best cell leaves the next best.
    let d = hall_with_monsters(&[(2, 2), (2, 3)]);
    assert_eq!(d.determine_monster_move(0), (3, 2));
    // A stale mark counts as it stands.
    let mut d = hall_with_monsters(&[(1, 1)]);
    assert_eq!(d.determine_monster_move(0), (2, 2));
    d.mon_map.set(2, 2, true);
    assert_eq!(d.determine_monster_move(0), (1, 2));
}

#[test]
fn monster_without_a_free_neighbour_stays_where_it_is() {
    // In the corner of the room, behind three others.
    let d = hall_with_monsters(&[(1, 1), (1, 2), (2, 1), (2, 2)]);
    assert_eq!(d.determine_monster_move(0), (1, 1));
    assert_eq!(d.best_step(0), None);
    assert_eq!(d.determine_monster_move(3), (2, 3));
    // Between walls and the player: the turn is an attack, the move is none.
    let mut d = Dungeon::blank(3, 4);
    add_room(1, 1, 1, 2, &mut d);
    assert!(try_place_player(&mut d, 1, 2));
    assert!(try_place_monster(&mut d, 1, 1));
    calculate_distance_map(&mut d);
    monster_map(&mut d);
    assert_eq!(d.determine_monster_move(0), (1, 1));
    assert_eq!(d.best_step(0), Some((1, 2)));
}

#[test]
fn monster_never_chooses_its_own_cell_or_a_wall() {
    let mut d = Dungeon::blank(3, 3);
    add_room(1, 1, 1, 1, &mut d);
    assert!(try_place_monster(&mut d, 1, 1));
    calculate_distance_map(&mut d);
    monster_map(&mut d);
    assert_eq!(d.best_step(0), None);
    assert_eq!(d.determine_monster_move(0), (1, 1));
    // With the mark on its own cell gone, the cell is still no choice.
    d.mon_map.set(1, 1, false);
    assert_eq!(d.best_step(0), None);
    assert_eq!(d.choose_step(0, false), None);
    assert_eq!(d.determine_monster_move(0), (1, 1));
}

#[test]
fn monster_in_the_corner_of_the_grid_looks_at_what_is_there() {
    let mut d = Dungeon::blank(3, 3);
    add_room(0, 0, 3, 3, &mut d);
    d.player.position_x = 2;
    d.player.position_y = 2;
    assert!(try_place_monster(&mut d, 0, 0));
    assert!(try_place_monster(&mut d, 2, 0));
    calculate_distance_map(&mut d);
    monster_map(&mut d);
    assert_eq!(d.best_step(0), Some((1, 1)));
    assert_eq!(d.best_step(1), Some((2, 1)));
}

#[test]
fn monsters_close_in_and_then_attack() {
    let mut d = hall_with_monsters(&[(1, 1)]);
    process_monster_moves_attack(&mut d);
    assert_eq!((d.monsters[0].pos_x, d.monsters[0].pos_y), (2, 2));
    assert_eq!(d.player.hp, 20);
    assert_eq!(marked_cells(&d), vec![(2, 2), (3, 3)]);
    process_monster_moves_attack(&mut d);
    assert_eq!((d.monsters[0].pos_x, d.monsters[0].pos_y), (2, 2));
    assert_eq!(d.player.hp, 18);
    process_monster_moves_attack(&mut d);
    assert_eq!(d.player.hp, 16);
    assert_eq!((d.player.position_x, d.player.position_y), (3, 3));
}

#[test]
fn monsters_act_one_after_the_other() {
    // The second monster finds the cell of the first already taken.
    let mut d = hall_with_monsters(&[(1, 2), (1, 3), (5, 5)]);
    d.monsters[2].alive = false;
    monster_map(&mut d);
    process_monster_moves_attack(&mut d);
    assert_eq!((d.monsters[0].pos_x, d.monsters[0].pos_y), (2, 3));
    assert_eq!((d.monsters[1].pos_x, d.monsters[1].pos_y), (2, 2));
    assert_eq!((d.monsters[2].pos_x, d.monsters[2].pos_y), (5, 5));
    assert_eq!(marked_cells(&d), vec![(2, 2), (2, 3), (3, 3)]);
    assert_eq!(marked_cells(&d), living_cells(&d));
}

#[test]
fn monsters_stop_attacking_a_player_who_died() {
    let mut d = hall_with_monsters(&[(2, 3), (4, 3), (3, 2)]);
    d.player.hp = 3;
    process_monster_moves_attack(&mut d);
    // Two attacks of two points each kill; the third monster walks onto
    // the cell that is no longer held.
    assert_eq!(d.player.hp, -1);
    assert!(!d.player.alive);
    assert_eq!((d.monsters[0].pos_x, d.monsters[0].pos_y), (2, 3));
    assert_eq!((d.monsters[1].pos_x, d.monsters[1].pos_y), (4, 3));
    assert_eq!((d.monsters[2].pos_x, d.monsters[2].pos_y), (3, 3));
    assert_eq!(marked_cells(&d), living_cells(&d));
}

#[test]
fn monster_attack_that_cannot_be_held_is_left_out() {
    let mut d = hall_with_monsters(&[(2, 3)]);
    d.player.hp = i32::MIN + 1;
    d.player.alive = true;
    let before = d.clone();
    process_monster_moves_attack(&mut d);
    assert_eq!(d.player, before.player);
    assert_eq!(d.monsters, before.monsters);
}

#[test]
fn turn_of_the_player_lets_the_monsters_follow() {
    let mut d = hall_with_monsters(&[(1, 1), (5, 5)]);
    assert_eq!(player_turn(&mut d, Direction::Right), MoveOutcome::Moved);
    assert_eq!((d.player.position_x, d.player.position_y), (3, 4));
    // Both monsters read the distances to the new cell of the player.
    assert_eq!((d.monsters[0].pos_x, d.monsters[0].pos_y), (2, 2));
    assert_eq!((d.monsters[1].pos_x, d.monsters[1].pos_y), (4, 4));
    assert!(manhattan_everywhere(&d));
    assert_eq!(marked_cells(&d), living_cells(&d));
    assert_eq!(player_turn(&mut d, Direction::Down), MoveOutcome::Attacked);
    assert_eq!(d.monsters[1].hp, 7);
    assert_eq!((d.monsters[0].pos_x, d.monsters[0].pos_y), (2, 2));
    assert_eq!(d.player.hp, 20);
}

#[test]
fn occupancy_is_current_after_every_step() {
    let mut d = hall_with_monsters(&[(1, 1), (1, 5), (5, 1), (5, 5)]);
    for direction in [
        Direction::Up,
        Direction::Left,
        Direction::Left,
        Direction::Down,
        Direction::Right,
        Direction::Up,
    ] {
        player_turn(&mut d, direction);
        assert_eq!(marked_cells(&d), living_cells(&d));
        assert!(d.is_sound());
    }
}

#[test]
fn directions_name_axis_and_sense() {
    assert_eq!((Direction::Up.axis(), Direction::Up.delta()), (Axis::Row, Delta::Minus));
    assert_eq!((Direction::Down.axis(), Direction::Down.delta()), (Axis::Row, Delta::Plus));
    assert_eq!((Direction::Left.axis(), Direction::Left.delta()), (Axis::Col, Delta::Minus));
    assert_eq!((Direction::Right.axis(), Direction::Right.delta()), (Axis::Col, Delta::Plus));
}

#[test]
fn destination_stops_at_the_ends_of_usize() {
    assert_eq!(destination(4, 7, Axis::Row, Delta::Minus), Some((3, 7)));
    assert_eq!(destination(4, 7, Axis::Row, Delta::Plus), Some((5, 7)));
    assert_eq!(destination(4, 7, Axis::Col, Delta::Minus), Some((4, 6)));
    assert_eq!(destination(4, 7, Axis::Col, Delta::Plus), Some((4, 8)));
    assert_eq!(destination(0, 7, Axis::Row, Delta::Minus), None);
    assert_eq!(destination(4, 0, Axis::Col, Delta::Minus), None);
    assert_eq!(destination(usize::MAX, 7, Axis::Row, Delta::Plus), None);
    assert_eq!(destination(4, usize::MAX, Axis::Col, Delta::Plus), None);
}

#[test]
fn first_living_monster_on_a_cell_is_found() {
    let mut d = hall_with_monsters(&[(2, 2), (4, 4), (2, 2)]);
    assert_eq!(d.living_monster_at(2, 2), Some(0));
    assert_eq!(d.living_monster_at(4, 4), Some(1));
    assert_eq!(d.living_monster_at(3, 3), None);
    d.monsters[0].alive = false;
    assert_eq!(d.living_monster_at(2, 2), Some(2));
    d.monsters[2].alive = false;
    assert_eq!(d.living_monster_at(2, 2), None);
}
