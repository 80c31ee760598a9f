use dungeon::dungeon::{EMPTY, FLOOR, OPEN, SOLID, UNREACHABLE};
use dungeon::generate::{add_room, try_place_monster, try_place_player};
use dungeon::{calculate_distance_map, monster_map, Dungeon, Grid};

fn room_of_nine() -> Dungeon {
    let mut d = Dungeon::blank(5, 5);
    add_room(1, 1, 3, 3, &mut d);
    assert!(try_place_player(&mut d, 2, 2));
    calculate_distance_map(&mut d);
    monster_map(&mut d);
    d
}

#[test]
fn blank_dungeon_is_solid_rock() {
    let d = Dungeon::blank(4, 6);
    assert!(d.is_sound());
    assert_eq!((d.dungeon_x, d.dungeon_y), (4, 6));
    assert_eq!((d.min_width, d.max_width, d.min_length, d.max_length, d.rooms), (4, 9, 4, 12, 7));
    assert_eq!(d.monsters.len(), 0);
    for r in 0..4 {
        for c in 0..6 {
            assert_eq!(d.char_map.get(r, c), EMPTY);
            assert_eq!(d.hardness_map.get(r, c), SOLID);
            assert_eq!(d.distance_map.get(r, c), 0);
            assert!(!d.mon_map.get(r, c));
        }
    }
}

#[test]
fn grid_keeps_what_is_written() {
    let mut g: Grid<u8> = Grid::filled(3, 4, 9);
    assert!(g.is_sound());
    assert_eq!((g.rows(), g.cols()), (3, 4));
    g.set(2, 1, 5);
    g.set(0, 3, 7);
    for r in 0..3 {
        for c in 0..4 {
            let expected = if (r, c) == (2, 1) {
                5
            } else if (r, c) == (0, 3) {
                7
            } else {
                9
            };
            assert_eq!(g.get(r, c), expected);
        }
    }
    g.fill(1);
    for r in 0..3 {
        for c in 0..4 {
            assert_eq!(g.get(r, c), 1);
        }
    }
}

#[test]
fn grid_without_cells_is_sound() {
    let g: Grid<bool> = Grid::filled(0, 5, true);
    assert!(g.is_sound());
    assert_eq!((g.rows(), g.cols()), (0, 5));
}

#[test]
fn distances_in_a_room_of_nine_from_its_centre() {
    let d = room_of_nine();
    let mut inside: Vec<u16> = Vec::new();
    for r in 0..5 {
        for c in 0..5 {
            if (1..=3).contains(&r) && (1..=3).contains(&c) {
                assert_eq!(d.hardness_map.get(r, c), OPEN);
                assert_eq!(d.char_map.get(r, c), FLOOR);
                inside.push(d.distance_map.get(r, c));
            } else {
                assert_eq!(d.hardness_map.get(r, c), SOLID);
                assert_eq!(d.distance_map.get(r, c), UNREACHABLE);
            }
        }
    }
    inside.sort();
    assert_eq!(inside, vec![0, 1, 1, 1, 1, 2, 2, 2, 2]);
    assert_eq!(d.distance_map.get(2, 2), 0);
    assert_eq!(d.distance_map.get(1, 1), 2);
    assert_eq!(d.distance_map.get(3, 1), 2);
    assert_eq!(d.distance_map.get(2, 3), 1);
}

#[test]
fn distance_is_manhattan_and_ignores_walls_between() {
    let mut d = Dungeon::blank(6, 9);
    add_room(1, 1, 2, 2, &mut d);
    add_room(3, 6, 2, 2, &mut d);
    assert!(try_place_player(&mut d, 1, 1));
    calculate_distance_map(&mut d);
    assert_eq!(d.distance_map.get(4, 7), 3 + 6);
    assert_eq!(d.distance_map.get(3, 6), 2 + 5);
    assert_eq!(d.distance_map.get(2, 2), 2);
    assert_eq!(d.distance_map.get(2, 4), UNREACHABLE);
    assert_eq!(d.distance_map.get(0, 0), UNREACHABLE);
    assert_eq!(UNREACHABLE, 1055);
}

#[test]
fn hardness_one_is_passable_and_two_blocks() {
    let mut d = Dungeon::blank(3, 4);
    d.hardness_map.set(1, 1, 1);
    d.hardness_map.set(1, 2, 2);
    d.player.position_x = 1;
    d.player.position_y = 1;
    calculate_distance_map(&mut d);
    assert_eq!(d.distance_map.get(1, 1), 0);
    assert_eq!(d.distance_map.get(1, 2), UNREACHABLE);
}

#[test]
fn occupancy_marks_the_living_and_no_one_else() {
    let mut d = room_of_nine();
    assert!(try_place_monster(&mut d, 1, 1));
    assert!(try_place_monster(&mut d, 3, 2));
    assert!(try_place_monster(&mut d, 1, 3));
    d.monsters[1].alive = false;
    // A stale mark that the rebuild has to clear.
    d.mon_map.set(3, 3, true);
    monster_map(&mut d);
    for r in 0..5 {
        for c in 0..5 {
            let expected = [(1, 1), (1, 3), (2, 2)].contains(&(r, c));
            assert_eq!(d.mon_map.get(r, c), expected, "cell ({r}, {c})");
        }
    }
}

#[test]
fn occupancy_skips_a_dead_player() {
    let mut d = room_of_nine();
    d.player.alive = false;
    monster_map(&mut d);
    for r in 0..5 {
        for c in 0..5 {
            assert!(!d.mon_map.get(r, c));
        }
    }
}

#[test]
fn monsters_are_placed_on_passable_cells_only() {
    let mut d = room_of_nine();
    assert!(!try_place_monster(&mut d, 0, 0));
    assert!(!try_place_monster(&mut d, 4, 2));
    assert!(!try_place_monster(&mut d, 5, 2));
    assert!(!try_place_monster(&mut d, 2, 17));
    assert_eq!(d.monsters.len(), 0);
    assert!(try_place_monster(&mut d, 3, 3));
    assert_eq!(d.monsters.len(), 1);
    assert_eq!(d.monsters[0], dungeon::Monster::new(3, 3));
}

#[test]
fn player_is_placed_on_floor_only() {
    let mut d = Dungeon::blank(5, 5);
    add_room(1, 1, 3, 3, &mut d);
    // A corridor cell is passable, but it is not floor.
    d.char_map.set(2, 4, '#');
    d.hardness_map.set(2, 4, 0);
    let before = d.clone();
    assert!(!try_place_player(&mut d, 2, 4));
    assert!(!try_place_player(&mut d, 0, 1));
    assert!(!try_place_player(&mut d, 9, 1));
    assert_eq!(d, before);
    assert!(try_place_player(&mut d, 3, 1));
    assert_eq!((d.player.position_x, d.player.position_y), (3, 1));
    assert_eq!(d.player.hp, before.player.hp);
}

#[test]
fn soundness_check_finds_an_entity_off_the_grid() {
    let mut d = room_of_nine();
    assert!(d.is_sound());
    d.player.position_y = 5;
    assert!(!d.is_sound());
    d.player.position_y = 4;
    assert!(d.is_sound());
    assert!(try_place_monster(&mut d, 1, 1));
    d.monsters[0].pos_x = 5;
    assert!(!d.is_sound());
    d.monsters[0].pos_x = 0;
    assert!(d.is_sound());
    d.dungeon_x = 6;
    assert!(!d.is_sound());
}
