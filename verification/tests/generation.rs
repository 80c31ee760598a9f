use dungeon::dungeon::{BORDER, CORRIDOR, EMPTY, FLOOR, OPEN, SOLID, UNREACHABLE};
use dungeon::{generate_dungeon, generate_with, Dungeon, GenerationError, Monster, Player};

fn floor_cells(d: &Dungeon) -> Vec<(usize, usize)> {
    let mut cells = Vec::new();
    for r in 0..d.dungeon_x {
        for c in 0..d.dungeon_y {
            if d.char_map.get(r, c) == FLOOR {
                cells.push((r, c));
            }
        }
    }
    cells
}

fn flood(d: &Dungeon, start: (usize, usize)) -> Vec<Vec<bool>> {
    let mut seen = vec![vec![false; d.dungeon_y]; d.dungeon_x];
    let mut stack = vec![start];
    seen[start.0][start.1] = true;
    while let Some((r, c)) = stack.pop() {
        let mut around = Vec::new();
        if r > 0 {
            around.push((r - 1, c));
        }
        if c > 0 {
            around.push((r, c - 1));
        }
        if r + 1 < d.dungeon_x {
            around.push((r + 1, c));
        }
        if c + 1 < d.dungeon_y {
            around.push((r, c + 1));
        }
        for (nr, nc) in around {
            if !seen[nr][nc] && d.hardness_map.get(nr, nc) < 2 {
                seen[nr][nc] = true;
                stack.push((nr, nc));
            }
        }
    }
    seen
}

fn generated() -> Dungeon {
    match generate_dungeon() {
        Ok(d) => d,
        Err(e) => panic!("no dungeon: {:?}", e),
    }
}

#[test]
fn generated_dungeon_has_the_shape_of_the_game() {
    let d = generated();
    assert!(d.is_sound());
    assert_eq!((d.dungeon_x, d.dungeon_y), (30, 80));
    assert_eq!((d.min_width, d.max_width, d.min_length, d.max_length), (4, 9, 4, 12));
    assert_eq!(d.rooms, 7);
    assert_eq!(d.monsters.len(), 10);
    assert_eq!((d.char_map.rows(), d.char_map.cols()), (30, 80));
    assert_eq!((d.hardness_map.rows(), d.hardness_map.cols()), (30, 80));
}

#[test]
fn generated_rooms_are_all_connected() {
    for _ in 0..25 {
        let d = generated();
        let floor = floor_cells(&d);
        assert!(!floor.is_empty());
        let seen = flood(&d, floor[0]);
        for &(r, c) in &floor {
            assert!(seen[r][c], "floor cell ({r}, {c}) is cut off");
        }
        let seen = flood(&d, floor[floor.len() - 1]);
        for &(r, c) in &floor {
            assert!(seen[r][c]);
        }
    }
}

#[test]
fn generated_border_is_sealed() {
    for _ in 0..10 {
        let d = generated();
        for r in 0..30 {
            for c in 0..80 {
                if r == 0 || c == 0 || r == 29 || c == 79 {
                    assert_eq!(d.char_map.get(r, c), BORDER);
                    assert!(d.hardness_map.get(r, c) >= 2);
                    assert_eq!(d.hardness_map.get(r, c), SOLID);
                } else {
                    assert!(d.char_map.get(r, c) != BORDER);
                }
            }
        }
    }
}

#[test]
fn generated_glyphs_and_hardness_agree() {
    for _ in 0..10 {
        let d = generated();
        for r in 0..30 {
            for c in 0..80 {
                let glyph = d.char_map.get(r, c);
                let hard = d.hardness_map.get(r, c);
                if glyph == FLOOR || glyph == CORRIDOR {
                    assert_eq!(hard, OPEN);
                } else {
                    assert!(glyph == EMPTY || glyph == BORDER);
                    assert_eq!(hard, SOLID);
                }
            }
        }
    }
}

#[test]
fn generated_floor_is_seven_rooms_of_the_sizes_asked_for() {
    for _ in 0..10 {
        let d = generated();
        let count = floor_cells(&d).len();
        assert!(count >= 7 * 4 * 4, "{count} floor cells");
        assert!(count <= 7 * 8 * 11, "{count} floor cells");
    }
}

#[test]
fn generated_layouts_differ() {
    let first = generated();
    let mut differs = false;
    for _ in 0..20 {
        if generated().char_map != first.char_map {
            differs = true;
        }
    }
    assert!(differs);
}

#[test]
fn generated_entities_stand_where_they_may() {
    for _ in 0..10 {
        let d = generated();
        let p = d.player;
        assert_eq!(p, Player::new(p.position_x, p.position_y));
        assert_eq!(d.char_map.get(p.position_x, p.position_y), FLOOR);
        for m in &d.monsters {
            assert_eq!(*m, Monster::new(m.pos_x, m.pos_y));
            assert!(d.hardness_map.get(m.pos_x, m.pos_y) < 2);
        }
    }
}

#[test]
fn generated_fields_are_current() {
    for _ in 0..10 {
        let d = generated();
        for r in 0..30 {
            for c in 0..80 {
                let expected = if d.hardness_map.get(r, c) >= 2 {
                    UNREACHABLE
                } else {
                    (r.abs_diff(d.player.position_x) + c.abs_diff(d.player.position_y)) as u16
                };
                assert_eq!(d.distance_map.get(r, c), expected);
                let held = (d.player.position_x, d.player.position_y) == (r, c)
                    || d.monsters.iter().any(|m| m.alive && (m.pos_x, m.pos_y) == (r, c));
                assert_eq!(d.mon_map.get(r, c), held);
            }
        }
    }
}

#[test]
fn small_dungeons_are_generated_too() {
    for _ in 0..25 {
        let d = match generate_with(12, 16, 2, 4, 2, 5, 3, 2, 100000) {
            Ok(d) => d,
            Err(e) => panic!("no dungeon: {:?}", e),
        };
        assert!(d.is_sound());
        assert_eq!((d.dungeon_x, d.dungeon_y, d.rooms), (12, 16, 3));
        assert_eq!((d.min_width, d.max_width, d.min_length, d.max_length), (2, 4, 2, 5));
        assert_eq!(d.monsters.len(), 2);
        let floor = floor_cells(&d);
        assert!(floor.len() >= 3 * 2 * 2 && floor.len() <= 3 * 3 * 4);
        let seen = flood(&d, floor[0]);
        for &(r, c) in &floor {
            assert!(seen[r][c]);
            assert!(r >= 1 && r <= 10 && c >= 1 && c <= 14);
        }
    }
}

#[test]
fn no_draws_allowed_means_no_rooms() {
    assert_eq!(generate_with(30, 80, 4, 9, 4, 12, 7, 10, 0), Err(GenerationError::Rooms));
    assert_eq!(generate_with(12, 16, 2, 4, 2, 5, 1, 0, 0), Err(GenerationError::Rooms));
}

#[test]
fn without_rooms_the_player_finds_no_floor() {
    assert_eq!(generate_with(12, 16, 2, 4, 2, 5, 0, 3, 0), Err(GenerationError::Player));
    assert_eq!(generate_with(12, 16, 2, 4, 2, 5, 0, 3, 50), Err(GenerationError::Player));
}

#[test]
fn rooms_that_cannot_all_lie_apart_are_given_up() {
    // Every room is the one interior cell of a grid of three by three.
    assert_eq!(generate_with(3, 3, 1, 2, 1, 2, 2, 0, 200), Err(GenerationError::Rooms));
}

#[test]
fn too_few_draws_for_the_monsters_are_reported() {
    // One draw places the only room, one may place the player, and one
    // draw cannot place two monsters.
    let mut seen_monsters = false;
    for _ in 0..2000 {
        match generate_with(4, 4, 1, 2, 1, 2, 1, 2, 1) {
            Ok(_) => panic!("two monsters from one draw"),
            Err(GenerationError::Monsters) => seen_monsters = true,
            Err(GenerationError::Player) => {},
            Err(GenerationError::Rooms) => panic!("the first room always fits"),
        }
    }
    assert!(seen_monsters);
}

#[test]
fn dungeon_without_monsters_is_generated() {
    let d = match generate_with(10, 10, 2, 4, 2, 4, 2, 0, 100000) {
        Ok(d) => d,
        Err(e) => panic!("no dungeon: {:?}", e),
    };
    assert_eq!(d.monsters.len(), 0);
    let mut marked = 0;
    for r in 0..10 {
        for c in 0..10 {
            if d.mon_map.get(r, c) {
                marked += 1;
                assert_eq!((d.player.position_x, d.player.position_y), (r, c));
            }
        }
    }
    assert_eq!(marked, 1);
}
