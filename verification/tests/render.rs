use dungeon::dungeon::UNREACHABLE;
use dungeon::generate::{add_room, seal_border};
use dungeon::render::{distance_glyph, glyph_tint};
use dungeon::{generate_map, Dungeon, Tile, Tint};

#[test]
fn tiles_come_column_by_column() {
    let mut d = Dungeon::blank(4, 5);
    add_room(1, 1, 2, 3, &mut d);
    d.char_map.set(1, 2, '#');
    let map = generate_map(&d);
    assert_eq!(map.len(), 20);
    for x in 0..5 {
        for y in 0..4 {
            let tile = map[x * 4 + y];
            assert_eq!((tile.x, tile.y), (x, y));
            assert_eq!(tile.color, Tint::Black);
            let expected = if x == 0 || x == 4 || y == 0 || y == 3 {
                '%'
            } else {
                d.char_map.get(y, x)
            };
            assert_eq!(tile.glyph, expected);
        }
    }
    assert_eq!(map[0], Tile { x: 0, y: 0, glyph: '%', color: Tint::Black });
    assert_eq!(map[5], Tile { x: 1, y: 1, glyph: '.', color: Tint::Black });
    assert_eq!(map[9], Tile { x: 2, y: 1, glyph: '#', color: Tint::Black });
    assert_eq!(map[14], Tile { x: 3, y: 2, glyph: '.', color: Tint::Black });
}

#[test]
fn tiles_show_the_border_whatever_the_terrain_holds() {
    let mut d = Dungeon::blank(3, 3);
    add_room(0, 0, 3, 3, &mut d);
    let map = generate_map(&d);
    let glyphs: Vec<char> = map.iter().map(|t| t.glyph).collect();
    assert_eq!(glyphs, vec!['%', '%', '%', '%', '.', '%', '%', '%', '%']);
    seal_border(&mut d);
    assert_eq!(generate_map(&d), map);
}

#[test]
fn tiles_of_a_single_row_are_all_border() {
    let d = Dungeon::blank(1, 4);
    let map = generate_map(&d);
    assert_eq!(map.len(), 4);
    for (x, tile) in map.iter().enumerate() {
        assert_eq!(*tile, Tile { x, y: 0, glyph: '%', color: Tint::Black });
    }
}

#[test]
fn glyphs_have_their_tints() {
    assert_eq!(glyph_tint('.'), Tint::Green);
    assert_eq!(glyph_tint('#'), Tint::Yellow);
    assert_eq!(glyph_tint('@'), Tint::Red);
    assert_eq!(glyph_tint(' '), Tint::White);
    assert_eq!(glyph_tint('%'), Tint::White);
    assert_eq!(glyph_tint('g'), Tint::White);
}

#[test]
fn distances_print_as_their_last_digit() {
    assert_eq!(distance_glyph(0), '0');
    assert_eq!(distance_glyph(7), '7');
    assert_eq!(distance_glyph(10), '0');
    assert_eq!(distance_glyph(109), '9');
    assert_eq!(distance_glyph(1054), '4');
    assert_eq!(distance_glyph(1056), '6');
    assert_eq!(distance_glyph(UNREACHABLE), ' ');
    assert_eq!(distance_glyph(1055), ' ');
    for n in 0..1055u16 {
        let expected = char::from_digit((n % 10) as u32, 10);
        assert_eq!(Some(distance_glyph(n)), expected);
    }
}
