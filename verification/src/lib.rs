//! A grid-based dungeon: generation of rooms and corridors, the derived
//! occupancy and distance fields, and turn-based movement and combat.

pub mod combat;
pub mod dungeon;
pub mod generate;
pub mod grid;
pub mod hallways;
pub mod monster;
pub mod moves;
pub mod player;
pub mod reach;
pub mod render;
pub mod rooms;
pub mod turn;

pub use combat::Tint;
pub use dungeon::{calculate_distance_map, monster_map, Dungeon};
pub use generate::{generate_dungeon, generate_with, GenerationError};
pub use grid::Grid;
pub use hallways::add_hallways;
pub use monster::Monster;
pub use moves::{Axis, Delta, Direction};
pub use player::Player;
pub use render::{generate_map, Tile};
pub use rooms::{determine_overlap, Room};
pub use turn::{attack, attempt_move, player_turn, process_monster_moves_attack, MoveOutcome, Mover};
