//! Rule engine of a sliding-tile puzzle on a 4×4 grid: sliding and merging
//! tiles, spawning new ones, and deciding whether the game is won or lost.
use vstd::prelude::*;

pub mod board;
pub mod game;
pub mod laws;
pub mod row;

pub use board::{collect_tiles_to_the_left, maybe_move_tiles, reverse_board, transpose_board, Board, Direction};
pub use game::{check_game_state, free_cells, initialise_board, make_move, place_starter_value, spawn_tile_at, GameState, WIN_TILE};
pub use row::collapse_row;

verus! {

} // verus!
