//! A solver for a 3x3 grid puzzle over the cell values {0, 1, 2}.
//!
//! Nine fixed moves each add a delta vector to the grid, cell by cell and
//! modulo 3. Given an initial and a target grid, the solver scans every
//! combination of move repetitions in a fixed order and reports the first one
//! that turns the initial grid into the target.

pub mod enumerate;
pub mod grid;
pub mod path;
pub mod radix;
pub mod reach;
pub mod solve;
pub mod text;

pub use crate::enumerate::{position_at, positions_from_state};
pub use crate::grid::{
    is_valid_state, make_move, possible_states_from_state, same_state, State, MOVES,
};
pub use crate::path::{possible_positions_from_position, states_along_path, Position};
pub use crate::radix::{decode_index, encode_digits, COMBINATIONS};
pub use crate::solve::{find_first_match, solve, NO_SOLUTION};
pub use crate::text::{render_state, state_from_string, INVALID_STATE};
