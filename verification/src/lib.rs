//! A two-player chess move-legality and turn-taking engine on an 8x8 board.
//!
//! The crate is split into:
//! - [`pieces`]: the basic value types (squares, colors, piece kinds) and the
//!   standard starting arrangement;
//! - [`board`]: the occupancy model, a collection of pieces with the invariant
//!   that no two pieces ever share a square;
//! - [`moves`]: per-kind candidate-move generation (ray casting for sliders,
//!   fixed offsets for leapers, the pawn special cases);
//! - [`game`]: the selection / turn state machine that validates a release
//!   target against cached candidates, applies the move and switches turns.

pub mod board;
pub mod game;
pub mod moves;
pub mod pieces;
