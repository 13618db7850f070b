//! A chess rules engine with a fixed-depth adversarial search.
//!
//! The crate is organised leaves first.
//!
//! - `board`: the geometry of the 8x8 grid, lines and rays, sets of squares.
//! - `position`: the position and its invariant; `fen`: reading a position
//!   from its description.
//! - `attack`: the attack map and the detection of pins.
//! - `moves`: the move descriptor and the move applier.
//! - `move_generation`: the moves of each kind of piece and the legal moves
//!   of a position.
//! - `rules`: the movement rules stated of a single move, and the proof that
//!   every generated move obeys them; `complete`: the proof that every move
//!   which obeys them is generated, so that the legal moves are exactly the
//!   legal ones; `distinct`: the proof that no move is generated twice;
//!   `legality`: the proof that no legal move leaves the mover's king
//!   attacked.
//! - `eval`: the evaluator; `chessbot`: the alpha-beta search, proved equal
//!   to plain minimax.
//! - `translator`: the two notations of a move; `text`: the characters of a
//!   text.
pub mod attack;
pub mod board;
pub mod chessbot;
pub mod complete;
pub mod distinct;
pub mod eval;
pub mod fen;
pub mod legality;
pub mod move_generation;
pub mod moves;
pub mod position;
pub mod rules;
pub mod text;
pub mod translator;
