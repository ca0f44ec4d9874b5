//! Rule engine for Cubeo, a two-player abstract strategy game played with
//! stackable, numbered dice on a square grid of signed coordinates.
//!
//! The engine owns the whole game state: it enumerates every legal action for
//! the player to move, applies a chosen action, and detects victory.  Every
//! rule of the game — the isolation rule for placements, the one-hive
//! connectivity rule, the multi-step slide movement, the overflow and blockade
//! win conditions — is stated as a specification and proved of the executable
//! code.  Drawing and input handling are a presentation layer's business and
//! live outside this crate.

pub mod action;
pub mod board;
pub mod conn;
pub mod dice;
pub mod game;
pub mod graph;
pub mod laws;
pub mod pos;
pub mod rules;
pub mod slide;

pub use action::Action;
pub use board::Board;
pub use dice::Color;
pub use dice::Die;
pub use game::Game;
pub use pos::Pos;
