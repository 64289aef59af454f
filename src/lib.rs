//! Rule engine of a trail-drawing puzzle on a 3x3 grid where cells move
//! like a chess king: each cell must make a given number of connections,
//! and a trail consumes one connection at both ends of every step.
//!
//! - `graph`: the board, valences, edges, solutions and the game state machine;
//! - `game`: sessions, the symmetry generator, the puzzle corpus and level progression;
//! - `seqs`: facts about sequences shared by the proofs;
//! - `text`: decimal numerals for the text the library produces.

pub mod game;
pub mod graph;
pub mod seqs;
pub mod text;
