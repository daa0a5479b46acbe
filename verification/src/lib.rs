//! Game logic of an 11x11 (and 9x9) tafl engine: board representation, move
//! generation, captures, terminal conditions and the data formats the engine
//! exchanges with its training pipeline.

pub mod board;
pub mod utils;
pub mod evaluation;
pub mod moves;
pub mod search;
pub mod dataset;
pub mod nnue;
pub mod uci;

pub use board::types;
