//! A Kalah-style Mancala engine: a rules engine that sows stones with
//! captures and extra turns, a generator of compound turns, and a
//! depth-limited minimax search with alpha-beta pruning.

pub mod mancala;
pub mod minimax;
pub mod render;
pub mod rules;
pub mod turns;
