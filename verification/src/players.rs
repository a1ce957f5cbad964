//! Players that come with the engine.

pub mod deterministic_player;
pub mod random_player;
pub mod square_evaluation_player;
