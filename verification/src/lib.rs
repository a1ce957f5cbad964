//! Rules engine for a card-driven board game in which teams claim squares of a
//! ten by ten board and race to complete protected lines of five chips.
//!
//! `model` holds the mathematical model of a board and `guarantees` what is
//! proved of it; `board` and `game` are the executable board and turn engine
//! that follow the model.

pub mod board;
pub mod card;
pub mod counting;
pub mod deck;
pub mod game;
pub mod grid_traversal;
pub mod guarantees;
pub mod layout;
pub mod log;
pub mod model;
pub mod orders;
pub mod player;
pub mod players;
pub mod rank;
pub mod render;
pub mod runs;
pub mod simple_player;
pub mod square;
pub mod suit;
pub mod team;
pub mod text;
pub mod util;
