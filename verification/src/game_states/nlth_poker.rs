pub mod as_game_state;
pub mod game_state;
pub mod laws;
pub mod payoffs;
pub mod rank;
pub mod transition;
