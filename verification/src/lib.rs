pub mod abstraction;
pub mod cards;
pub mod constants;
pub mod game_states;
pub mod rng;
pub mod structs;
