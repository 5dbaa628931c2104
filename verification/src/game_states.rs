pub mod base_game_state;
pub mod nlth_poker;
