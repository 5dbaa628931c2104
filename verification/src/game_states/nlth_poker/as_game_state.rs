//! The no-limit Texas hold'em engine seen through the shared game-state
//! surface: each capability is the engine's own verified operation.
use vstd::prelude::*;

use crate::constants::Card;
use crate::structs::Action;
use crate::game_states::base_game_state::GameState;
use super::game_state::NLTHGameState;

verus! {

impl GameState for NLTHGameState {
    open spec fn inv(&self) -> bool {
        self@.wf()
    }

    open spec fn terminal_spec(&self) -> bool {
        self@.is_terminal()
    }

    open spec fn legal_spec(&self, action: Action) -> bool {
        self@.is_legal(action)
    }

    open spec fn payoffs_pre(&self) -> bool {
        self@.count_folded(self@.player_amount) == self@.player_amount - 1
            || self@.showdown_cards_ok()
    }

    fn new_empty(player_amount: usize, draw_cards: bool, rng_seed: Option<u64>) -> (r: Self) {
        NLTHGameState::new_empty(player_amount, draw_cards, rng_seed)
    }

    fn get_total_rounds() -> usize {
        NLTHGameState::get_total_rounds()
    }

    fn get_player_amount(&self) -> usize {
        NLTHGameState::get_player_amount(self)
    }

    fn get_current_round_index(&self) -> usize {
        NLTHGameState::get_current_round_index(self)
    }

    fn get_current_bet_count(&self) -> usize {
        NLTHGameState::get_current_bet_count(self)
    }

    fn get_history(&self) -> &Vec<Vec<Action>> {
        NLTHGameState::get_history(self)
    }

    fn get_community_cards(&self) -> &Vec<Card> {
        NLTHGameState::get_community_cards(self)
    }

    fn set_community_cards(&mut self, community_cards: Vec<Card>) {
        NLTHGameState::set_community_cards(self, community_cards);
    }

    fn get_private_hands(&self) -> &Vec<Vec<Card>> {
        NLTHGameState::get_private_hands(self)
    }

    fn set_private_hands(&mut self, private_hands: Vec<Vec<Card>>) {
        NLTHGameState::set_private_hands(self, private_hands);
    }

    fn is_leaf_node(&self, leaf_node_placement: u8) -> bool {
        NLTHGameState::is_leaf_node(self, leaf_node_placement)
    }

    fn is_terminal(&self) -> (r: bool) {
        NLTHGameState::is_terminal(self)
    }

    fn get_payoffs(&self) -> (r: Vec<i32>) {
        NLTHGameState::get_payoffs(self)
    }

    fn get_active_player_index(&self) -> usize {
        NLTHGameState::get_active_player_index(self)
    }

    fn get_active_player_actions(&self, bets_in_abstraction_option: Option<&Vec<Action>>) -> (r: Vec<Action>) {
        NLTHGameState::get_active_player_actions(self, bets_in_abstraction_option)
    }

    fn handle_action(&self, action: Action) -> (r: Self) {
        NLTHGameState::handle_action(self, action)
    }

    fn can_proceed_to_next_round(&self) -> bool {
        NLTHGameState::can_proceed_to_next_round(self)
    }
}

} // verus!
