//! The capability surface shared by game-state engines: construction,
//! observation, legality, transition and settlement. Simpler variants of
//! the game implement the same surface with most hooks degenerated.
use vstd::prelude::*;

use crate::constants::Card;
use crate::structs::Action;

verus! {

/// One game-state engine. Each implementor brings its own invariant,
/// terminal predicate and legality predicate; the executable methods are
/// bound to them, so that callers can drive any engine the same way:
/// filter a menu, apply an action, settle when terminal.
pub trait GameState: Sized {
    /// The implementor's state invariant.
    spec fn inv(&self) -> bool;

    /// The hand is over.
    spec fn terminal_spec(&self) -> bool;

    /// The action may be applied now.
    spec fn legal_spec(&self, action: Action) -> bool;

    /// What settlement additionally needs (a showdown reads cards).
    spec fn payoffs_pre(&self) -> bool;

    /// Builds the state of a fresh hand.
    fn new_empty(player_amount: usize, draw_cards: bool, rng_seed: Option<u64>) -> (r: Self)
        requires
            2 <= player_amount <= 6,
        ensures
            r.inv(),
    ;

    /// Number of betting rounds of the game.
    fn get_total_rounds() -> usize;

    /// Number of seated players.
    fn get_player_amount(&self) -> usize;

    /// Current betting round.
    fn get_current_round_index(&self) -> usize;

    /// Number of bets in the current round.
    fn get_current_bet_count(&self) -> usize
        requires
            self.inv(),
    ;

    /// The per-round action history.
    fn get_history(&self) -> &Vec<Vec<Action>>;

    /// The community card slots.
    fn get_community_cards(&self) -> &Vec<Card>;

    /// Replaces the community cards, e.g. to inject a known deal.
    fn set_community_cards(&mut self, community_cards: Vec<Card>)
        requires
            old(self).inv(),
            community_cards@.len() == 5,
        ensures
            final(self).inv(),
    ;

    /// The private hole cards of every seat.
    fn get_private_hands(&self) -> &Vec<Vec<Card>>;

    /// Replaces the private hands, e.g. to inject a known deal.
    fn set_private_hands(&mut self, private_hands: Vec<Vec<Card>>)
        requires
            old(self).inv(),
            private_hands@.len() == 6,
            forall|p: int| 0 <= p < 6 ==> #[trigger] private_hands@[p]@.len() == 2,
        ensures
            final(self).inv(),
    ;

    /// Subgame-resolving leaf predicate for the given mode.
    fn is_leaf_node(&self, leaf_node_placement: u8) -> bool
        requires
            self.inv(),
    ;

    /// The hand is over.
    fn is_terminal(&self) -> (r: bool)
        requires
            self.inv(),
        ensures
            r == self.terminal_spec(),
    ;

    /// Settles the hand.
    fn get_payoffs(&self) -> (r: Vec<i32>)
        requires
            self.inv(),
            self.terminal_spec(),
            self.payoffs_pre(),
        ensures
            r@.len() == 6,
    ;

    /// Seat whose turn it is.
    fn get_active_player_index(&self) -> usize;

    /// The legal actions for the active player, out of the always-offered
    /// base actions and the given menu of bets.
    fn get_active_player_actions(&self, bets_in_abstraction_option: Option<&Vec<Action>>) -> (r: Vec<Action>)
        requires
            self.inv(),
        ensures
            forall|i: int| 0 <= i < r@.len() ==> self.legal_spec(#[trigger] r@[i]),
    ;

    /// Applies one legal action and returns the successor state.
    fn handle_action(&self, action: Action) -> (r: Self)
        requires
            self.inv(),
            !self.terminal_spec(),
            self.legal_spec(action),
        ensures
            r.inv(),
    ;

    /// The hand can move to its next betting round.
    fn can_proceed_to_next_round(&self) -> bool
        requires
            self.inv(),
    ;
}

} // verus!
