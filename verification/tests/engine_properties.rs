//! Property checks on concrete hands: chip conservation, pot accounting,
//! legality of the filtered menus, side-pot construction, tie splits,
//! termination and leaf modes.
use cfr_game_states::cards::card_from_string;
use cfr_game_states::game_states::base_game_state::GameState;
use cfr_game_states::game_states::nlth_poker::game_state::NLTHGameState;
use cfr_game_states::structs::{Action, ActionType};

fn card(s: &str) -> u8 {
    card_from_string(s).unwrap()
}

fn call() -> Action {
    Action { action_type: ActionType::Call, raise_amount: 0 }
}

fn fold() -> Action {
    Action { action_type: ActionType::Fold, raise_amount: 0 }
}

fn all_in() -> Action {
    Action { action_type: ActionType::AllIn, raise_amount: 0 }
}

fn bet(m: u16) -> Action {
    Action { action_type: ActionType::Bet, raise_amount: m }
}

fn setup_six() -> NLTHGameState {
    let mut g = NLTHGameState::new_empty(6, false, None);
    g.private_hands = vec![
        vec![card("As"), card("Ks")],
        vec![card("2c"), card("3d")],
        vec![card("4h"), card("5s")],
        vec![card("6d"), card("7c")],
        vec![card("8s"), card("9d")],
        vec![card("Th"), card("Jh")],
    ];
    g.community_cards = vec![card("Qd"), card("Kh"), card("Ah"), card("2s"), card("3h")];
    g
}

// Conservation: every action moves chips between a seat's stack and its
// bets, so stack plus total bets stays at the starting stack.
#[test]
fn test_chip_conservation_along_a_hand() {
    let mut g = setup_six();
    let starting: Vec<u32> = (0..6)
        .map(|p| g.stacks[p] + (0..4).map(|r| g.bets[r][p]).sum::<u32>())
        .collect();
    for a in [call(), fold(), bet(100), all_in(), call(), call(), call()] {
        g = g.handle_action(a);
        for p in 0..6 {
            let held = g.stacks[p] + (0..4).map(|r| g.bets[r][p]).sum::<u32>();
            assert_eq!(held, starting[p]);
        }
    }
}

// Pot accounting: each seat's chips across the pots equal its bets.
#[test]
fn test_pot_accounting_along_a_hand() {
    let mut g = setup_six();
    for a in [bet(150), all_in(), call(), fold(), call(), call()] {
        g = g.handle_action(a);
        for p in 0..6 {
            let in_pots: u32 = (0..6).map(|k| g.pots[k][p]).sum();
            let in_bets: u32 = (0..4).map(|r| g.bets[r][p]).sum();
            assert_eq!(in_pots, in_bets);
        }
    }
}

// Legality round-trip: every offered action can be applied, and the
// filter never offers folding a free option or calling one's whole stack.
#[test]
fn test_available_actions_are_legal() {
    let menu: Vec<Action> = vec![bet(50), bet(100), bet(200), bet(2500)];
    let mut g = setup_six();
    g = g.handle_action(call());
    let offered = g.get_active_player_actions(Some(&menu));
    assert!(offered.contains(&fold()));
    for a in offered {
        // Applying any offered action must yield a consistent state.
        let next = g.handle_action(a);
        for p in 0..6 {
            let in_pots: u32 = (0..6).map(|k| next.pots[k][p]).sum();
            let in_bets: u32 = (0..4).map(|r| next.bets[r][p]).sum();
            assert_eq!(in_pots, in_bets);
        }
    }
    // After everyone matches the big blind, the big blind faces no call
    // amount: folding disappears from its menu.
    for _ in 0..4 {
        g = g.handle_action(call());
    }
    assert_eq!(g.active_player_index, 1);
    assert_eq!(g.get_call_amount(), 0);
    let offered = g.get_active_player_actions(Some(&menu));
    assert!(!offered.contains(&fold()));
    assert!(offered.contains(&call()));
    assert!(offered.contains(&all_in()));
}

// A call that would consume the whole stack is not offered as a call.
#[test]
fn test_exact_call_is_an_all_in() {
    let mut g = setup_six();
    g.stacks[3] = 100;
    g = g.handle_action(call()); // seat 2 matches the big blind
    assert_eq!(g.active_player_index, 3);
    assert_eq!(g.get_call_amount(), 100);
    let offered = g.get_active_player_actions(None);
    assert!(!offered.contains(&call()));
    assert!(offered.contains(&fold()));
    assert!(offered.contains(&all_in()));
}

// Side pots per the capped-walk algorithm: a short all-in caps the main
// pot for later contributions, and chips beyond the cap overflow into the
// next pot.
#[test]
fn test_side_pot_capped_walk() {
    let mut g = setup_six();
    g.stacks[3] = 180;
    g = g.handle_action(bet(300)); // seat 2: call 100, raise 750
    g = g.handle_action(all_in()); // seat 3: 180 chips, caps pot 0 at 180
    g = g.handle_action(call()); // seat 4: 850, first 180 capped
    g = g.handle_action(bet(100)); // seat 5: call 850, raise 2880
    assert_eq!(g.all_in_players[3], 0);
    assert_eq!(g.current_pot, 1);
    assert_eq!(g.pots[0], vec![50, 100, 850, 180, 180, 180]);
    assert_eq!(g.pots[1], vec![0, 0, 0, 0, 670, 3550]);
    assert_eq!(g.bets[0], vec![50, 100, 850, 180, 850, 3730]);
    assert_eq!(g.stacks[5], 6270);
    assert_eq!(g.minimum_raise_amount, 2880);
}

// A tied showdown splits the pot evenly and the payoffs sum to zero.
#[test]
fn test_tied_showdown_splits_evenly() {
    let mut g = NLTHGameState::new_empty(2, false, None);
    g.private_hands = vec![
        vec![card("2c"), card("3d")],
        vec![card("2h"), card("3s")],
        vec![52, 52],
        vec![52, 52],
        vec![52, 52],
        vec![52, 52],
    ];
    // The board is the best hand for both: they split.
    g.community_cards = vec![card("Ts"), card("Js"), card("Qs"), card("Ks"), card("As")];
    for _ in 0..8 {
        g = g.handle_action(call());
    }
    assert!(g.is_terminal());
    let payoffs = g.get_payoffs();
    assert_eq!(payoffs, vec![0, 0, 0, 0, 0, 0]);
    assert_eq!(payoffs.iter().sum::<i32>(), 0);
}

// Payoffs sum to zero when a single raise gets called down to a showdown.
#[test]
fn test_showdown_payoffs_sum_to_zero() {
    let mut g = setup_six();
    g = g.handle_action(bet(100));
    for _ in 0..5 {
        g = g.handle_action(call());
    }
    for _ in 0..3 {
        for _ in 0..6 {
            g = g.handle_action(call());
        }
    }
    assert!(g.is_terminal());
    let payoffs = g.get_payoffs();
    assert_eq!(payoffs.iter().sum::<i32>(), 0);
    assert!(payoffs[5] > 0); // the flush wins
}

// An uneven four-way tie discards the division remainder: the payoffs
// sum to the negated remainder of the split.
#[test]
fn test_uneven_tie_split_discards_remainder() {
    let mut g = NLTHGameState::new_empty(6, false, None);
    g.private_hands = vec![
        vec![card("2c"), card("3d")],
        vec![card("2h"), card("3s")],
        vec![card("4c"), card("5d")],
        vec![card("4h"), card("5s")],
        vec![card("6c"), card("7d")],
        vec![card("6h"), card("7s")],
    ];
    // The board is the best hand for everyone who reaches the showdown.
    g.community_cards = vec![card("Ts"), card("Js"), card("Qs"), card("Ks"), card("As")];
    g = g.handle_action(call()); // seat 2
    g = g.handle_action(call()); // seat 3
    g = g.handle_action(call()); // seat 4
    g = g.handle_action(fold()); // seat 5
    g = g.handle_action(fold()); // seat 0, the small blind
    g = g.handle_action(call()); // seat 1 checks, closing the round
    for _ in 0..3 {
        for _ in 0..4 {
            g = g.handle_action(call());
        }
    }
    assert!(g.is_terminal());
    // Four players tie for a 450-chip pot: each takes 112, two chips
    // vanish in the integer split.
    let payoffs = g.get_payoffs();
    assert_eq!(payoffs, vec![-50, 12, 12, 12, 12, 0]);
    assert_eq!(payoffs.iter().sum::<i32>(), -(450 % 4));
}

// Termination: a terminal state admits no further transition; the engine
// asks its callers never to apply an action to one.
#[test]
fn test_terminal_state_is_settled() {
    let mut g = setup_six();
    for _ in 0..5 {
        g = g.handle_action(fold());
    }
    assert!(g.is_terminal());
    let payoffs = g.get_payoffs();
    assert_eq!(payoffs.iter().sum::<i32>(), 0);
    assert_eq!(payoffs[1], 50);
}

// Leaf modes for subgame resolving: mode 0 never marks a leaf, mode 1
// marks states past the preflop, mode 2 past the turn or at a second bet.
#[test]
fn test_leaf_node_modes() {
    let mut g = setup_six();
    assert!(!g.is_leaf_node(0));
    assert!(!g.is_leaf_node(1));
    assert!(!g.is_leaf_node(2));
    g = g.handle_action(bet(100));
    g = g.handle_action(bet(100));
    assert!(g.is_leaf_node(2)); // two bets this round
    assert!(!g.is_leaf_node(1));
    for _ in 0..4 {
        g = g.handle_action(fold());
    }
    // The first bettor calls the raise and closes the preflop round.
    g = g.handle_action(call());
    assert_eq!(g.round, 1);
    assert!(g.is_leaf_node(1));
    assert!(!g.is_leaf_node(0));
    assert!(!g.is_terminal());
}

// The round transition hands the turn to the first seat from the small
// blind that can still act, never to a folded seat.
#[test]
fn test_round_transition_skips_ineligible_seats() {
    let mut g = setup_six();
    g = g.handle_action(call()); // seat 2
    g = g.handle_action(call()); // seat 3
    g = g.handle_action(call()); // seat 4
    g = g.handle_action(call()); // seat 5
    g = g.handle_action(fold()); // seat 0, the small blind
    g = g.handle_action(call()); // seat 1 closes the round
    assert_eq!(g.round, 1);
    // Seat 0 folded, so the flop starts on seat 1.
    assert_eq!(g.active_player_index, 1);
    assert!(!g.folded_players[g.active_player_index]);
}

// The engine is usable through the shared game-state surface.
#[test]
fn test_game_state_trait_surface() {
    fn drive<G: GameState>(mut state: G, actions: &[Action]) -> G {
        for &a in actions {
            state = state.handle_action(a);
        }
        state
    }

    assert_eq!(<NLTHGameState as GameState>::get_total_rounds(), 4);
    let mut g = <NLTHGameState as GameState>::new_empty(2, false, None);
    GameState::set_private_hands(
        &mut g,
        vec![
            vec![card("As"), card("Ks")],
            vec![card("2c"), card("3d")],
            vec![52, 52],
            vec![52, 52],
            vec![52, 52],
            vec![52, 52],
        ],
    );
    GameState::set_community_cards(
        &mut g,
        vec![card("Jd"), card("Qh"), card("Td"), card("5s"), card("3h")],
    );
    assert_eq!(GameState::get_player_amount(&g), 2);
    assert_eq!(GameState::get_active_player_index(&g), 0);
    let g = drive(g, &[bet(100), fold()]);
    assert!(GameState::is_terminal(&g));
    let payoffs = GameState::get_payoffs(&g);
    assert!(payoffs[0] > 0);
    assert_eq!(payoffs.iter().sum::<i32>(), 0);
}

// A seeded deal is a pure function of the seed: two constructions from
// one seed agree card for card, and the shuffle is not the identity.
#[test]
fn test_seeded_deal_is_deterministic() {
    let a = NLTHGameState::new_empty(6, true, Some(12345));
    let b = NLTHGameState::new_empty(6, true, Some(12345));
    assert_eq!(a.private_hands, b.private_hands);
    assert_eq!(a.community_cards, b.community_cards);
    let shuffled = cfr_game_states::cards::shuffled_deck(Some(12345));
    let again = cfr_game_states::cards::shuffled_deck(Some(12345));
    assert_eq!(shuffled, again);
    // The deal reads the shuffled deck from the top.
    for p in 0..6 {
        assert_eq!(a.private_hands[p][0], shuffled[2 * p]);
        assert_eq!(a.private_hands[p][1], shuffled[2 * p + 1]);
    }
    for j in 0..5 {
        assert_eq!(a.community_cards[j], shuffled[12 + j]);
    }
}

// A deterministic seeded deal produces valid, pairwise distinct cards.
#[test]
fn test_seeded_deal_is_valid_and_distinct() {
    let g = NLTHGameState::new_empty(6, true, Some(7));
    let mut seen = vec![false; 52];
    for p in 0..6 {
        for i in 0..2 {
            let c = g.private_hands[p][i] as usize;
            assert!(c < 52);
            assert!(!seen[c]);
            seen[c] = true;
        }
    }
    for j in 0..5 {
        let c = g.community_cards[j] as usize;
        assert!(c < 52);
        assert!(!seen[c]);
        seen[c] = true;
    }
    assert_eq!(g.stacks[0], 9950);
    assert_eq!(g.stacks[1], 9900);
    assert_eq!(g.bets[0], vec![50, 100, 0, 0, 0, 0]);
    assert_eq!(g.active_player_index, 2);
}
