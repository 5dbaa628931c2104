//! The action model and the abstraction layer: identifier tables, string
//! round trips, card parsing, menus and randomized translation.
use cfr_game_states::abstraction::action_abstraction::{blueprint_available_actions, blueprint_depths};
use cfr_game_states::abstraction::action_translation::{
    get_lower_upper_action_from_abstraction, translate_action,
};
use cfr_game_states::cards::{card_from_string, card_rank, card_suit, fresh_deck, shuffled_deck};
use cfr_game_states::structs::{Action, ActionType};

fn bet(m: u16) -> Action {
    Action { action_type: ActionType::Bet, raise_amount: m }
}

#[test]
fn test_action_type_string_round_trip() {
    for t in [ActionType::Fold, ActionType::Call, ActionType::Bet, ActionType::AllIn] {
        let s = t.to_string();
        assert_eq!(ActionType::from_string(&s), Some(t));
    }
    assert_eq!(ActionType::from_string("fold"), Some(ActionType::Fold));
    assert_eq!(ActionType::from_string("all_in"), Some(ActionType::AllIn));
    assert_eq!(ActionType::from_string("check"), None);
    assert_eq!(ActionType::from_string(""), None);
}

#[test]
fn test_identifier_table_round_trip() {
    for id in 0u8..=18 {
        let action = Action::from_identifier(id).unwrap();
        assert_eq!(action.into_identifier(), Some(id));
    }
    assert_eq!(Action::from_identifier(19), None);
    assert_eq!(
        Action::from_identifier(0),
        Some(Action { action_type: ActionType::Fold, raise_amount: 0 })
    );
    assert_eq!(Action::from_identifier(4), Some(bet(25)));
    assert_eq!(Action::from_identifier(18), Some(bet(2500)));
    // A bet size outside the table has no identifier.
    assert_eq!(bet(33).into_identifier(), None);
}

#[test]
fn test_action_from_string() {
    // The decimal form of every assigned identifier parses back to its
    // table action, closing the string round trip.
    for id in 0u8..=18 {
        let parsed = Action::from_string(&format!("{}", id));
        assert_eq!(parsed, Action::from_identifier(id));
        assert_eq!(parsed.unwrap().into_identifier(), Some(id));
    }
    assert_eq!(
        Action::from_string("1"),
        Some(Action { action_type: ActionType::Call, raise_amount: 0 })
    );
    assert_eq!(Action::from_string("9"), Some(bet(134)));
    assert_eq!(Action::from_string("19"), None);
    assert_eq!(Action::from_string("256"), None);
    assert_eq!(Action::from_string("x"), None);
    assert_eq!(Action::from_string(""), None);
}

#[test]
fn test_action_display_form() {
    assert_eq!(
        Action { action_type: ActionType::Fold, raise_amount: 0 }.as_string(),
        "Fold"
    );
    assert_eq!(
        Action { action_type: ActionType::AllIn, raise_amount: 0 }.as_string(),
        "AllIn"
    );
    assert_eq!(bet(134).as_string(), "Bet x1.34");
    assert_eq!(bet(150).as_string(), "Bet x1.5");
    assert_eq!(bet(200).as_string(), "Bet x2");
    assert_eq!(bet(25).as_string(), "Bet x0.25");
    assert_eq!(bet(2500).as_string(), "Bet x25");
}

#[test]
fn test_actions_compare_by_kind_then_size() {
    assert!(bet(100) < bet(200));
    assert!(bet(2500) < Action { action_type: ActionType::AllIn, raise_amount: 0 });
    assert!(Action { action_type: ActionType::Fold, raise_amount: 0 }
        < Action { action_type: ActionType::Call, raise_amount: 0 });
    let mut sizes = vec![bet(400), bet(50), bet(200)];
    sizes.sort();
    assert_eq!(sizes, vec![bet(50), bet(200), bet(400)]);
}

#[test]
fn test_is_bet_raise() {
    assert!(bet(100).is_bet_raise());
    assert!(!Action { action_type: ActionType::AllIn, raise_amount: 0 }.is_bet_raise());
    assert!(!Action { action_type: ActionType::Call, raise_amount: 0 }.is_bet_raise());
}

#[test]
fn test_card_encoding() {
    assert_eq!(card_from_string("2c"), Some(0));
    assert_eq!(card_from_string("2d"), Some(1));
    assert_eq!(card_from_string("As"), Some(51));
    assert_eq!(card_from_string("Td"), Some(33));
    assert_eq!(card_from_string("1x"), None);
    assert_eq!(card_from_string("A"), None);
    assert_eq!(card_from_string("Asx"), None);
    let ace_of_spades = card_from_string("As").unwrap();
    assert_eq!(card_rank(ace_of_spades), 12);
    assert_eq!(card_suit(ace_of_spades), 3);
}

#[test]
fn test_deck_and_shuffle() {
    let deck = fresh_deck();
    assert_eq!(deck.len(), 52);
    for (i, &c) in deck.iter().enumerate() {
        assert_eq!(c as usize, i);
    }
    // A shuffled deck is a permutation: every card appears exactly once.
    let shuffled = shuffled_deck(Some(99));
    assert_eq!(shuffled.len(), 52);
    let mut seen = vec![false; 52];
    for &c in shuffled.iter() {
        assert!((c as usize) < 52);
        assert!(!seen[c as usize]);
        seen[c as usize] = true;
    }
    // A seeded shuffle does not hand the ordered deck back unchanged.
    assert!(shuffled.iter().enumerate().any(|(i, &c)| c as usize != i));
}

#[test]
fn test_blueprint_menus() {
    assert_eq!(blueprint_depths(0), 6);
    assert_eq!(blueprint_depths(1), 4);
    assert_eq!(blueprint_depths(2), 3);
    assert_eq!(blueprint_depths(3), 3);
    let preflop_open = blueprint_available_actions(0, 0);
    assert_eq!(preflop_open.len(), 11);
    assert_eq!(preflop_open[0].action_type, ActionType::Fold);
    assert_eq!(preflop_open[1].action_type, ActionType::Call);
    assert!(preflop_open.contains(&bet(134)));
    assert!(preflop_open.contains(&bet(2500)));
    assert_eq!(preflop_open[10].action_type, ActionType::AllIn);
    // The deepest depth closes the betting: only fold and call remain.
    let closed = blueprint_available_actions(0, 5);
    assert_eq!(closed.len(), 2);
    assert!(!closed.iter().any(|a| a.action_type == ActionType::Bet));
}

#[test]
fn test_neighbor_lookup() {
    // Between 200 and 400 on the preflop opening menu.
    let (lower, upper) = get_lower_upper_action_from_abstraction(bet(300), 0, 0);
    assert_eq!(lower, Some(bet(200)));
    assert_eq!(upper, Some(bet(400)));
    // Below the smallest bet: no lower neighbour.
    let (lower, upper) = get_lower_upper_action_from_abstraction(bet(50), 0, 0);
    assert_eq!(lower, None);
    assert_eq!(upper, Some(bet(134)));
    // Above the largest bet: no upper neighbour.
    let (lower, upper) = get_lower_upper_action_from_abstraction(bet(9000), 0, 0);
    assert_eq!(lower, Some(bet(2500)));
    assert_eq!(upper, None);
}

#[test]
fn test_translation_closure() {
    // An on-menu action stays itself.
    assert_eq!(translate_action(bet(400), 0, 0), bet(400));
    let call = Action { action_type: ActionType::Call, raise_amount: 0 };
    assert_eq!(translate_action(call, 0, 0), call);
    // An off-menu size snaps to one of its two neighbours; the draw is
    // random, so only membership is fixed.
    for _ in 0..20 {
        let snapped = translate_action(bet(300), 0, 0);
        assert!(snapped == bet(200) || snapped == bet(400));
    }
    // With one neighbour only, that neighbour is deterministic.
    assert_eq!(translate_action(bet(50), 0, 0), bet(134));
    assert_eq!(translate_action(bet(9000), 0, 0), bet(2500));
    // The result always lies on the menu and keeps the kind.
    let menu = blueprint_available_actions(1, 1);
    for x in [55u16, 150, 333, 777] {
        let snapped = translate_action(bet(x), 1, 1);
        assert!(menu.contains(&snapped));
        assert_eq!(snapped.action_type, ActionType::Bet);
    }
}
