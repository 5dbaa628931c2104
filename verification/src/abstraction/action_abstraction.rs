//! The blueprint action abstraction: for each round and bet depth a fixed
//! menu of abstracted actions. Depths beyond the table are closed to
//! further bets; the deepest depth of each round offers only fold and
//! call.
use vstd::prelude::*;

use crate::structs::{Action, ActionType};

verus! {

/// How many bet depths the blueprint carries for each round.
pub open spec fn spec_blueprint_depths(round: int) -> int {
    if round == 0 {
        6
    } else if round == 1 {
        4
    } else {
        3
    }
}

/// One fold action.
pub open spec fn fold_action() -> Action {
    Action { action_type: ActionType::Fold, raise_amount: 0 }
}

/// One call action.
pub open spec fn call_action() -> Action {
    Action { action_type: ActionType::Call, raise_amount: 0 }
}

/// One all-in action.
pub open spec fn all_in_action() -> Action {
    Action { action_type: ActionType::AllIn, raise_amount: 0 }
}

/// One bet action of the given pot multiplier (hundredths).
pub open spec fn bet_action(m: u16) -> Action {
    Action { action_type: ActionType::Bet, raise_amount: m }
}

/// The blueprint menu of one round and bet depth: fold and call, the
/// round's bet sizes for that depth, and all-in everywhere but at the
/// deepest depth. Empty outside the table.
pub open spec fn spec_blueprint_menu(round: int, depth: int) -> Seq<Action> {
    if round == 0 {
        if depth == 0 {
            seq![fold_action(), call_action(), bet_action(134), bet_action(150), bet_action(200),
                bet_action(400), bet_action(800), bet_action(1300), bet_action(1500),
                bet_action(2500), all_in_action()]
        } else if depth == 1 {
            seq![fold_action(), call_action(), bet_action(50), bet_action(100), bet_action(200),
                bet_action(400), bet_action(700), bet_action(1000), all_in_action()]
        } else if depth == 2 {
            seq![fold_action(), call_action(), bet_action(50), bet_action(100), bet_action(200),
                bet_action(400), all_in_action()]
        } else if depth == 3 {
            seq![fold_action(), call_action(), bet_action(50), bet_action(100), all_in_action()]
        } else if depth == 4 {
            seq![fold_action(), call_action(), bet_action(100), all_in_action()]
        } else if depth == 5 {
            seq![fold_action(), call_action()]
        } else {
            Seq::empty()
        }
    } else if round == 1 {
        if depth == 0 {
            seq![fold_action(), call_action(), bet_action(50), bet_action(100), bet_action(200),
                bet_action(400), bet_action(700), bet_action(1300), all_in_action()]
        } else if depth == 1 {
            seq![fold_action(), call_action(), bet_action(50), bet_action(100), bet_action(200),
                all_in_action()]
        } else if depth == 2 {
            seq![fold_action(), call_action(), bet_action(50), bet_action(100), all_in_action()]
        } else if depth == 3 {
            seq![fold_action(), call_action()]
        } else {
            Seq::empty()
        }
    } else if round == 2 || round == 3 {
        if depth == 0 {
            seq![fold_action(), call_action(), bet_action(50), bet_action(100), all_in_action()]
        } else if depth == 1 {
            seq![fold_action(), call_action(), bet_action(100), all_in_action()]
        } else if depth == 2 {
            seq![fold_action(), call_action()]
        } else {
            Seq::empty()
        }
    } else {
        Seq::empty()
    }
}

/// How many bet depths the blueprint carries for the given round.
pub fn blueprint_depths(round: usize) -> (r: usize)
    requires
        round < 4,
    ensures
        r as int == spec_blueprint_depths(round as int),
{
    if round == 0 {
        6
    } else if round == 1 {
        4
    } else {
        3
    }
}

/// Builds the blueprint menu of one round and bet depth.
pub fn blueprint_available_actions(round: usize, bet_count: usize) -> (r: Vec<Action>)
    requires
        round < 4,
        bet_count < spec_blueprint_depths(round as int),
    ensures
        r@ == spec_blueprint_menu(round as int, bet_count as int),
{
    let fold = Action { action_type: ActionType::Fold, raise_amount: 0 };
    let call = Action { action_type: ActionType::Call, raise_amount: 0 };
    let allin = Action { action_type: ActionType::AllIn, raise_amount: 0 };
    let r: Vec<Action> = if round == 0 {
        if bet_count == 0 {
            vec![fold, call,
                Action { action_type: ActionType::Bet, raise_amount: 134 },
                Action { action_type: ActionType::Bet, raise_amount: 150 },
                Action { action_type: ActionType::Bet, raise_amount: 200 },
                Action { action_type: ActionType::Bet, raise_amount: 400 },
                Action { action_type: ActionType::Bet, raise_amount: 800 },
                Action { action_type: ActionType::Bet, raise_amount: 1300 },
                Action { action_type: ActionType::Bet, raise_amount: 1500 },
                Action { action_type: ActionType::Bet, raise_amount: 2500 },
                allin]
        } else if bet_count == 1 {
            vec![fold, call,
                Action { action_type: ActionType::Bet, raise_amount: 50 },
                Action { action_type: ActionType::Bet, raise_amount: 100 },
                Action { action_type: ActionType::Bet, raise_amount: 200 },
                Action { action_type: ActionType::Bet, raise_amount: 400 },
                Action { action_type: ActionType::Bet, raise_amount: 700 },
                Action { action_type: ActionType::Bet, raise_amount: 1000 },
                allin]
        } else if bet_count == 2 {
            vec![fold, call,
                Action { action_type: ActionType::Bet, raise_amount: 50 },
                Action { action_type: ActionType::Bet, raise_amount: 100 },
                Action { action_type: ActionType::Bet, raise_amount: 200 },
                Action { action_type: ActionType::Bet, raise_amount: 400 },
                allin]
        } else if bet_count == 3 {
            vec![fold, call,
                Action { action_type: ActionType::Bet, raise_amount: 50 },
                Action { action_type: ActionType::Bet, raise_amount: 100 },
                allin]
        } else if bet_count == 4 {
            vec![fold, call,
                Action { action_type: ActionType::Bet, raise_amount: 100 },
                allin]
        } else {
            vec![fold, call]
        }
    } else if round == 1 {
        if bet_count == 0 {
            vec![fold, call,
                Action { action_type: ActionType::Bet, raise_amount: 50 },
                Action { action_type: ActionType::Bet, raise_amount: 100 },
                Action { action_type: ActionType::Bet, raise_amount: 200 },
                Action { action_type: ActionType::Bet, raise_amount: 400 },
                Action { action_type: ActionType::Bet, raise_amount: 700 },
                Action { action_type: ActionType::Bet, raise_amount: 1300 },
                allin]
        } else if bet_count == 1 {
            vec![fold, call,
                Action { action_type: ActionType::Bet, raise_amount: 50 },
                Action { action_type: ActionType::Bet, raise_amount: 100 },
                Action { action_type: ActionType::Bet, raise_amount: 200 },
                allin]
        } else if bet_count == 2 {
            vec![fold, call,
                Action { action_type: ActionType::Bet, raise_amount: 50 },
                Action { action_type: ActionType::Bet, raise_amount: 100 },
                allin]
        } else {
            vec![fold, call]
        }
    } else {
        if bet_count == 0 {
            vec![fold, call,
                Action { action_type: ActionType::Bet, raise_amount: 50 },
                Action { action_type: ActionType::Bet, raise_amount: 100 },
                allin]
        } else if bet_count == 1 {
            vec![fold, call,
                Action { action_type: ActionType::Bet, raise_amount: 100 },
                allin]
        } else {
            vec![fold, call]
        }
    };
    proof {
        assert(r@ =~= spec_blueprint_menu(round as int, bet_count as int));
    }
    r
}

} // verus!
