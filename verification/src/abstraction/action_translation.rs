//! Action translation: randomized pseudo-harmonic snapping of an off-menu
//! bet size to its nearest menu neighbours.
use vstd::prelude::*;

use crate::rng;
use crate::structs::Action;
use super::action_abstraction::spec_blueprint_menu;
use super::action_abstraction::blueprint_available_actions;
use super::action_abstraction::spec_blueprint_depths;

verus! {

/// `l` is the closest lower menu neighbour of `a`: same kind, a smaller
/// size, and no menu entry of that kind sits between them.
pub open spec fn is_lower_neighbor(menu: Seq<Action>, a: Action, l: Action) -> bool {
    &&& menu.contains(l)
    &&& l.action_type == a.action_type
    &&& l.raise_amount < a.raise_amount
    &&& (forall|i: int| 0 <= i < menu.len()
            && #[trigger] menu[i].action_type == a.action_type
            && menu[i].raise_amount < a.raise_amount
            ==> menu[i].raise_amount <= l.raise_amount)
}

/// `u` is the closest upper menu neighbour of `a`.
pub open spec fn is_upper_neighbor(menu: Seq<Action>, a: Action, u: Action) -> bool {
    &&& menu.contains(u)
    &&& u.action_type == a.action_type
    &&& u.raise_amount > a.raise_amount
    &&& (forall|i: int| 0 <= i < menu.len()
            && #[trigger] menu[i].action_type == a.action_type
            && menu[i].raise_amount > a.raise_amount
            ==> menu[i].raise_amount >= u.raise_amount)
}

/// No menu entry of `a`'s kind lies strictly below `a`.
pub open spec fn no_lower_neighbor(menu: Seq<Action>, a: Action) -> bool {
    forall|i: int| 0 <= i < menu.len() && #[trigger] menu[i].action_type == a.action_type
        ==> menu[i].raise_amount >= a.raise_amount
}

/// No menu entry of `a`'s kind lies strictly above `a`.
pub open spec fn no_upper_neighbor(menu: Seq<Action>, a: Action) -> bool {
    forall|i: int| 0 <= i < menu.len() && #[trigger] menu[i].action_type == a.action_type
        ==> menu[i].raise_amount <= a.raise_amount
}

/// Finds the closest lower and upper menu neighbours of `action` (same
/// kind, by size) in the blueprint menu of the given round and bet depth.
pub fn get_lower_upper_action_from_abstraction(
    action: Action,
    round: usize,
    raise_amount: usize,
) -> (r: (Option<Action>, Option<Action>))
    requires
        round < 4,
        raise_amount < spec_blueprint_depths(round as int),
    ensures
        ({
            let menu = spec_blueprint_menu(round as int, raise_amount as int);
            &&& (r.0 matches Some(l) ==> is_lower_neighbor(menu, action, l))
            &&& (r.0 is None ==> no_lower_neighbor(menu, action))
            &&& (r.1 matches Some(u) ==> is_upper_neighbor(menu, action, u))
            &&& (r.1 is None ==> no_upper_neighbor(menu, action))
        }),
{
    let menu = blueprint_available_actions(round, raise_amount);
    let ghost gmenu = spec_blueprint_menu(round as int, raise_amount as int);
    let mut closest_lower: Option<Action> = None;
    let mut closest_upper: Option<Action> = None;
    let mut i: usize = 0;
    while i < menu.len()
        invariant
            i <= menu@.len(),
            menu@ == gmenu,
            closest_lower matches Some(l) ==> l.action_type == action.action_type
                && l.raise_amount < action.raise_amount && gmenu.contains(l)
                && (forall|t: int| 0 <= t < i
                        && #[trigger] gmenu[t].action_type == action.action_type
                        && gmenu[t].raise_amount < action.raise_amount
                        ==> gmenu[t].raise_amount <= l.raise_amount),
            closest_lower is None ==> (forall|t: int| 0 <= t < i
                && #[trigger] gmenu[t].action_type == action.action_type
                ==> gmenu[t].raise_amount >= action.raise_amount),
            closest_upper matches Some(u) ==> u.action_type == action.action_type
                && u.raise_amount > action.raise_amount && gmenu.contains(u)
                && (forall|t: int| 0 <= t < i
                        && #[trigger] gmenu[t].action_type == action.action_type
                        && gmenu[t].raise_amount > action.raise_amount
                        ==> gmenu[t].raise_amount >= u.raise_amount),
            closest_upper is None ==> (forall|t: int| 0 <= t < i
                && #[trigger] gmenu[t].action_type == action.action_type
                ==> gmenu[t].raise_amount <= action.raise_amount),
        decreases menu@.len() - i,
    {
        let entry = menu[i];
        proof {
            assert(gmenu[i as int] == entry);
        }
        if entry.action_type == action.action_type {
            if entry.raise_amount < action.raise_amount {
                let replace = match closest_lower {
                    Some(l) => l.raise_amount < entry.raise_amount,
                    None => true,
                };
                if replace {
                    closest_lower = Some(entry);
                }
            } else if entry.raise_amount > action.raise_amount {
                let replace = match closest_upper {
                    Some(u) => u.raise_amount > entry.raise_amount,
                    None => true,
                };
                if replace {
                    closest_upper = Some(entry);
                }
            }
        }
        i += 1;
    }
    (closest_lower, closest_upper)
}

/// Chooses the lower of two menu neighbours with the pseudo-harmonic
/// probability f(a, b, x) = ((b - x)(1 + a)) / ((b - a)(1 + x)), where
/// the sizes are pot fractions; a fresh uniform draw u picks the lower
/// neighbour exactly when u <= f.
fn pick_lower_pseudo_harmonic(x: u16, a: u16, b: u16) -> (r: bool)
    requires
        a < x < b,
{
    let u = rng::random_u32();
    // u / 2^32 <= f(a, b, x), in exact integer arithmetic: the sizes are
    // hundredths, so 1 + a becomes 100 + a.
    proof {
        lemma_harmonic_products_fit(x as int, a as int, b as int, u as int);
    }
    let num: u128 = ((b - x) as u128) * ((100 + a as u32) as u128);
    let den: u128 = ((b - a) as u128) * ((100 + x as u32) as u128);
    (u as u128) * den <= num << 32
}

/// The products of the pseudo-harmonic comparison stay far inside
/// `u128`.
proof fn lemma_harmonic_products_fit(x: int, a: int, b: int, u: int)
    requires
        0 <= a < x < b < 0x10000,
        0 <= u < 0x1_0000_0000,
    ensures
        0 <= (b - x) * (100 + a) < 0x2_0000_0000,
        0 <= (b - a) * (100 + x) < 0x2_0000_0000,
        0 <= u * ((b - a) * (100 + x)) < 0x1_0000_0000_0000_0000_0000_0000,
{
    assert(0 <= (b - x) * (100 + a) < 0x2_0000_0000) by (nonlinear_arith)
        requires 0 <= a < x < b < 0x10000;
    assert(0 <= (b - a) * (100 + x) < 0x2_0000_0000) by (nonlinear_arith)
        requires 0 <= a < x < b < 0x10000;
    assert(0 <= u * ((b - a) * (100 + x)) < 0x1_0000_0000_0000_0000_0000_0000) by (nonlinear_arith)
        requires
            0 <= u < 0x1_0000_0000,
            0 <= (b - a) * (100 + x) < 0x2_0000_0000,
    ;
}

/// Maps an action onto the blueprint menu of the given round and bet
/// depth. An on-menu action stays itself; an off-menu size snaps to its
/// closest lower or upper same-kind neighbour, choosing between the two
/// by randomized pseudo-harmonic rounding. The result always lies on the
/// menu and keeps the action's kind.
pub fn translate_action(action: Action, round: usize, raise_amount: usize) -> (r: Action)
    requires
        round < 4,
        raise_amount < spec_blueprint_depths(round as int),
        exists|i: int| 0 <= i < spec_blueprint_menu(round as int, raise_amount as int).len()
            && (#[trigger] spec_blueprint_menu(round as int, raise_amount as int)[i]).action_type
                == action.action_type,
    ensures
        spec_blueprint_menu(round as int, raise_amount as int).contains(r),
        r.action_type == action.action_type,
        spec_blueprint_menu(round as int, raise_amount as int).contains(action) ==> r == action,
        !spec_blueprint_menu(round as int, raise_amount as int).contains(action)
            ==> is_lower_neighbor(spec_blueprint_menu(round as int, raise_amount as int), action, r)
                || is_upper_neighbor(spec_blueprint_menu(round as int, raise_amount as int), action, r),
{
    let ghost gmenu = spec_blueprint_menu(round as int, raise_amount as int);
    let menu = blueprint_available_actions(round, raise_amount);
    let mut on_menu = false;
    let mut i: usize = 0;
    while i < menu.len()
        invariant
            i <= menu@.len(),
            menu@ == gmenu,
            on_menu ==> gmenu.contains(action),
            !on_menu ==> (forall|t: int| 0 <= t < i ==> #[trigger] gmenu[t] != action),
        decreases menu@.len() - i,
    {
        if menu[i] == action {
            on_menu = true;
            proof {
                assert(gmenu[i as int] == action);
            }
            i = menu.len();
        } else {
            i += 1;
        }
    }
    if on_menu {
        return action;
    }
    proof {
        assert(!gmenu.contains(action));
    }
    let (closest_lower, closest_upper) = get_lower_upper_action_from_abstraction(
        action, round, raise_amount);
    match (closest_lower, closest_upper) {
        (Some(lower), Some(upper)) => {
            if pick_lower_pseudo_harmonic(action.raise_amount, lower.raise_amount, upper.raise_amount) {
                lower
            } else {
                upper
            }
        },
        (Some(lower), None) => lower,
        (None, Some(upper)) => upper,
        (None, None) => {
            // A same-kind entry exists, so it is neither below nor above
            // the action's size: it is the action itself, against the
            // membership test above.
            proof {
                let i0 = choose|i: int| 0 <= i < gmenu.len()
                    && (#[trigger] gmenu[i]).action_type == action.action_type;
                assert(gmenu[i0].raise_amount == action.raise_amount);
                assert(gmenu[i0] == action);
                assert(gmenu.contains(action));
            }
            action
        },
    }
}

} // verus!
