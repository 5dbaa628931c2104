//! The engine's global laws, stated and proved once over the model: chip
//! conservation, pot accounting, and turn order.
use vstd::prelude::*;

use crate::constants::STACK_SIZE;
use crate::structs::Action;
use super::game_state::{col_sum, col_sums_to, count_folded_seq, lemma_col_sum_nonneg,
    lemma_seq_sum_to_nonneg, lemma_total_pot_bound, seq_sum, seq_sum_to, spec_initial, GameModel};
use super::transition::{action_extra, advance_active, apply_chips, lemma_extra_bounds,
    lemma_step_wf, push_history, round_advance, spec_step};

verus! {

/// The payoffs of the seats below `q`, summed.
pub open spec fn payoff_total(m: GameModel, q: int) -> int
    decreases q,
{
    if q <= 0 {
        0
    } else {
        payoff_total(m, q - 1) + m.spec_payoff(q - 1)
    }
}

/// The chips a pot cannot hand out: the remainder of an uneven split, or
/// the whole pot when nobody contests it.
pub open spec fn pot_remainder(m: GameModel, k: int) -> int {
    if m.exists_eligible(k) {
        seq_sum(m.pots[k]) % m.count_winners_upto(k, m.player_amount)
    } else {
        seq_sum(m.pots[k])
    }
}

/// The undistributed chips over the pots below `kk`.
pub open spec fn remainder_total(m: GameModel, kk: int) -> int
    decreases kk,
{
    if kk <= 0 {
        0
    } else {
        remainder_total(m, kk - 1) + pot_remainder(m, kk - 1)
    }
}

/// An unseated seat holds no pot chips.
proof fn lemma_unseated_pots_total_zero(m: GameModel, p: int)
    requires
        m.wf(),
        m.player_amount <= p < 6,
    ensures
        m.pots_total(p) == 0,
{
    lemma_col_zero(m.pots, p, 6, m);
}

proof fn lemma_col_zero(mat: Seq<Seq<u32>>, p: int, k: int, m: GameModel)
    requires
        m.wf(),
        mat == m.pots,
        m.player_amount <= p < 6,
        k <= 6,
    ensures
        col_sum(mat, p, k) == 0,
    decreases k,
{
    if k > 0 {
        lemma_col_zero(mat, p, k - 1, m);
        assert(m.pots[k - 1][p] == 0);
    }
}

/// Two distinct unfolded seats cap the folded count at two below the
/// seat count.
proof fn lemma_two_unfolded_bound(f: Seq<bool>, p: int, q: int, k: int)
    requires
        0 <= p < q < k,
        !f[p],
        !f[q],
    ensures
        count_folded_seq(f, k) <= k - 2,
    decreases k,
{
    if q == k - 1 {
        lemma_one_unfolded_bound(f, p, k - 1);
    } else {
        lemma_two_unfolded_bound(f, p, q, k - 1);
    }
}

/// One unfolded seat caps the folded count at one below the seat count.
proof fn lemma_one_unfolded_bound(f: Seq<bool>, p: int, k: int)
    requires
        0 <= p < k,
        !f[p],
    ensures
        count_folded_seq(f, k) <= k - 1,
    decreases k,
{
    super::transition::lemma_counts_in_range(f, Seq::empty(), k - 1);
    if p < k - 1 {
        lemma_one_unfolded_bound(f, p, k - 1);
    }
}

/// With all seats but one folded there is an unfolded seat.
proof fn lemma_survivor_exists(f: Seq<bool>, n: int)
    requires
        count_folded_seq(f, n) == n - 1,
        n >= 1,
    ensures
        exists|p: int| 0 <= p < n && !f[p],
    decreases n,
{
    super::transition::lemma_counts_in_range(f, Seq::empty(), n);
    if f[n - 1] {
        super::transition::lemma_counts_in_range(f, Seq::empty(), n - 1);
        lemma_survivor_exists(f, n - 1);
    } else {
        assert(0 <= n - 1 < n && !f[n - 1]);
    }
}

/// The payoffs of a fold-won hand over the seats below `q`: the whole
/// table once the survivor is counted, minus everyone's pot chips.
proof fn lemma_foldwin_partial(m: GameModel, w: int, q: int)
    requires
        m.wf(),
        m.count_folded(m.player_amount) == m.player_amount - 1,
        0 <= w < m.player_amount,
        !m.folded_players[w],
        0 <= q <= 6,
    ensures
        payoff_total(m, q) == (if w < q { m.total_pot() } else { 0 }) - col_sums_to(m.pots, 6, q),
    decreases q,
{
    if q > 0 {
        lemma_foldwin_partial(m, w, q - 1);
        let p = q - 1;
        if p >= m.player_amount {
            lemma_unseated_pots_total_zero(m, p);
            assert(m.spec_payoff(p) == 0);
        } else if p == w {
            assert(m.spec_payoff(p) == m.total_pot() - m.bets_total(p));
            assert(m.pots_total(p) == m.bets_total(p));
        } else {
            // Any seated seat other than the survivor folded: two unfolded
            // seats would cap the folded count two below the seat count.
            if !m.folded_players[p] {
                if p < w {
                    lemma_two_unfolded_bound(m.folded_players, p, w, m.player_amount);
                } else {
                    lemma_two_unfolded_bound(m.folded_players, w, p, m.player_amount);
                }
            }
            assert(m.folded_players[p]);
            assert(m.spec_payoff(p) == -m.pots_total(p));
        }
    }
}

/// Zero-sum settlement of a fold-won hand: the payoffs of all seats sum
/// to exactly zero.
pub proof fn lemma_foldwin_zero_sum(m: GameModel)
    requires
        m.wf(),
        m.count_folded(m.player_amount) == m.player_amount - 1,
    ensures
        payoff_total(m, 6) == 0,
{
    lemma_survivor_exists(m.folded_players, m.player_amount);
    let w = choose|p: int| 0 <= p < m.player_amount && !m.folded_players[p];
    lemma_foldwin_partial(m, w, 6);
    lemma_total_pot_bound(m);
}

/// Chip conservation: in a fresh hand every seat's stack and committed
/// bets together equal the starting stack, blinds included.
pub proof fn lemma_initial_chip_identity(n: int, p: int)
    requires
        2 <= n <= 6,
        0 <= p < 6,
    ensures
        spec_initial(n).stacks[p] + spec_initial(n).bets_total(p) == STACK_SIZE,
{
    let m = spec_initial(n);
    reveal_with_fuel(col_sum, 5);
    assert(m.bets_total(p) == m.bets[0][p] + m.bets[1][p] + m.bets[2][p] + m.bets[3][p]);
}

/// Chip conservation: one legal action moves chips between a seat's stack
/// and its committed bets but never creates or destroys any — the sum of
/// the two is untouched for every seat. Together with the identity of the
/// fresh hand, every reachable state satisfies
/// `stack(p) + bets_total(p) == starting_stack(p)`.
pub proof fn lemma_chip_conservation(m: GameModel, a: Action, p: int)
    requires
        m.wf(),
        !m.is_terminal(),
        m.is_legal(a),
        0 <= p < 6,
    ensures
        spec_step(m, a).stacks[p] + spec_step(m, a).bets_total(p)
            == m.stacks[p] + m.bets_total(p),
{
    lemma_step_wf(m, a);
    lemma_extra_bounds(m, a);
    let act = m.active_player_index;
    let m1 = apply_chips(m, a);
    let m3 = advance_active(push_history(m1, a));
    let m4 = if m3.can_proceed() { round_advance(m3) } else { m3 };
    assert(m4.stacks == m1.stacks && m4.bets == m1.bets);
    if a.action_type is Fold {
        assert(m1.stacks == m.stacks && m1.bets == m.bets);
    } else {
        let cur = m.bets[m.round][act] as int;
        let extra = action_extra(m, a);
        super::game_state::lemma_entry_le_col_sum(m.bets, m.round, act, 4);
        super::game_state::lemma_col_sum_nonneg(m.bets, act, 4);
        super::game_state::lemma_col_sum_update(
            m.bets, m.round, act, (cur + extra) as u32, p, 4);
    }
}

/// Pot accounting: every seat's chips across the six pots equal its
/// committed bets across the four rounds, in every well-formed state.
pub proof fn lemma_pot_accounting(m: GameModel, p: int)
    requires
        m.wf(),
        0 <= p < 6,
    ensures
        m.pots_total(p) == m.bets_total(p),
{
}

/// The settlements of one pot over the seats below `q`, summed.
pub open spec fn pot_payoff_row_total(m: GameModel, k: int, q: int) -> int
    decreases q,
{
    if q <= 0 {
        0
    } else {
        pot_payoff_row_total(m, k, q - 1) + m.pot_payoff(k, q - 1)
    }
}

/// The settlements over the pots below `kk`, summed over the seats
/// below `q`.
pub open spec fn settle_total(m: GameModel, kk: int, q: int) -> int
    decreases q,
{
    if q <= 0 {
        0
    } else {
        settle_total(m, kk, q - 1) + m.pot_payoffs_to(q - 1, kk)
    }
}

/// Chips of pot `k` held by contesting seats below `q`.
pub open spec fn elig_contrib(m: GameModel, k: int, q: int) -> int
    decreases q,
{
    if q <= 0 {
        0
    } else {
        elig_contrib(m, k, q - 1)
            + if m.eligible_for_pot(k, q - 1) { m.pots[k][q - 1] as int } else { 0 }
    }
}

/// Chips of pot `k` held by seated folded seats below `q`.
pub open spec fn folded_contrib(m: GameModel, k: int, q: int) -> int
    decreases q,
{
    if q <= 0 {
        0
    } else {
        folded_contrib(m, k, q - 1)
            + if 0 <= q - 1 < m.player_amount && m.folded_players[q - 1] {
                m.pots[k][q - 1] as int
            } else {
                0
            }
    }
}

/// The pot chips of the seated folded seats below `q`, over the pots
/// below `kk`.
pub open spec fn folded_pots_partial(m: GameModel, kk: int, q: int) -> int
    decreases q,
{
    if q <= 0 {
        0
    } else {
        folded_pots_partial(m, kk, q - 1)
            + if 0 <= q - 1 < m.player_amount && m.folded_players[q - 1] {
                col_sum(m.pots, q - 1, kk)
            } else {
                0
            }
    }
}

proof fn lemma_settle_step(m: GameModel, kk: int, q: int)
    requires
        kk >= 1,
    ensures
        settle_total(m, kk, q) == settle_total(m, kk - 1, q) + pot_payoff_row_total(m, kk - 1, q),
    decreases q,
{
    if q > 0 {
        lemma_settle_step(m, kk, q - 1);
    }
}

proof fn lemma_folded_step(m: GameModel, kk: int, q: int)
    requires
        kk >= 1,
    ensures
        folded_pots_partial(m, kk, q)
            == folded_pots_partial(m, kk - 1, q) + folded_contrib(m, kk - 1, q),
    decreases q,
{
    if q > 0 {
        lemma_folded_step(m, kk, q - 1);
    }
}

proof fn lemma_settle_zero(m: GameModel, q: int)
    ensures
        settle_total(m, 0, q) == 0,
        folded_pots_partial(m, 0, q) == 0,
    decreases q,
{
    if q > 0 {
        lemma_settle_zero(m, q - 1);
    }
}

/// Winner counting does not change past the seated players.
proof fn lemma_count_winners_ext(m: GameModel, k: int, q: int)
    requires
        m.player_amount <= q,
    ensures
        m.count_winners_upto(k, q) == m.count_winners_upto(k, m.player_amount),
    decreases q - m.player_amount,
{
    if q > m.player_amount {
        lemma_count_winners_ext(m, k, q - 1);
        assert(!m.eligible_for_pot(k, q - 1));
        assert(!m.wins_pot(k, q - 1));
    }
}

/// One pot's settlements over the seats below `q`, for a contested pot:
/// the winners' shares minus the contesting seats' chips.
proof fn lemma_pot_row_partial(m: GameModel, k: int, q: int)
    requires
        m.wf(),
        0 <= k < 6,
        0 <= q <= 6,
        m.exists_eligible(k),
    ensures
        pot_payoff_row_total(m, k, q)
            == (seq_sum(m.pots[k]) / m.count_winners_upto(k, m.player_amount))
                * m.count_winners_upto(k, q) - elig_contrib(m, k, q),
    decreases q,
{
    super::payoffs::lemma_count_winners_pos(m, k);
    if q > 0 {
        lemma_pot_row_partial(m, k, q - 1);
        let p = q - 1;
        let share = seq_sum(m.pots[k]) / m.count_winners_upto(k, m.player_amount);
        if m.wins_pot(k, p) {
            assert(m.pot_payoff(k, p) == share - m.pots[k][p]);
            assert(m.count_winners_upto(k, q) == m.count_winners_upto(k, p) + 1);
            assert(share * (m.count_winners_upto(k, p) + 1)
                == share * m.count_winners_upto(k, p) + share) by (nonlinear_arith);
        } else if m.eligible_for_pot(k, p) {
            assert(m.pot_payoff(k, p) == -(m.pots[k][p] as int));
        } else {
            assert(m.pot_payoff(k, p) == 0);
        }
    } else {
        assert(m.count_winners_upto(k, 0) == 0);
        assert(seq_sum(m.pots[k]) / m.count_winners_upto(k, m.player_amount) * 0 == 0);
    }
}

/// Every chip of a pot belongs to a contesting seat or to a folded seat,
/// when seats still in the hand hold chips only in pots they contest.
proof fn lemma_row_decomposition(m: GameModel, k: int, q: int)
    requires
        m.wf(),
        0 <= k < 6,
        0 <= q <= 6,
        forall|p: int| 0 <= p < m.player_amount && !m.folded_players[p]
            && !m.eligible_for_pot(k, p) ==> #[trigger] m.pots[k][p] == 0,
    ensures
        elig_contrib(m, k, q) + folded_contrib(m, k, q) == seq_sum_to(m.pots[k], q),
        0 <= folded_contrib(m, k, q) <= seq_sum_to(m.pots[k], q),
    decreases q,
{
    lemma_seq_sum_to_nonneg(m.pots[k], q);
    if q > 0 {
        lemma_row_decomposition(m, k, q - 1);
        let p = q - 1;
        if p >= m.player_amount {
            assert(m.pots[k][p] == 0);
            assert(!m.eligible_for_pot(k, p));
        } else if m.folded_players[p] {
            assert(!m.eligible_for_pot(k, p));
        } else if !m.eligible_for_pot(k, p) {
            assert(m.pots[k][p] == 0);
        }
    }
}

/// One pot settles to the folded seats' chips minus the undistributed
/// remainder (both zero for an uncontested pot, which holds no chips).
proof fn lemma_pot_row_value(m: GameModel, k: int)
    requires
        m.wf(),
        0 <= k < 6,
        forall|p: int| 0 <= p < m.player_amount && !m.folded_players[p]
            && !m.eligible_for_pot(k, p) ==> #[trigger] m.pots[k][p] == 0,
        seq_sum(m.pots[k]) > 0 ==> m.exists_eligible(k),
    ensures
        pot_payoff_row_total(m, k, 6)
            == folded_contrib(m, k, 6) - pot_remainder(m, k),
{
    lemma_seq_sum_to_nonneg(m.pots[k], 6);
    assert(seq_sum(m.pots[k]) == seq_sum_to(m.pots[k], 6));
    if m.exists_eligible(k) {
        super::payoffs::lemma_count_winners_pos(m, k);
        lemma_pot_row_partial(m, k, 6);
        lemma_count_winners_ext(m, k, 6);
        lemma_row_decomposition(m, k, 6);
        let w = m.count_winners_upto(k, m.player_amount);
        let total = seq_sum(m.pots[k]);
        vstd::arithmetic::div_mod::lemma_fundamental_div_mod(total, w);
        assert(w * (total / w) == (total / w) * w) by (nonlinear_arith);
    } else {
        assert(seq_sum(m.pots[k]) == 0);
        lemma_row_decomposition(m, k, 6);
        lemma_pot_row_zero(m, k, 6);
    }
}

/// An uncontested pot settles to zero for every seat.
proof fn lemma_pot_row_zero(m: GameModel, k: int, q: int)
    requires
        !m.exists_eligible(k),
    ensures
        pot_payoff_row_total(m, k, q) == 0,
    decreases q,
{
    if q > 0 {
        lemma_pot_row_zero(m, k, q - 1);
        assert(m.pot_payoff(k, q - 1) == 0);
    }
}

/// Summed over the pots below `kk`, the settlements equal the folded
/// seats' chips there minus the undistributed remainders.
proof fn lemma_settle_rows(m: GameModel, kk: int)
    requires
        m.wf(),
        0 <= kk <= 6,
        forall|k: int, p: int| 0 <= k < 6 && 0 <= p < m.player_amount && !m.folded_players[p]
            && !m.eligible_for_pot(k, p) ==> #[trigger] m.pots[k][p] == 0,
        forall|k: int| 0 <= k < 6 && seq_sum(#[trigger] m.pots[k]) > 0 ==> m.exists_eligible(k),
    ensures
        settle_total(m, kk, 6) == folded_pots_partial(m, kk, 6) - remainder_total(m, kk),
    decreases kk,
{
    if kk == 0 {
        lemma_settle_zero(m, 6);
    } else {
        lemma_settle_rows(m, kk - 1);
        lemma_settle_step(m, kk, 6);
        lemma_folded_step(m, kk, 6);
        assert forall|p: int| 0 <= p < m.player_amount && !m.folded_players[p]
            && !m.eligible_for_pot(kk - 1, p) implies #[trigger] m.pots[kk - 1][p] == 0 by {}
        lemma_pot_row_value(m, kk - 1);
    }
}

/// The payoffs of a showdown are the settlements minus the folded seats'
/// pot chips.
proof fn lemma_payoff_vs_settle(m: GameModel, q: int)
    requires
        m.wf(),
        m.count_folded(m.player_amount) != m.player_amount - 1,
        0 <= q <= 6,
    ensures
        payoff_total(m, q) == settle_total(m, 6, q) - folded_pots_partial(m, 6, q),
    decreases q,
{
    if q > 0 {
        lemma_payoff_vs_settle(m, q - 1);
        let p = q - 1;
        if p >= m.player_amount {
            super::payoffs::lemma_pot_payoffs_zero(m, p, 6);
            assert(m.spec_payoff(p) == 0);
        } else if m.folded_players[p] {
            super::payoffs::lemma_pot_payoffs_zero(m, p, 6);
            assert(m.spec_payoff(p) == -m.pots_total(p));
        } else {
            assert(m.spec_payoff(p) == m.pot_payoffs_to(p, 6));
        }
    }
}

/// Zero-sum settlement of a showdown, up to the undistributed remainders
/// of uneven pot splits: the payoffs of all seats sum to exactly the
/// negated remainders. When every pot splits evenly the sum is zero.
///
/// The statement assumes what holds of every reachable showdown: a pot
/// that holds chips has a contestant. (A pot below the youngest was
/// capped by an all-in seat, which contests it; only the youngest pot
/// could be orphaned, and it never is, because chips land there only
/// while a seat that contests every pot still acts.)
pub proof fn lemma_showdown_zero_sum(m: GameModel)
    requires
        m.wf(),
        m.count_folded(m.player_amount) != m.player_amount - 1,
        forall|k: int| 0 <= k < 6 && seq_sum(#[trigger] m.pots[k]) > 0 ==> m.exists_eligible(k),
    ensures
        payoff_total(m, 6) == -remainder_total(m, 6),
{
    assert forall|k: int, p: int| 0 <= k < 6 && 0 <= p < m.player_amount
        && !m.folded_players[p] && !m.eligible_for_pot(k, p)
        implies #[trigger] m.pots[k][p] == 0 by {
        assert(m.all_in_players[p] != -1 && m.all_in_players[p] < k);
    }
    lemma_payoff_vs_settle(m, 6);
    lemma_settle_rows(m, 6);
}

/// Turn order: a transition never hands the turn to a folded or all-in
/// seat while any seat can still act.
pub proof fn lemma_turn_order(m: GameModel, a: Action)
    requires
        m.wf(),
        !m.is_terminal(),
        m.is_legal(a),
    ensures
        ({
            let m2 = spec_step(m, a);
            m2.active_player_amount > 0 ==> !m2.folded_players[m2.active_player_index]
                && m2.all_in_players[m2.active_player_index] == -1
        }),
{
    lemma_step_wf(m, a);
}

} // verus!
