//! The transition relation of the state machine: legality of an action in
//! a state, and the exact successor state that applying it produces.
use vstd::prelude::*;

use crate::constants::{BIG_BLIND, PLAYER_CHIP_LIMIT};
use crate::structs::{Action, ActionType};
use super::game_state::{
    chips_wf, col_sum, count_allin_seq, count_bets, count_calls, count_eligible_seq,
    count_folded_seq, flags_wf, caps_wf, pot_bounds_wf,
    lemma_col_sum_nonneg, lemma_col_sum_update, lemma_entry_le_col_sum, lemma_entry_le_seq_max,
    lemma_seq_max_attained, seq_max, zero_row, GameModel,
};

verus! {

/// The smaller of two chip amounts.
pub open spec fn min_chips(a: int, b: int) -> int {
    if a <= b {
        a
    } else {
        b
    }
}

impl GameModel {
    /// The raise a bet of multiplier `m` (hundredths of the pot) asks
    /// for: the floor of (total pot + call amount) times `m` over 100.
    pub open spec fn bet_raise_amount(self, m: u16) -> int {
        ((self.total_pot() + self.call_amount()) * m) / 100
    }

    /// Legality of one action, the single truth the menu filter and the
    /// transition rely on. Folding is legal only when there is something
    /// to call; calling only while it leaves chips behind (an exact match
    /// is an all-in); going all-in always; betting only when the raise
    /// meets the minimum raise and is affordable together with the call.
    pub open spec fn is_legal(self, a: Action) -> bool {
        match a.action_type {
            ActionType::Fold => self.call_amount() > 0,
            ActionType::Call => self.stacks[self.active_player_index] > self.call_amount(),
            ActionType::AllIn => true,
            ActionType::Bet => {
                let raise = self.bet_raise_amount(a.raise_amount);
                raise >= self.minimum_raise_amount
                    && self.call_amount() + raise <= self.stacks[self.active_player_index]
            },
        }
    }
}

/// Chips that the side-pot walk moves into pots 0 to `k` (exclusive), for
/// a player whose round bets already stand at `cur` and who now commits
/// `extra` chips: each capped pot soaks up chips until the player's level
/// reaches its cap.
pub open spec fn spec_consumed(caps: Seq<u32>, cur: int, extra: int, k: int) -> int
    decreases k,
{
    if k <= 0 {
        0
    } else {
        let prev = spec_consumed(caps, cur, extra, k - 1);
        let c = cur + prev;
        if caps[k - 1] > c {
            prev + min_chips(caps[k - 1] - c, extra - prev)
        } else {
            prev
        }
    }
}

/// Chips the walk moves into pot `k` itself.
pub open spec fn spec_pot_share(caps: Seq<u32>, cur: int, extra: int, k: int) -> int {
    spec_consumed(caps, cur, extra, k + 1) - spec_consumed(caps, cur, extra, k)
}

/// The pots after one contribution of `extra` chips by seat `act`: each
/// capped pot receives its share, and what remains lands in the open pot
/// `cp`.
pub open spec fn spec_distribute(
    pots: Seq<Seq<u32>>,
    caps: Seq<u32>,
    cp: int,
    act: int,
    cur: int,
    extra: int,
) -> Seq<Seq<u32>> {
    let residual = extra - spec_consumed(caps, cur, extra, 6);
    let shared = Seq::new(6, |k: int|
        pots[k].update(act, (pots[k][act] + spec_pot_share(caps, cur, extra, k)) as u32));
    shared.update(cp, shared[cp].update(act, (shared[cp][act] + residual) as u32))
}

/// The first seat at or after `i` (walking at most `tries` seats,
/// wrapping at `n`) that may still act; `fallback` when none can.
pub open spec fn find_eligible_from(
    folded: Seq<bool>,
    all_in: Seq<i32>,
    n: int,
    i: int,
    tries: int,
    fallback: int,
) -> int
    decreases tries,
{
    if tries <= 0 {
        fallback
    } else if !folded[i] && all_in[i] == -1 {
        i
    } else {
        find_eligible_from(folded, all_in, n, (i + 1) % n, tries - 1, fallback)
    }
}

/// The seat that opens a betting round: the big blind heads-up, the small
/// blind otherwise.
pub open spec fn round_start_seat(n: int) -> int {
    if n == 2 {
        1
    } else {
        0
    }
}

/// The chip movement of one action: stacks, per-round bets, pots, caps,
/// flags and counters, exactly as the rules prescribe. History, turn
/// order and round transition come after.
pub open spec fn apply_chips(m: GameModel, a: Action) -> GameModel {
    let act = m.active_player_index;
    if a.action_type is Fold {
        GameModel {
            folded_players: m.folded_players.update(act, true),
            active_player_amount: m.active_player_amount - 1,
            ..m
        }
    } else {
        let cur = m.bets[m.round][act] as int;
        let call = m.call_amount();
        if a.action_type is AllIn {
            let stack = m.stacks[act] as int;
            let new_min = if stack >= 2 * m.minimum_raise_amount && stack >= call {
                (stack - call) as u32
            } else {
                m.minimum_raise_amount
            };
            GameModel {
                minimum_raise_amount: new_min,
                pots: spec_distribute(m.pots, m.round_pot_caps, m.current_pot, act, cur, stack),
                round_pot_caps: m.round_pot_caps.update(m.current_pot, (cur + stack) as u32),
                all_in_players: m.all_in_players.update(act, m.current_pot as i32),
                current_pot: m.current_pot + 1,
                active_player_amount: m.active_player_amount - 1,
                stacks: m.stacks.update(act, 0),
                bets: m.bets.update(m.round, m.bets[m.round].update(act, (cur + stack) as u32)),
                ..m
            }
        } else {
            let raise = if a.action_type is Bet { m.bet_raise_amount(a.raise_amount) } else { 0 };
            let extra = call + raise;
            let new_min = if a.action_type is Bet { raise as u32 } else { m.minimum_raise_amount };
            GameModel {
                minimum_raise_amount: new_min,
                pots: spec_distribute(m.pots, m.round_pot_caps, m.current_pot, act, cur, extra),
                stacks: m.stacks.update(act, (m.stacks[act] - extra) as u32),
                bets: m.bets.update(m.round, m.bets[m.round].update(act, (cur + extra) as u32)),
                ..m
            }
        }
    }
}

/// Appends the action to the current round's history.
pub open spec fn push_history(m: GameModel, a: Action) -> GameModel {
    GameModel { history: m.history.update(m.round, m.history[m.round].push(a)), ..m }
}

/// Hands the turn to the next seat after the acting one that can still
/// act; when none can, the seat stays.
pub open spec fn advance_active(m: GameModel) -> GameModel {
    GameModel {
        active_player_index: find_eligible_from(
            m.folded_players,
            m.all_in_players,
            m.player_amount,
            (m.active_player_index + 1) % m.player_amount,
            m.player_amount,
            m.active_player_index,
        ),
        ..m
    }
}

/// Opens the next betting round: the minimum raise resets to the big
/// blind, the round's side-pot caps are cleared, and the first seat from
/// the round's starting seat that can still act receives the turn.
pub open spec fn round_advance(m: GameModel) -> GameModel {
    GameModel {
        round: m.round + 1,
        minimum_raise_amount: BIG_BLIND,
        round_pot_caps: zero_row(),
        active_player_index: find_eligible_from(
            m.folded_players,
            m.all_in_players,
            m.player_amount,
            round_start_seat(m.player_amount),
            m.player_amount,
            round_start_seat(m.player_amount),
        ),
        ..m
    }
}

/// The successor state of one legal action: chips move, the action is
/// recorded, the turn advances, and the round closes when its betting
/// action is finished.
pub open spec fn spec_step(m: GameModel, a: Action) -> GameModel {
    let moved = advance_active(push_history(apply_chips(m, a), a));
    if moved.can_proceed() {
        round_advance(moved)
    } else {
        moved
    }
}

// ------------------------------------------------------------------
// Facts about the side-pot walk.
// ------------------------------------------------------------------

/// The consumed amounts are monotone and stay between 0 and `extra`.
pub proof fn lemma_consumed_bounds(caps: Seq<u32>, cur: int, extra: int, k: int)
    requires
        extra >= 0,
    ensures
        0 <= spec_consumed(caps, cur, extra, k) <= extra,
        k >= 1 ==> spec_consumed(caps, cur, extra, k - 1) <= spec_consumed(caps, cur, extra, k),
    decreases k,
{
    if k > 0 {
        lemma_consumed_bounds(caps, cur, extra, k - 1);
    }
}

/// The consumed amounts grow with the number of pots walked.
pub proof fn lemma_consumed_mono(caps: Seq<u32>, cur: int, extra: int, k1: int, k2: int)
    requires
        extra >= 0,
        k1 <= k2,
    ensures
        spec_consumed(caps, cur, extra, k1) <= spec_consumed(caps, cur, extra, k2),
    decreases k2 - k1,
{
    if k1 < k2 {
        lemma_consumed_mono(caps, cur, extra, k1, k2 - 1);
        lemma_consumed_bounds(caps, cur, extra, k2);
    }
}

/// A pot without a cap takes no share of the walk.
pub proof fn lemma_share_zero(caps: Seq<u32>, cur: int, extra: int, k: int)
    requires
        0 <= k < caps.len(),
        caps[k] == 0,
        cur >= 0,
        extra >= 0,
    ensures
        spec_pot_share(caps, cur, extra, k) == 0,
{
    lemma_consumed_bounds(caps, cur, extra, k);
}

/// Column sums of the distributed pots: seat `act` gains exactly `extra`
/// chips over the six pots, every other seat's chips stay.
pub proof fn lemma_distribute_col_sums(
    pots: Seq<Seq<u32>>,
    caps: Seq<u32>,
    cp: int,
    act: int,
    cur: int,
    extra: int,
    q: int,
)
    requires
        pots.len() == 6,
        forall|k: int| 0 <= k < 6 ==> #[trigger] pots[k].len() == 6,
        0 <= cp < 6,
        0 <= act < 6,
        0 <= q < 6,
        extra >= 0,
        col_sum(pots, act, 6) + extra <= PLAYER_CHIP_LIMIT,
        forall|k: int| 0 <= k < 6 ==> #[trigger] pots[k][act] <= col_sum(pots, act, 6),
    ensures
        col_sum(spec_distribute(pots, caps, cp, act, cur, extra), q, 6)
            == col_sum(pots, q, 6) + if q == act { extra } else { 0 },
        forall|k: int| 0 <= k < 6 ==>
            #[trigger] spec_distribute(pots, caps, cp, act, cur, extra)[k].len() == 6,
        forall|k: int, p: int| 0 <= k < 6 && 0 <= p < 6 && p != act ==>
            #[trigger] spec_distribute(pots, caps, cp, act, cur, extra)[k][p] == pots[k][p],
        forall|k: int| 0 <= k < 6 ==>
            #[trigger] spec_distribute(pots, caps, cp, act, cur, extra)[k][act] as int
                == pots[k][act] + spec_pot_share(caps, cur, extra, k)
                    + if k == cp { extra - spec_consumed(caps, cur, extra, 6) } else { 0 },
{
    let d = spec_distribute(pots, caps, cp, act, cur, extra);
    let residual = extra - spec_consumed(caps, cur, extra, 6);
    lemma_consumed_bounds(caps, cur, extra, 6);
    assert forall|k: int| 0 <= k < 6 implies
        #[trigger] d[k].len() == 6
        && d[k][act] as int == pots[k][act] + spec_pot_share(caps, cur, extra, k)
            + if k == cp { residual } else { 0 }
        && (forall|p: int| 0 <= p < 6 && p != act ==> #[trigger] d[k][p] == pots[k][p]) by {
        lemma_consumed_bounds(caps, cur, extra, k);
        lemma_consumed_bounds(caps, cur, extra, k + 1);
        assert(0 <= spec_pot_share(caps, cur, extra, k) <= extra);
        assert(pots[k][act] <= col_sum(pots, act, 6));
        lemma_col_sum_nonneg(pots, act, 6);
    }
    assert forall|k: int| 0 <= k < 6 implies
        #[trigger] d[k][act] as int == pots[k][act] + spec_pot_share(caps, cur, extra, k)
            + if k == cp { residual } else { 0 } by {
        assert(d[k].len() == 6);
    }
    lemma_distribute_col_rec(pots, caps, cp, act, cur, extra, q, 6);
    assert(spec_consumed(caps, cur, extra, 0) == 0);
}

/// Column prefix sums of the distributed pots, by induction over the
/// rows: the prefix covering rows 0..k gains the consumed chips of those
/// rows, plus the residual when the open pot lies among them.
proof fn lemma_distribute_col_rec(
    pots: Seq<Seq<u32>>,
    caps: Seq<u32>,
    cp: int,
    act: int,
    cur: int,
    extra: int,
    q: int,
    k: int,
)
    requires
        pots.len() == 6,
        forall|k0: int| 0 <= k0 < 6 ==> #[trigger] pots[k0].len() == 6,
        0 <= cp < 6,
        0 <= act < 6,
        0 <= q < 6,
        0 <= k <= 6,
        extra >= 0,
        col_sum(pots, act, 6) + extra <= PLAYER_CHIP_LIMIT,
        forall|k0: int| 0 <= k0 < 6 ==> #[trigger] pots[k0][act] <= col_sum(pots, act, 6),
    ensures
        col_sum(spec_distribute(pots, caps, cp, act, cur, extra), q, k)
            == col_sum(pots, q, k) + if q == act {
                spec_consumed(caps, cur, extra, k)
                    + if cp < k { extra - spec_consumed(caps, cur, extra, 6) } else { 0 }
            } else {
                0
            },
    decreases k,
{
    let d = spec_distribute(pots, caps, cp, act, cur, extra);
    let residual = extra - spec_consumed(caps, cur, extra, 6);
    lemma_consumed_bounds(caps, cur, extra, 6);
    if k > 0 {
        lemma_distribute_col_rec(pots, caps, cp, act, cur, extra, q, k - 1);
        lemma_consumed_bounds(caps, cur, extra, k - 1);
        lemma_consumed_bounds(caps, cur, extra, k);
        assert(pots[k - 1][act] <= col_sum(pots, act, 6));
        lemma_col_sum_nonneg(pots, act, 6);
        if q == act {
            assert(d[k - 1][act] as int == pots[k - 1][act] + spec_pot_share(caps, cur, extra, k - 1)
                + if k - 1 == cp { residual } else { 0 });
        } else {
            assert(d[k - 1][q] == pots[k - 1][q]);
        }
    }
}

// ------------------------------------------------------------------
// Facts about the seat counters.
// ------------------------------------------------------------------

/// The three counters lie between 0 and `k`.
pub proof fn lemma_counts_in_range(folded: Seq<bool>, all_in: Seq<i32>, k: int)
    ensures
        0 <= count_eligible_seq(folded, all_in, k) <= if k >= 0 { k } else { 0 },
        0 <= count_allin_seq(all_in, k) <= if k >= 0 { k } else { 0 },
        0 <= count_folded_seq(folded, k) <= if k >= 0 { k } else { 0 },
    decreases k,
{
    if k > 0 {
        lemma_counts_in_range(folded, all_in, k - 1);
    }
}

/// A positive eligible count yields an eligible seat.
pub proof fn lemma_count_eligible_pos(folded: Seq<bool>, all_in: Seq<i32>, k: int)
    requires
        count_eligible_seq(folded, all_in, k) > 0,
    ensures
        exists|p: int| 0 <= p < k && !folded[p] && all_in[p] == -1,
    decreases k,
{
    if k > 0 {
        if !folded[k - 1] && all_in[k - 1] == -1 {
            assert(0 <= k - 1 < k && !folded[k - 1] && all_in[k - 1] == -1);
        } else {
            lemma_count_eligible_pos(folded, all_in, k - 1);
        }
    }
}

/// Folding seat `act` lowers the eligible count by one when `act` was
/// eligible and covered, raises the folded count accordingly, and leaves
/// the all-in count alone.
pub proof fn lemma_counts_after_fold(folded: Seq<bool>, all_in: Seq<i32>, act: int, k: int)
    requires
        0 <= act < folded.len(),
        k <= folded.len(),
    ensures
        count_eligible_seq(folded.update(act, true), all_in, k)
            == count_eligible_seq(folded, all_in, k)
                - if act < k && !folded[act] && all_in[act] == -1 { 1int } else { 0 },
        count_folded_seq(folded.update(act, true), k)
            == count_folded_seq(folded, k) + if act < k && !folded[act] { 1int } else { 0 },
    decreases k,
{
    if k > 0 {
        lemma_counts_after_fold(folded, all_in, act, k - 1);
    }
}

/// Marking seat `act` all-in at pot `v` lowers the eligible count by one
/// when `act` was eligible and covered, and raises the all-in count.
pub proof fn lemma_counts_after_allin(folded: Seq<bool>, all_in: Seq<i32>, act: int, v: i32, k: int)
    requires
        0 <= act < all_in.len(),
        k <= all_in.len(),
        v != -1,
    ensures
        count_eligible_seq(folded, all_in.update(act, v), k)
            == count_eligible_seq(folded, all_in, k)
                - if act < k && !folded[act] && all_in[act] == -1 { 1int } else { 0 },
        count_allin_seq(all_in.update(act, v), k)
            == count_allin_seq(all_in, k) + if act < k && all_in[act] == -1 { 1int } else { 0 },
    decreases k,
{
    if k > 0 {
        lemma_counts_after_allin(folded, all_in, act, v, k - 1);
    }
}

// ------------------------------------------------------------------
// Facts about the turn-order walk.
// ------------------------------------------------------------------

/// The walk stays among the seats (or lands on the fallback).
pub proof fn lemma_find_in_range(
    folded: Seq<bool>,
    all_in: Seq<i32>,
    n: int,
    i: int,
    tries: int,
    fallback: int,
)
    requires
        0 < n,
        0 <= i < n,
        0 <= fallback < n,
    ensures
        0 <= find_eligible_from(folded, all_in, n, i, tries, fallback) < n,
    decreases tries,
{
    if tries > 0 && !(!folded[i] && all_in[i] == -1) {
        vstd::arithmetic::div_mod::lemma_mod_bound(i + 1, n);
        lemma_find_in_range(folded, all_in, n, (i + 1) % n, tries - 1, fallback);
    }
}

/// With an eligible seat `p` within reach of the walk, the walk ends on
/// an eligible seat.
pub proof fn lemma_find_hits_eligible(
    folded: Seq<bool>,
    all_in: Seq<i32>,
    n: int,
    i: int,
    tries: int,
    fallback: int,
    p: int,
)
    requires
        0 < n,
        0 <= i < n,
        0 <= p < n,
        !folded[p] && all_in[p] == -1,
        tries >= 1 + if p >= i { p - i } else { p + n - i },
    ensures
        ({
            let r = find_eligible_from(folded, all_in, n, i, tries, fallback);
            0 <= r < n && !folded[r] && all_in[r] == -1
        }),
    decreases tries,
{
    if !folded[i] && all_in[i] == -1 {
    } else {
        assert(i != p);
        if i + 1 == n {
            vstd::arithmetic::div_mod::lemma_mod_self_0(n);
            assert((i + 1) % n == 0);
        } else {
            vstd::arithmetic::div_mod::lemma_small_mod((i + 1) as nat, n as nat);
            assert((i + 1) % n == i + 1);
        }
        lemma_find_hits_eligible(folded, all_in, n, (i + 1) % n, tries - 1, fallback, p);
    }
}

// ------------------------------------------------------------------
// The step preserves well-formedness.
// ------------------------------------------------------------------

/// The call amount of a well-formed state is a chip amount within the
/// limit, and at most the active player's own headroom plus the limit.
pub proof fn lemma_call_bounds(m: GameModel)
    requires
        m.wf(),
    ensures
        0 <= m.call_amount() <= PLAYER_CHIP_LIMIT,
{
    let row = m.bets[m.round];
    lemma_entry_le_seq_max(row, m.active_player_index);
    lemma_seq_max_attained(row);
    let i = choose|i: int| 0 <= i < row.len() && row[i] == seq_max(row);
    lemma_entry_le_col_sum(m.bets, m.round, i, 4);
    assert(m.stacks[i] + m.bets_total(i) <= PLAYER_CHIP_LIMIT);
    lemma_col_sum_nonneg(m.bets, m.active_player_index, 4);
    lemma_col_sum_nonneg(m.bets, i, 4);
}

/// The chips an action moves: non-negative, affordable from the acting
/// seat's stack.
pub open spec fn action_extra(m: GameModel, a: Action) -> int {
    match a.action_type {
        ActionType::Fold => 0,
        ActionType::Call => m.call_amount(),
        ActionType::AllIn => m.stacks[m.active_player_index] as int,
        ActionType::Bet => m.call_amount() + m.bet_raise_amount(a.raise_amount),
    }
}

/// For a legal action in a well-formed state the moved chips fit between
/// zero and the acting seat's stack.
pub proof fn lemma_extra_bounds(m: GameModel, a: Action)
    requires
        m.wf(),
        m.is_legal(a),
    ensures
        0 <= action_extra(m, a) <= m.stacks[m.active_player_index],
{
    lemma_call_bounds(m);
    if a.action_type is Bet {
        lemma_total_pot_nonneg(m);
        assert(m.bet_raise_amount(a.raise_amount) >= m.minimum_raise_amount >= 0);
    }
}

/// The total pot is non-negative.
pub proof fn lemma_total_pot_nonneg(m: GameModel)
    requires
        m.wf(),
    ensures
        m.total_pot() >= 0,
{
    super::game_state::lemma_mat_total_nonneg(m.pots, 6);
}

/// Applying a legal action to a well-formed, non-terminal state yields a
/// well-formed state.
pub proof fn lemma_step_wf(m: GameModel, a: Action)
    requires
        m.wf(),
        !m.is_terminal(),
        m.is_legal(a),
    ensures
        spec_step(m, a).wf(),
        advance_active(push_history(apply_chips(m, a), a)).wf(),
        m.active_player_amount > 0,
        0 <= action_extra(m, a) <= m.stacks[m.active_player_index],
        a.action_type is Fold || 0 <= m.current_pot < 6,
{
    let act = m.active_player_index;
    let n = m.player_amount;
    lemma_counts_in_range(m.folded_players, m.all_in_players, n);
    assert(m.active_player_amount > 0);
    assert(m.eligible(act));
    lemma_call_bounds(m);
    lemma_extra_bounds(m, a);
    lemma_allin_eligible_disjoint(m.folded_players, m.all_in_players, n);
    let m1 = apply_chips(m, a);
    lemma_apply_chips_wf(m, a);
    let m2 = push_history(m1, a);
    assert(m2.dims());
    let m3 = advance_active(m2);
    vstd::arithmetic::div_mod::lemma_mod_bound(act + 1, n);
    lemma_find_in_range(m2.folded_players, m2.all_in_players, n, (act + 1) % n, n, act);
    if m2.active_player_amount > 0 {
        lemma_count_eligible_pos(m2.folded_players, m2.all_in_players, n);
        let p = choose|p: int| 0 <= p < n && !m2.folded_players[p] && m2.all_in_players[p] == -1;
        lemma_find_hits_eligible(m2.folded_players, m2.all_in_players, n, (act + 1) % n, n, act, p);
    }
    assert(m3.dims());
    assert(2 <= m3.player_amount <= 6);
    assert(0 <= m3.round < 4);
    assert(0 <= m3.active_player_index < m3.player_amount);
    assert(0 <= m3.current_pot <= 6);
    assert(m3.current_pot == m3.count_allin(m3.player_amount));
    assert(m3.active_player_amount == m3.count_eligible(m3.player_amount));
    assert(m3.active_player_amount > 0 ==> m3.eligible(m3.active_player_index));
    assert(flags_wf(m3.folded_players, m3.all_in_players, m3.player_amount));
    assert(chips_wf(m3.pots, m3.bets, m3.stacks, m3.player_amount));
    assert(m3.minimum_raise_amount <= PLAYER_CHIP_LIMIT);
    assert(m3.wf());
    if m3.can_proceed() {
        let m4 = round_advance(m3);
        assert forall|k: int| m4.current_pot <= k < 6 implies #[trigger] zero_row()[k] == 0 by {}
        assert(caps_wf(m4.round_pot_caps, m4.current_pot));
        lemma_find_in_range(m3.folded_players, m3.all_in_players, n,
            round_start_seat(n), n, round_start_seat(n));
        lemma_count_eligible_pos(m3.folded_players, m3.all_in_players, n);
        let p = choose|p: int| 0 <= p < n && !m3.folded_players[p] && m3.all_in_players[p] == -1;
        lemma_find_hits_eligible(m3.folded_players, m3.all_in_players, n,
            round_start_seat(n), n, round_start_seat(n), p);
        assert(m4.wf());
    }
}

/// The chip-moving half of the step preserves well-formedness, except
/// that the turn may still rest on the seat that just acted.
proof fn lemma_apply_chips_wf(m: GameModel, a: Action)
    requires
        m.wf(),
        !m.is_terminal(),
        m.is_legal(a),
        m.active_player_amount > 0,
    ensures
        ({
            let m1 = apply_chips(m, a);
            &&& m1.dims()
            &&& m1.player_amount == m.player_amount
            &&& m1.round == m.round
            &&& 0 <= m1.active_player_index < m1.player_amount
            &&& 0 <= m1.current_pot <= 6
            &&& m1.current_pot == m1.count_allin(m1.player_amount)
            &&& m1.active_player_amount == m1.count_eligible(m1.player_amount)
            &&& flags_wf(m1.folded_players, m1.all_in_players, m1.player_amount)
            &&& chips_wf(m1.pots, m1.bets, m1.stacks, m1.player_amount)
            &&& pot_bounds_wf(m1.pots, m1.all_in_players, m1.current_pot)
            &&& caps_wf(m1.round_pot_caps, m1.current_pot)
            &&& m1.minimum_raise_amount <= PLAYER_CHIP_LIMIT
            &&& m1.history == m.history
        }),
{
    let act = m.active_player_index;
    let n = m.player_amount;
    let m1 = apply_chips(m, a);
    lemma_counts_in_range(m.folded_players, m.all_in_players, n);
    assert(m.eligible(act));
    lemma_call_bounds(m);
    lemma_extra_bounds(m, a);
    let cur = m.bets[m.round][act] as int;
    lemma_entry_le_col_sum(m.bets, m.round, act, 4);
    lemma_col_sum_nonneg(m.bets, act, 4);
    if a.action_type is Fold {
        lemma_counts_after_fold(m.folded_players, m.all_in_players, act, n);
        lemma_counts_after_fold(m.folded_players, m.all_in_players, act, 6);
        assert(m.count_allin(n) == count_allin_seq(m.all_in_players, n));
        assert(m1.folded_players =~= m.folded_players.update(act, true));
        assert(m1.pots == m.pots && m1.bets == m.bets && m1.stacks == m.stacks);
        assert(chips_wf(m1.pots, m1.bets, m1.stacks, n));
    } else {
        let extra = action_extra(m, a);
        assert(m.pots_total(act) == m.bets_total(act));
        assert(m.stacks[act] + m.bets_total(act) <= PLAYER_CHIP_LIMIT);
        assert(col_sum(m.pots, act, 6) + extra <= PLAYER_CHIP_LIMIT);
        assert forall|k: int| 0 <= k < 6 implies #[trigger] m.pots[k][act] <= col_sum(m.pots, act, 6) by {
            lemma_entry_le_col_sum(m.pots, k, act, 6);
        }
        assert(0 <= m.current_pot < 6) by {
            lemma_allin_eligible_disjoint(m.folded_players, m.all_in_players, n);
        }
        let newbet = (cur + extra) as u32;
        assert(0 <= cur + extra <= PLAYER_CHIP_LIMIT);
        if a.action_type is AllIn {
            lemma_counts_after_allin(m.folded_players, m.all_in_players, act, m.current_pot as i32, n);
            lemma_counts_after_allin(m.folded_players, m.all_in_players, act, m.current_pot as i32, 6);
        }
        assert(m1.pots == spec_distribute(m.pots, m.round_pot_caps, m.current_pot, act, cur, extra));
        assert(m1.bets == m.bets.update(m.round, m.bets[m.round].update(act, newbet)));
        assert forall|k: int| 0 <= k < 6 implies #[trigger] m1.pots[k].len() == 6 by {
            lemma_distribute_col_sums(m.pots, m.round_pot_caps, m.current_pot, act, cur, extra, 0);
        }
        assert forall|r: int| 0 <= r < 4 implies #[trigger] m1.bets[r].len() == 6 by {}
        assert forall|p: int| 0 <= p < 6 implies
            #[trigger] col_sum(m1.pots, p, 6) == col_sum(m1.bets, p, 4) by {
            assert(col_sum(m.pots, p, 6) == col_sum(m.bets, p, 4));
            lemma_distribute_col_sums(m.pots, m.round_pot_caps, m.current_pot, act, cur, extra, p);
            lemma_col_sum_update(m.bets, m.round, act, newbet, p, 4);
        }
        assert forall|p: int| 0 <= p < 6 implies
            #[trigger] (m1.stacks[p] + col_sum(m1.bets, p, 4)) <= PLAYER_CHIP_LIMIT by {
            assert(m.stacks[p] + col_sum(m.bets, p, 4) <= PLAYER_CHIP_LIMIT);
            lemma_col_sum_update(m.bets, m.round, act, newbet, p, 4);
        }
        assert forall|r: int, p: int| 0 <= r < 4 && n <= p < 6 implies #[trigger] m1.bets[r][p] == 0 by {
            assert(m.bets[r][p] == 0);
        }
        assert forall|k: int, p: int| 0 <= k < 6 && n <= p < 6 implies #[trigger] m1.pots[k][p] == 0 by {
            lemma_distribute_col_sums(m.pots, m.round_pot_caps, m.current_pot, act, cur, extra, p);
            assert(m.pots[k][p] == 0);
        }
        assert(chips_wf(m1.pots, m1.bets, m1.stacks, n));
        assert forall|k: int, p: int| 0 <= p < 6 && m.current_pot < k < 6 implies
            #[trigger] m1.pots[k][p] == 0 by {
            lemma_distribute_col_sums(m.pots, m.round_pot_caps, m.current_pot, act, cur, extra, p);
            assert(m.pots[k][p] == 0);
            if p == act {
                assert(m.round_pot_caps[k] == 0);
                lemma_share_zero(m.round_pot_caps, cur, extra, k);
            }
        }
        assert forall|k: int, p: int| 0 <= p < 6 && 0 <= k < 6 && m1.all_in_players[p] != -1
            && m1.all_in_players[p] < k implies #[trigger] m1.pots[k][p] == 0 by {
            lemma_distribute_col_sums(m.pots, m.round_pot_caps, m.current_pot, act, cur, extra, p);
            if p != act {
                assert(m.all_in_players[p] == m1.all_in_players[p]);
                assert(m.pots[k][p] == 0);
            } else {
                // An all-in by the acting seat caps the current pot; its
                // chips beyond it are zero by the bound just proved.
                assert(m1.all_in_players[act] as int >= m.current_pot);
            }
        }
        assert(pot_bounds_wf(m1.pots, m1.all_in_players, m1.current_pot));
        assert(caps_wf(m1.round_pot_caps, m1.current_pot));
        assert(m1.folded_players =~= m.folded_players.update(act, m.folded_players[act]));
    }
    assert(m1.dims());
    assert(m1.player_amount == m.player_amount);
    assert(m1.round == m.round);
    assert(0 <= m1.active_player_index < m1.player_amount);
    assert(0 <= m1.current_pot <= 6);
    assert(m1.current_pot == m1.count_allin(m1.player_amount));
    assert(m1.active_player_amount == m1.count_eligible(m1.player_amount));
    assert forall|p: int| 0 <= p < m1.player_amount implies
        !(m1.folded_players[p] && #[trigger] m1.all_in_players[p] != -1) by {
        assert(!(m.folded_players[p] && m.all_in_players[p] != -1));
    }
    assert forall|p: int| m1.player_amount <= p < 6 implies !(#[trigger] m1.folded_players[p]) by {
        lemma_unseated_flags(m, p);
    }
    assert forall|p: int| m1.player_amount <= p < 6 implies #[trigger] m1.all_in_players[p] == -1 by {
        lemma_unseated_flags(m, p);
    }
    assert(flags_wf(m1.folded_players, m1.all_in_players, m1.player_amount));
    assert(m1.dims());
}

/// An unseated seat never folds nor goes all-in.
proof fn lemma_unseated_flags(m: GameModel, p: int)
    requires
        m.wf(),
        m.player_amount <= p < 6,
    ensures
        !m.folded_players[p] && m.all_in_players[p] == -1,
{
}

/// At most `k` seats exist below `k`, so the all-in and eligible counts
/// together never exceed `k`.
proof fn lemma_allin_eligible_disjoint(folded: Seq<bool>, all_in: Seq<i32>, k: int)
    ensures
        count_allin_seq(all_in, k) + count_eligible_seq(folded, all_in, k)
            <= if k >= 0 { k } else { 0 },
    decreases k,
{
    if k > 0 {
        lemma_allin_eligible_disjoint(folded, all_in, k - 1);
    }
}


// ------------------------------------------------------------------
// The executable transition.
// ------------------------------------------------------------------

/// Copies a vector of plain values.
fn copy_vec<T: Copy>(v: &Vec<T>) -> (r: Vec<T>)
    ensures
        r@ == v@,
{
    let mut out: Vec<T> = Vec::new();
    let mut i: usize = 0;
    while i < v.len()
        invariant
            i <= v@.len(),
            out@ == v@.subrange(0, i as int),
        decreases v@.len() - i,
    {
        out.push(v[i]);
        proof {
            assert(out@ =~= v@.subrange(0, i + 1));
        }
        i += 1;
    }
    proof {
        assert(v@.subrange(0, v@.len() as int) =~= v@);
    }
    out
}

/// Copies a matrix of plain values row by row.
fn copy_mat<T: Copy>(m: &Vec<Vec<T>>) -> (r: Vec<Vec<T>>)
    ensures
        r@.len() == m@.len(),
        forall|i: int| 0 <= i < m@.len() ==> #[trigger] r@[i]@ == m@[i]@,
{
    let mut out: Vec<Vec<T>> = Vec::new();
    let mut i: usize = 0;
    while i < m.len()
        invariant
            i <= m@.len(),
            out@.len() == i,
            forall|j: int| 0 <= j < i ==> #[trigger] out@[j]@ == m@[j]@,
        decreases m@.len() - i,
    {
        out.push(copy_vec(&m[i]));
        i += 1;
    }
    out
}

/// The first seat at or after `start` that can still act, wrapping among
/// the `n` seats; `fallback` when none can.
fn find_eligible_seat(
    folded: &Vec<bool>,
    all_in: &Vec<i32>,
    n: usize,
    start: usize,
    fallback: usize,
) -> (r: usize)
    requires
        folded@.len() == 6,
        all_in@.len() == 6,
        1 <= n <= 6,
        start < n,
        fallback < n,
    ensures
        r as int == find_eligible_from(
            folded@, all_in@, n as int, start as int, n as int, fallback as int),
        r < n,
{
    let mut i: usize = start;
    let mut t: usize = 0;
    while t < n
        invariant
            t <= n,
            1 <= n <= 6,
            i < n,
            fallback < n,
            folded@.len() == 6,
            all_in@.len() == 6,
            find_eligible_from(folded@, all_in@, n as int, start as int, n as int, fallback as int)
                == find_eligible_from(
                    folded@, all_in@, n as int, i as int, (n - t) as int, fallback as int),
        decreases n - t,
    {
        if !folded[i] && all_in[i] == -1 {
            return i;
        }
        i = (i + 1) % n;
        t += 1;
    }
    fallback
}

/// The candidate actions offered to the active player before the
/// legality filter: fold, call and all-in, then the menu's bets.
pub open spec fn spec_candidates(menu: Option<Seq<Action>>) -> Seq<Action> {
    let base = seq![
        Action { action_type: ActionType::Fold, raise_amount: 0 },
        Action { action_type: ActionType::Call, raise_amount: 0 },
        Action { action_type: ActionType::AllIn, raise_amount: 0 },
    ];
    match menu {
        Some(s) => base + s,
        None => base,
    }
}

/// The candidates that are legal in state `m`, in candidate order.
pub open spec fn filter_legal(m: GameModel, s: Seq<Action>) -> Seq<Action>
    decreases s.len(),
{
    if s.len() == 0 {
        Seq::empty()
    } else {
        let rest = filter_legal(m, s.drop_last());
        if m.is_legal(s.last()) {
            rest.push(s.last())
        } else {
            rest
        }
    }
}

/// Everything a filtered sequence holds is legal and was a candidate.
pub proof fn lemma_filter_legal_sound(m: GameModel, s: Seq<Action>)
    ensures
        forall|i: int| 0 <= i < filter_legal(m, s).len() ==>
            m.is_legal(#[trigger] filter_legal(m, s)[i]) && s.contains(filter_legal(m, s)[i]),
    decreases s.len(),
{
    if s.len() > 0 {
        lemma_filter_legal_sound(m, s.drop_last());
        assert forall|i: int| 0 <= i < filter_legal(m, s).len() implies
            m.is_legal(#[trigger] filter_legal(m, s)[i]) && s.contains(filter_legal(m, s)[i]) by {
            let f = filter_legal(m, s);
            let fr = filter_legal(m, s.drop_last());
            if i < fr.len() {
                assert(fr[i] == f[i]);
                let j = choose|j: int| 0 <= j < s.drop_last().len() && s.drop_last()[j] == fr[i];
                assert(s[j] == fr[i]);
            } else {
                assert(f[i] == s.last());
                assert(s[s.len() - 1] == s.last());
            }
        }
    }
}

/// Every legal candidate appears in the filtered sequence.
pub proof fn lemma_filter_legal_complete(m: GameModel, s: Seq<Action>, j: int)
    requires
        0 <= j < s.len(),
        m.is_legal(s[j]),
    ensures
        filter_legal(m, s).contains(s[j]),
    decreases s.len(),
{
    if j == s.len() - 1 {
        let f = filter_legal(m, s);
        assert(f[f.len() - 1] == s.last());
    } else {
        lemma_filter_legal_complete(m, s.drop_last(), j);
        let fr = filter_legal(m, s.drop_last());
        let i = choose|i: int| 0 <= i < fr.len() && fr[i] == s.drop_last()[j];
        assert(filter_legal(m, s)[i] == fr[i]);
    }
}

impl super::game_state::NLTHGameState {
    /// The actions the active player may take now: the always-offered
    /// fold, call and all-in, then the menu's bets, each kept exactly when
    /// it is legal in this state. Every action of the result may be handed
    /// to `handle_action`.
    pub fn get_active_player_actions(
        &self,
        bets_in_abstraction_option: Option<&Vec<Action>>,
    ) -> (r: Vec<Action>)
        requires
            self@.wf(),
        ensures
            r@ == filter_legal(self@, spec_candidates(
                match bets_in_abstraction_option {
                    Some(v) => Some(v@),
                    None => None,
                })),
            forall|i: int| 0 <= i < r@.len() ==> self@.is_legal(#[trigger] r@[i]),
    {
        let mut candidates: Vec<Action> = Vec::new();
        candidates.push(Action { action_type: ActionType::Fold, raise_amount: 0 });
        candidates.push(Action { action_type: ActionType::Call, raise_amount: 0 });
        candidates.push(Action { action_type: ActionType::AllIn, raise_amount: 0 });
        if let Some(menu) = bets_in_abstraction_option {
            let mut i: usize = 0;
            while i < menu.len()
                invariant
                    i <= menu@.len(),
                    candidates@ == spec_candidates(Some(menu@.subrange(0, i as int))),
                decreases menu@.len() - i,
            {
                candidates.push(menu[i]);
                proof {
                    assert(candidates@ =~= spec_candidates(Some(menu@.subrange(0, i + 1))));
                }
                i += 1;
            }
            proof {
                assert(menu@.subrange(0, menu@.len() as int) =~= menu@);
            }
        } else {
            proof {
                assert(candidates@ =~= spec_candidates(None));
            }
        }

        let call = self.get_call_amount();
        let pot = self.get_total_pot();
        proof {
            lemma_call_bounds(self@);
            super::game_state::lemma_total_pot_bound(self@);
        }
        let stack = self.stacks[self.active_player_index];
        let mut out: Vec<Action> = Vec::new();
        let mut i: usize = 0;
        while i < candidates.len()
            invariant
                i <= candidates@.len(),
                self@.wf(),
                call as int == self@.call_amount(),
                call <= PLAYER_CHIP_LIMIT,
                pot as int == self@.total_pot(),
                pot <= 6 * PLAYER_CHIP_LIMIT,
                stack == self@.stacks[self@.active_player_index],
                out@ == filter_legal(self@, candidates@.subrange(0, i as int)),
            decreases candidates@.len() - i,
        {
            proof {
                assert(candidates@.subrange(0, i + 1).drop_last()
                    =~= candidates@.subrange(0, i as int));
            }
            let a = candidates[i];
            let keep: bool = match a.action_type {
                ActionType::AllIn => true,
                ActionType::Fold => call > 0,
                ActionType::Call => stack > call,
                ActionType::Bet => {
                    let base: u64 = pot as u64 + call as u64;
                    proof {
                        lemma_mul_in_u64(base as int, a.raise_amount as int);
                    }
                    let raise_wide: u64 = (base * (a.raise_amount as u64)) / 100;
                    proof {
                        assert(raise_wide as int == self@.bet_raise_amount(a.raise_amount));
                    }
                    raise_wide >= minimum_raise_amount_wide(self.minimum_raise_amount)
                        && call as u64 + raise_wide <= stack as u64
                },
            };
            if keep {
                out.push(a);
            }
            i += 1;
        }
        proof {
            assert(candidates@.subrange(0, candidates@.len() as int) =~= candidates@);
            lemma_filter_legal_sound(self@, candidates@);
        }
        out
    }
}

/// The minimum raise, widened for the comparison in the legality filter.
fn minimum_raise_amount_wide(v: u32) -> (r: u64)
    ensures
        r == v as u64,
{
    v as u64
}

/// The product of a chip total and a pot multiplier stays far below the
/// `u64` range.
pub proof fn lemma_mul_in_u64(base: int, mult: int)
    requires
        0 <= base <= 7 * PLAYER_CHIP_LIMIT,
        0 <= mult < 65536,
    ensures
        0 <= base * mult < 0x8000_0000_0000_0000,
{
    assert(0 <= base * mult <= 7 * (PLAYER_CHIP_LIMIT as int) * 65536) by (nonlinear_arith)
        requires
            0 <= base <= 7 * PLAYER_CHIP_LIMIT,
            0 <= mult < 65536,
    ;
}

impl super::game_state::NLTHGameState {
    /// Applies one legal action and returns the successor state. The
    /// result is exactly the model transition `spec_step`: chips move as
    /// the action prescribes, the action is recorded, the turn passes to
    /// the next seat that can act, and a finished betting round opens the
    /// next one.
    ///
    /// A terminal state has no successor: once `is_terminal` holds, no
    /// further transition is defined, and the precondition holds every
    /// verified caller to that.
    pub fn handle_action(&self, action: Action) -> (r: Self)
        requires
            self@.wf(),
            !self@.is_terminal(),
            self@.is_legal(action),
        ensures
            r@ == spec_step(self@, action),
            r@.wf(),
    {
        let ghost m0 = self@;
        proof {
            lemma_step_wf(m0, action);
            lemma_call_bounds(m0);
        }
        let act = self.active_player_index;
        let n = self.player_amount;

        let mut stacks = copy_vec(&self.stacks);
        let mut bets = copy_mat(&self.bets);
        let mut pots = copy_mat(&self.pots);
        let mut caps = copy_vec(&self.current_round_pot_all_in_amounts);
        let mut folded = copy_vec(&self.folded_players);
        let mut all_in = copy_vec(&self.all_in_players);
        let mut history = copy_mat(&self.history);
        let mut minimum_raise_amount = self.minimum_raise_amount;
        let mut current_pot = self.current_pot;
        let mut active_player_amount = self.active_player_amount;

        if matches!(action.action_type, ActionType::Fold) {
            folded.set(act, true);
            active_player_amount = active_player_amount - 1;
        } else {
            let cur = self.bets[self.round][act];
            let call = self.get_call_amount();
            proof {
                lemma_entry_le_col_sum(m0.bets, m0.round, act as int, 4);
                lemma_col_sum_nonneg(m0.bets, act as int, 4);
                assert(m0.stacks[act as int] + col_sum(m0.bets, act as int, 4) <= PLAYER_CHIP_LIMIT);
                assert(cur <= PLAYER_CHIP_LIMIT);
            }
            let extra: u32;
            match action.action_type {
                ActionType::AllIn => {
                    let stack = stacks[act];
                    if stack >= 2 * minimum_raise_amount && stack >= call {
                        minimum_raise_amount = stack - call;
                    }
                    extra = stack;
                },
                ActionType::Bet => {
                    let pot_total = self.get_total_pot();
                    let raise_wide: u64 =
                        ((pot_total as u64 + call as u64) * (action.raise_amount as u64)) / 100;
                    proof {
                        assert(raise_wide as int == m0.bet_raise_amount(action.raise_amount));
                        assert(raise_wide <= m0.stacks[act as int]);
                    }
                    let raise = raise_wide as u32;
                    extra = call + raise;
                    minimum_raise_amount = raise;
                },
                _ => {
                    extra = call;
                },
            }
            proof {
                assert(extra as int == action_extra(m0, action));
                assert(extra <= stacks@[act as int]);
                assert(m0.pots_total(act as int) == m0.bets_total(act as int));
                assert(col_sum(m0.pots, act as int, 6) + extra <= PLAYER_CHIP_LIMIT);
            }

            // Spread the new chips over the round's capped side pots,
            // then drop the rest into the open pot.
            let ghost gcaps = caps@;
            let mut c: u32 = cur;
            let mut left: u32 = extra;
            let mut k: usize = 0;
            while k < 6
                invariant
                    k <= 6,
                    m0.wf(),
                    act == m0.active_player_index,
                    act < 6,
                    caps@ == gcaps,
                    gcaps.len() == 6,
                    cur as int == m0.bets[m0.round][act as int],
                    0 <= extra <= PLAYER_CHIP_LIMIT,
                    cur + extra <= 2 * PLAYER_CHIP_LIMIT,
                    col_sum(m0.pots, act as int, 6) + extra <= PLAYER_CHIP_LIMIT,
                    c as int == cur + spec_consumed(gcaps, cur as int, extra as int, k as int),
                    left as int == extra - spec_consumed(gcaps, cur as int, extra as int, k as int),
                    pots@.len() == 6,
                    forall|j: int| 0 <= j < k ==> #[trigger] pots@[j]@ == m0.pots[j].update(
                        act as int,
                        (m0.pots[j][act as int]
                            + spec_pot_share(gcaps, cur as int, extra as int, j)) as u32),
                    forall|j: int| k <= j < 6 ==> #[trigger] pots@[j]@ == m0.pots[j],
                decreases 6 - k,
            {
                proof {
                    lemma_consumed_bounds(gcaps, cur as int, extra as int, k as int);
                    lemma_consumed_bounds(gcaps, cur as int, extra as int, k as int + 1);
                    lemma_entry_le_col_sum(m0.pots, k as int, act as int, 6);
                    lemma_col_sum_nonneg(m0.pots, act as int, 6);
                }
                let cap = caps[k];
                if cap > c {
                    let gap = cap - c;
                    let share = if gap < left { gap } else { left };
                    let mut row = copy_vec(&pots[k]);
                    let val = row[act] + share;
                    row.set(act, val);
                    pots.set(k, row);
                    c = c + share;
                    left = left - share;
                }
                k += 1;
            }
            proof {
                lemma_consumed_bounds(gcaps, cur as int, extra as int, 6);
                lemma_consumed_bounds(gcaps, cur as int, extra as int, current_pot as int);
                lemma_consumed_bounds(gcaps, cur as int, extra as int, current_pot as int + 1);
                lemma_consumed_mono(gcaps, cur as int, extra as int, current_pot as int + 1, 6);
                lemma_entry_le_col_sum(m0.pots, current_pot as int, act as int, 6);
                lemma_col_sum_nonneg(m0.pots, act as int, 6);
            }
            let mut row = copy_vec(&pots[current_pot]);
            let val = row[act] + left;
            row.set(act, val);
            pots.set(current_pot, row);
            proof {
                let ghost d = spec_distribute(
                    m0.pots, gcaps, current_pot as int, act as int, cur as int, extra as int);
                assert forall|j: int| 0 <= j < 6 implies #[trigger] pots@[j]@ == d[j] by {
                    lemma_consumed_bounds(gcaps, cur as int, extra as int, j);
                    lemma_consumed_bounds(gcaps, cur as int, extra as int, j + 1);
                    lemma_entry_le_col_sum(m0.pots, j, act as int, 6);
                    lemma_col_sum_nonneg(m0.pots, act as int, 6);
                    if j == current_pot as int {
                        assert(pots@[j]@ =~= d[j]);
                    } else {
                        assert(pots@[j]@ =~= d[j]);
                    }
                }
            }

            if matches!(action.action_type, ActionType::AllIn) {
                caps.set(current_pot, cur + extra);
                all_in.set(act, current_pot as i32);
                current_pot = current_pot + 1;
                active_player_amount = active_player_amount - 1;
            }
            stacks.set(act, stacks[act] - extra);
            let mut brow = copy_vec(&bets[self.round]);
            brow.set(act, cur + extra);
            bets.set(self.round, brow);
        }

        let mut hrow = copy_vec(&history[self.round]);
        hrow.push(action);
        history.set(self.round, hrow);

        let active_player_index = find_eligible_seat(&folded, &all_in, n, (act + 1) % n, act);

        let mut next = super::game_state::NLTHGameState {
            round: self.round,
            player_amount: n,
            private_hands: copy_mat(&self.private_hands),
            community_cards: copy_vec(&self.community_cards),
            stacks,
            bets,
            minimum_raise_amount,
            history,
            active_player_index,
            folded_players: folded,
            all_in_players: all_in,
            pots,
            current_round_pot_all_in_amounts: caps,
            current_pot,
            active_player_amount,
        };
        proof {
            let m3 = advance_active(push_history(apply_chips(m0, action), action));
            assert(next@.private_hands =~~= m3.private_hands);
            assert(next@.community_cards =~= m3.community_cards);
            assert(next@.stacks =~= m3.stacks);
            assert(next@.folded_players =~= m3.folded_players);
            assert(next@.all_in_players =~= m3.all_in_players);
            assert(next@.round_pot_caps =~= m3.round_pot_caps);
            assert(next@.bets =~~= m3.bets);
            assert(next@.pots =~~= m3.pots);
            assert(next@.history =~~= m3.history);
            assert(next@ == m3);
        }
        if next.can_proceed_to_next_round() {
            next.round = next.round + 1;
            next.minimum_raise_amount = BIG_BLIND;
            next.current_round_pot_all_in_amounts = vec![0, 0, 0, 0, 0, 0];
            let start = if n == 2 { 1 } else { 0 };
            next.active_player_index = find_eligible_seat(
                &next.folded_players, &next.all_in_players, n, start, start);
            proof {
                let m3 = advance_active(push_history(apply_chips(m0, action), action));
                assert(next@.round_pot_caps =~= zero_row());
                assert(next@ == round_advance(m3));
            }
        }
        next
    }
}

} // verus!
