//! The no-limit Texas hold'em state machine: the state value, its
//! mathematical model and well-formedness invariant, and the observers
//! used by the abstraction layer.
use vstd::prelude::*;

use crate::constants::{Card, BIG_BLIND, SMALL_BLIND, STACK_SIZE, PLAYER_CHIP_LIMIT};
use crate::structs::Action;
use crate::cards;

verus! {

/// One no-limit Texas hold'em game state. A value type: every transition
/// yields a fresh state and leaves its predecessor untouched.
///
/// All outer vectors have fixed lengths (six seats, four rounds, five
/// community slots), stated by the well-formedness predicate of the model.
#[derive(Clone, Debug)]
pub struct NLTHGameState {
    /// Current betting round: 0 preflop, 1 flop, 2 turn, 3 river.
    pub round: usize,
    /// Number of seated players, between 2 and 6.
    pub player_amount: usize,
    /// Two hole cards per seat; the sentinel 52 marks an undealt slot.
    pub private_hands: Vec<Vec<Card>>,
    /// Five community card slots; the sentinel 52 marks an undealt slot.
    pub community_cards: Vec<Card>,
    /// Chips each seat still holds.
    pub stacks: Vec<u32>,
    /// Chips each seat has committed, per round.
    pub bets: Vec<Vec<u32>>,
    /// Size of the most recent raise; the next raise must meet it.
    pub minimum_raise_amount: u32,
    /// Actions taken so far, per round.
    pub history: Vec<Vec<Action>>,
    /// Seat whose turn it is.
    pub active_player_index: usize,
    /// Seats that folded.
    pub folded_players: Vec<bool>,
    /// Per seat: -1 while not all-in, otherwise the index of the pot the
    /// seat capped when going all-in.
    pub all_in_players: Vec<i32>,
    /// Chips per pot and per seat: the main pot and up to five side pots.
    pub pots: Vec<Vec<u32>>,
    /// Per-seat cap of each side pot opened during the current round,
    /// used to spread newly committed chips across capped pots.
    pub current_round_pot_all_in_amounts: Vec<u32>,
    /// Index of the youngest, still open pot.
    pub current_pot: usize,
    /// Count of seats that neither folded nor went all-in.
    pub active_player_amount: u8,
}

/// The mathematical model of a game state: the same data over sequences
/// and unbounded integers. Every contract of the engine speaks of this
/// model.
pub ghost struct GameModel {
    pub round: int,
    pub player_amount: int,
    pub private_hands: Seq<Seq<Card>>,
    pub community_cards: Seq<Card>,
    pub stacks: Seq<u32>,
    pub bets: Seq<Seq<u32>>,
    pub minimum_raise_amount: u32,
    pub history: Seq<Seq<Action>>,
    pub active_player_index: int,
    pub folded_players: Seq<bool>,
    pub all_in_players: Seq<i32>,
    pub pots: Seq<Seq<u32>>,
    pub round_pot_caps: Seq<u32>,
    pub current_pot: int,
    pub active_player_amount: int,
}

impl View for NLTHGameState {
    type V = GameModel;

    open spec fn view(&self) -> GameModel {
        GameModel {
            round: self.round as int,
            player_amount: self.player_amount as int,
            private_hands: self.private_hands@.map_values(|v: Vec<Card>| v@),
            community_cards: self.community_cards@,
            stacks: self.stacks@,
            bets: self.bets@.map_values(|v: Vec<u32>| v@),
            minimum_raise_amount: self.minimum_raise_amount,
            history: self.history@.map_values(|v: Vec<Action>| v@),
            active_player_index: self.active_player_index as int,
            folded_players: self.folded_players@,
            all_in_players: self.all_in_players@,
            pots: self.pots@.map_values(|v: Vec<u32>| v@),
            round_pot_caps: self.current_round_pot_all_in_amounts@,
            current_pot: self.current_pot as int,
            active_player_amount: self.active_player_amount as int,
        }
    }
}

/// Sum of the first `p` entries of a chip row.
pub open spec fn seq_sum_to(s: Seq<u32>, p: int) -> int
    decreases p,
{
    if p <= 0 {
        0
    } else {
        seq_sum_to(s, p - 1) + s[p - 1]
    }
}

/// Sum of a chip row.
pub open spec fn seq_sum(s: Seq<u32>) -> int {
    seq_sum_to(s, s.len() as int)
}

/// Largest entry of a chip row (zero for an empty row).
pub open spec fn seq_max(s: Seq<u32>) -> int
    decreases s.len(),
{
    if s.len() == 0 {
        0
    } else if s.last() as int >= seq_max(s.drop_last()) {
        s.last() as int
    } else {
        seq_max(s.drop_last())
    }
}

/// Sum of the first `k` rows of a chip matrix.
pub open spec fn mat_total_to(mat: Seq<Seq<u32>>, k: int) -> int
    decreases k,
{
    if k <= 0 {
        0
    } else {
        mat_total_to(mat, k - 1) + seq_sum(mat[k - 1])
    }
}

/// Sum over the first `k` rows of column `p` of a chip matrix.
pub open spec fn col_sum(mat: Seq<Seq<u32>>, p: int, k: int) -> int
    decreases k,
{
    if k <= 0 {
        0
    } else {
        col_sum(mat, p, k - 1) + mat[k - 1][p]
    }
}

impl GameModel {
    /// Chips committed by seat `p` over all four rounds.
    pub open spec fn bets_total(self, p: int) -> int {
        col_sum(self.bets, p, 4)
    }

    /// Chips seat `p` holds over all six pots.
    pub open spec fn pots_total(self, p: int) -> int {
        col_sum(self.pots, p, 6)
    }

    /// All chips on the table.
    pub open spec fn total_pot(self) -> int {
        mat_total_to(self.pots, 6)
    }

    /// Chips the active player must add to match the round's highest bet.
    pub open spec fn call_amount(self) -> int {
        seq_max(self.bets[self.round]) - self.bets[self.round][self.active_player_index]
    }

    /// Whether seat `p` may still act: seated, not folded, not all-in.
    pub open spec fn eligible(self, p: int) -> bool {
        0 <= p < self.player_amount
            && !self.folded_players[p]
            && self.all_in_players[p] == -1
    }

    /// Count of eligible seats below `n`.
    pub open spec fn count_eligible(self, n: int) -> int {
        count_eligible_seq(self.folded_players, self.all_in_players, n)
    }

    /// Count of all-in seats below `n`.
    pub open spec fn count_allin(self, n: int) -> int {
        count_allin_seq(self.all_in_players, n)
    }

    /// Count of folded seats below `n`.
    pub open spec fn count_folded(self, n: int) -> int {
        count_folded_seq(self.folded_players, n)
    }

    /// Every remaining player has checked: the round's history holds as
    /// many checks (calls) as there are players still able to act, and no
    /// bet at all.
    pub open spec fn all_checked(self) -> bool {
        count_calls(self.history[self.round]) == self.active_player_amount
        && count_bets(self.history[self.round]) == 0
    }

    /// The last bet or raise of the round has been answered by the whole
    /// table: walking the round's history backwards, the first aggressive
    /// action found is a bet that as many non-fold actions as remaining
    /// players have followed (itself included), or an all-in that strictly
    /// more have followed, the all-in having removed its own player from
    /// the remaining count.
    pub open spec fn bet_finished(self) -> bool {
        bf_rec(self.history[self.round], self.active_player_amount, 0)
    }

    /// The betting action of the current round is closed.
    pub open spec fn betting_closed(self) -> bool {
        self.all_checked() || self.bet_finished()
    }

    /// The hand can move to the next betting round: there is a next round,
    /// at least two players can still act, and the betting action of the
    /// current round is closed.
    pub open spec fn can_proceed(self) -> bool {
        self.round < 3 && self.active_player_amount > 1 && self.betting_closed()
    }

    /// The hand is over: nobody can act any more, or all but one player
    /// folded, or fewer than two can act and the betting action closed, or
    /// the river's betting action closed.
    pub open spec fn is_terminal(self) -> bool {
        ||| self.active_player_amount == 0
        ||| self.count_folded(self.player_amount) == self.player_amount - 1
        ||| (self.active_player_amount < 2 && self.betting_closed())
        ||| (self.round == 3 && self.betting_closed())
    }
}

/// Count of seats below `k` that neither folded nor went all-in.
pub open spec fn count_eligible_seq(folded: Seq<bool>, all_in: Seq<i32>, k: int) -> int
    decreases k,
{
    if k <= 0 {
        0
    } else {
        count_eligible_seq(folded, all_in, k - 1)
            + if !folded[k - 1] && all_in[k - 1] == -1 { 1int } else { 0 }
    }
}

/// Count of seats below `k` that went all-in.
pub open spec fn count_allin_seq(all_in: Seq<i32>, k: int) -> int
    decreases k,
{
    if k <= 0 {
        0
    } else {
        count_allin_seq(all_in, k - 1) + if all_in[k - 1] != -1 { 1int } else { 0 }
    }
}

/// Count of seats below `k` that folded.
pub open spec fn count_folded_seq(folded: Seq<bool>, k: int) -> int
    decreases k,
{
    if k <= 0 {
        0
    } else {
        count_folded_seq(folded, k - 1) + if folded[k - 1] { 1int } else { 0 }
    }
}

/// The backward walk behind `bet_finished`: `acc` counts the non-fold
/// actions already seen behind the walk.
pub open spec fn bf_rec(h: Seq<Action>, amount: int, acc: int) -> bool
    decreases h.len(),
{
    if h.len() == 0 {
        false
    } else {
        let a = h.last();
        let acc2 = if !(a.action_type is Fold) { acc + 1 } else { acc };
        if a.action_type is Bet {
            acc2 == amount
        } else if a.action_type is AllIn {
            acc2 > amount
        } else {
            bf_rec(h.drop_last(), amount, acc2)
        }
    }
}

/// A chip matrix with the given number of rows, each of six seats.
pub open spec fn mat_dims(mat: Seq<Seq<u32>>, rows: int) -> bool {
    mat.len() == rows && (forall|r: int| 0 <= r < rows ==> #[trigger] mat[r].len() == 6)
}

/// Six hands of two card slots each.
pub open spec fn hands_dims(hands: Seq<Seq<Card>>) -> bool {
    hands.len() == 6 && (forall|p: int| 0 <= p < 6 ==> #[trigger] hands[p].len() == 2)
}

/// The seat flags of a game with `n` players: a folded seat is never also
/// all-in, and unseated seats are neither.
pub open spec fn flags_wf(folded: Seq<bool>, all_in: Seq<i32>, n: int) -> bool {
    &&& folded.len() == 6
    &&& all_in.len() == 6
    &&& (forall|p: int| 0 <= p < n ==> !(folded[p] && #[trigger] all_in[p] != -1))
    &&& (forall|p: int| n <= p < 6 ==> !(#[trigger] folded[p]))
    &&& (forall|p: int| n <= p < 6 ==> #[trigger] all_in[p] == -1)
}

/// Chips sit only in pots that are open or were capped: nothing lies
/// beyond the youngest pot `cp`, and an all-in seat holds chips only up
/// to the pot it capped.
pub open spec fn pot_bounds_wf(pots: Seq<Seq<u32>>, all_in: Seq<i32>, cp: int) -> bool {
    &&& (forall|k: int, p: int| 0 <= p < 6 && cp < k < 6 ==> #[trigger] pots[k][p] == 0)
    &&& (forall|k: int, p: int| 0 <= p < 6 && 0 <= k < 6 && all_in[p] != -1
            && all_in[p] < k ==> #[trigger] pots[k][p] == 0)
}

/// The round's side-pot caps live strictly below the youngest pot.
pub open spec fn caps_wf(caps: Seq<u32>, cp: int) -> bool {
    forall|k: int| cp <= k < 6 ==> #[trigger] caps[k] == 0
}

/// The chip bookkeeping of a game with `n` players: unseated seats hold
/// no bets and no pot chips, each seat's pot chips equal its committed
/// bets, and one seat's stack and bets together never exceed the chip
/// limit.
pub open spec fn chips_wf(pots: Seq<Seq<u32>>, bets: Seq<Seq<u32>>, stacks: Seq<u32>, n: int) -> bool {
    &&& mat_dims(pots, 6)
    &&& mat_dims(bets, 4)
    &&& stacks.len() == 6
    &&& (forall|r: int, p: int| 0 <= r < 4 && n <= p < 6 ==> #[trigger] bets[r][p] == 0)
    &&& (forall|k: int, p: int| 0 <= k < 6 && n <= p < 6 ==> #[trigger] pots[k][p] == 0)
    &&& (forall|p: int| 0 <= p < 6 ==> #[trigger] col_sum(pots, p, 6) == col_sum(bets, p, 4))
    &&& (forall|p: int| 0 <= p < 6 ==>
            #[trigger] (stacks[p] + col_sum(bets, p, 4)) <= PLAYER_CHIP_LIMIT)
}

impl GameModel {
    /// Every dimension of the state has its fixed size.
    pub open spec fn dims(self) -> bool {
        &&& self.stacks.len() == 6
        &&& self.folded_players.len() == 6
        &&& self.all_in_players.len() == 6
        &&& self.round_pot_caps.len() == 6
        &&& mat_dims(self.bets, 4)
        &&& mat_dims(self.pots, 6)
        &&& self.history.len() == 4
        &&& hands_dims(self.private_hands)
        &&& self.community_cards.len() == 5
    }

    /// The engine's invariant: dimensions, index bounds, the bookkeeping
    /// counters agreeing with the seat flags, pot accounting, and the chip
    /// bound that keeps all arithmetic inside `u32` and `i32`.
    pub open spec fn wf(self) -> bool {
        &&& self.dims()
        &&& 2 <= self.player_amount <= 6
        &&& 0 <= self.round < 4
        &&& 0 <= self.active_player_index < self.player_amount
        &&& 0 <= self.current_pot <= 6
        &&& self.current_pot == self.count_allin(self.player_amount)
        &&& self.active_player_amount == self.count_eligible(self.player_amount)
        &&& (self.active_player_amount > 0 ==> self.eligible(self.active_player_index))
        &&& flags_wf(self.folded_players, self.all_in_players, self.player_amount)
        &&& chips_wf(self.pots, self.bets, self.stacks, self.player_amount)
        &&& pot_bounds_wf(self.pots, self.all_in_players, self.current_pot)
        &&& caps_wf(self.round_pot_caps, self.current_pot)
        &&& self.minimum_raise_amount <= PLAYER_CHIP_LIMIT
    }
}

// ------------------------------------------------------------------
// Facts about the sum and count functions.
// ------------------------------------------------------------------

/// Every prefix sum of a chip row is non-negative.
pub proof fn lemma_seq_sum_to_nonneg(s: Seq<u32>, p: int)
    ensures
        seq_sum_to(s, p) >= 0,
    decreases p,
{
    if p > 0 {
        lemma_seq_sum_to_nonneg(s, p - 1);
    }
}

/// Updating one entry changes a covering prefix sum by the difference.
pub proof fn lemma_seq_sum_to_update(s: Seq<u32>, i: int, v: u32, p: int)
    requires
        0 <= i < s.len(),
        p <= s.len(),
    ensures
        seq_sum_to(s.update(i, v), p)
            == seq_sum_to(s, p) + if i < p { v - s[i] } else { 0 },
    decreases p,
{
    if p > 0 {
        lemma_seq_sum_to_update(s, i, v, p - 1);
    }
}

/// Every entry of a chip row is at most the row's maximum.
pub proof fn lemma_entry_le_seq_max(s: Seq<u32>, i: int)
    requires
        0 <= i < s.len(),
    ensures
        s[i] <= seq_max(s),
    decreases s.len(),
{
    if i < s.len() - 1 {
        lemma_entry_le_seq_max(s.drop_last(), i);
    }
}

/// A non-empty chip row attains its maximum.
pub proof fn lemma_seq_max_attained(s: Seq<u32>)
    requires
        s.len() > 0,
    ensures
        exists|i: int| 0 <= i < s.len() && s[i] == seq_max(s),
    decreases s.len(),
{
    if s.last() as int >= seq_max(s.drop_last()) {
        assert(s[s.len() - 1] == seq_max(s));
    } else {
        lemma_seq_max_attained(s.drop_last());
        let i = choose|i: int| 0 <= i < s.drop_last().len() && s.drop_last()[i] == seq_max(s.drop_last());
        assert(s[i] == seq_max(s));
    }
}

/// Sum over the first `p` columns of the column sums of the first `k` rows.
pub open spec fn col_sums_to(mat: Seq<Seq<u32>>, k: int, p: int) -> int
    decreases p,
{
    if p <= 0 {
        0
    } else {
        col_sums_to(mat, k, p - 1) + col_sum(mat, p - 1, k)
    }
}

proof fn lemma_col_sums_to_zero(mat: Seq<Seq<u32>>, p: int)
    ensures
        col_sums_to(mat, 0, p) == 0,
    decreases p,
{
    if p > 0 {
        lemma_col_sums_to_zero(mat, p - 1);
    }
}

proof fn lemma_col_sums_to_step(mat: Seq<Seq<u32>>, k: int, p: int)
    requires
        k >= 1,
    ensures
        col_sums_to(mat, k, p) == col_sums_to(mat, k - 1, p) + seq_sum_to(mat[k - 1], p),
    decreases p,
{
    if p > 0 {
        lemma_col_sums_to_step(mat, k, p - 1);
    }
}

/// Row-wise and column-wise totals of a chip matrix agree.
pub proof fn lemma_mat_total_transpose(mat: Seq<Seq<u32>>, k: int)
    requires
        0 <= k,
        forall|r: int| 0 <= r < k ==> #[trigger] mat[r].len() == 6,
    ensures
        mat_total_to(mat, k) == col_sums_to(mat, k, 6),
    decreases k,
{
    if k > 0 {
        lemma_mat_total_transpose(mat, k - 1);
        lemma_col_sums_to_step(mat, k, 6);
        assert(seq_sum(mat[k - 1]) == seq_sum_to(mat[k - 1], 6));
    } else {
        lemma_col_sums_to_zero(mat, 6);
    }
}

/// Column prefix totals are bounded when each column sum is.
proof fn lemma_col_sums_to_bound(mat: Seq<Seq<u32>>, k: int, p: int, b: int)
    requires
        forall|q: int| 0 <= q < p ==> 0 <= #[trigger] col_sum(mat, q, k) <= b,
        b >= 0,
        p >= 0,
    ensures
        0 <= col_sums_to(mat, k, p) <= p * b,
    decreases p,
{
    if p > 0 {
        lemma_col_sums_to_bound(mat, k, p - 1, b);
        assert((p - 1) * b + b == p * b) by (nonlinear_arith);
    }
}

/// The total pot of a well-formed state is bounded by six chip limits.
pub proof fn lemma_total_pot_bound(m: GameModel)
    requires
        m.wf(),
    ensures
        0 <= m.total_pot() <= 6 * PLAYER_CHIP_LIMIT,
        m.total_pot() == col_sums_to(m.pots, 6, 6),
{
    lemma_mat_total_transpose(m.pots, 6);
    assert forall|p: int| 0 <= p < 6 implies 0 <= #[trigger] col_sum(m.pots, p, 6) <= PLAYER_CHIP_LIMIT as int by {
        lemma_col_sum_nonneg(m.pots, p, 6);
        assert(m.pots_total(p) == m.bets_total(p));
        lemma_col_sum_nonneg(m.bets, p, 4);
        assert(m.stacks[p] + m.bets_total(p) <= PLAYER_CHIP_LIMIT);
    }
    lemma_col_sums_to_bound(m.pots, 6, 6, PLAYER_CHIP_LIMIT as int);
}

/// Every column prefix sum of a chip matrix is non-negative.
pub proof fn lemma_col_sum_nonneg(mat: Seq<Seq<u32>>, p: int, k: int)
    ensures
        col_sum(mat, p, k) >= 0,
    decreases k,
{
    if k > 0 {
        lemma_col_sum_nonneg(mat, p, k - 1);
    }
}

/// Updating one entry of row `r` changes the covering column sum of its
/// column by the difference and leaves other columns' sums unchanged.
pub proof fn lemma_col_sum_update(mat: Seq<Seq<u32>>, r: int, p: int, v: u32, q: int, k: int)
    requires
        0 <= r < mat.len(),
        0 <= p < mat[r].len(),
        0 <= q < mat[r].len(),
        k <= mat.len(),
    ensures
        col_sum(mat.update(r, mat[r].update(p, v)), q, k)
            == col_sum(mat, q, k) + if q == p && r < k { v - mat[r][p] } else { 0 },
    decreases k,
{
    if k > 0 {
        lemma_col_sum_update(mat, r, p, v, q, k - 1);
    }
}

// ------------------------------------------------------------------
// Observers.
// ------------------------------------------------------------------

impl NLTHGameState {
    /// All chips on the table: the sum over every pot and seat.
    pub fn get_total_pot(&self) -> (r: u32)
        requires
            self@.wf(),
        ensures
            r as int == self@.total_pot(),
    {
        proof {
            lemma_total_pot_bound(self@);
        }
        let mut total: u32 = 0;
        let mut k: usize = 0;
        while k < 6
            invariant
                k <= 6,
                self@.wf(),
                self@.total_pot() <= 6 * PLAYER_CHIP_LIMIT,
                total as int == mat_total_to(self@.pots, k as int),
                0 <= mat_total_to(self@.pots, k as int) <= self@.total_pot(),
            decreases 6 - k,
        {
            proof {
                lemma_mat_total_nonneg(self@.pots, k as int);
            }
            let row = &self.pots[k];
            proof {
                assert(row@ == self@.pots[k as int]);
            }
            let mut p: usize = 0;
            let mut row_sum: u32 = 0;
            while p < 6
                invariant
                    p <= 6,
                    k < 6,
                    self@.wf(),
                    row@ == self@.pots[k as int],
                    row_sum as int == seq_sum_to(row@, p as int),
                    0 <= seq_sum_to(row@, p as int) <= 6 * PLAYER_CHIP_LIMIT,
                decreases 6 - p,
            {
                proof {
                    lemma_row_prefix_le_limit(self@, k as int, p as int + 1);
                }
                row_sum = row_sum + row[p];
                p += 1;
            }
            proof {
                lemma_mat_prefix_le_total(self@, k as int + 1);
            }
            total = total + row_sum;
            k += 1;
        }
        total
    }

    /// Chips the active player must still put in to match the round's
    /// highest bet.
    pub fn get_call_amount(&self) -> (r: u32)
        requires
            self@.wf(),
        ensures
            r as int == self@.call_amount(),
    {
        let row = &self.bets[self.round];
        proof {
            assert(row@ == self@.bets[self@.round]);
        }
        let mut highest: u32 = 0;
        let mut p: usize = 0;
        while p < 6
            invariant
                p <= 6,
                self@.wf(),
                row@ == self@.bets[self@.round],
                row@.len() == 6,
                highest as int == seq_max(row@.subrange(0, p as int)),
            decreases 6 - p,
        {
            proof {
                assert(row@.subrange(0, p + 1).drop_last() =~= row@.subrange(0, p as int));
            }
            if row[p] > highest {
                highest = row[p];
            }
            p += 1;
        }
        proof {
            assert(row@.subrange(0, 6) =~= row@);
            lemma_entry_le_seq_max(row@, self.active_player_index as int);
        }
        highest - self.bets[self.round][self.active_player_index]
    }

    /// Number of bet or raise actions in the current round.
    pub fn get_current_bet_count(&self) -> (r: usize)
        requires
            self@.wf(),
        ensures
            r as int == count_bets(self@.history[self@.round]),
    {
        let h = &self.history[self.round];
        proof {
            assert(h@ == self@.history[self@.round]);
        }
        let mut count: usize = 0;
        let mut i: usize = 0;
        while i < h.len()
            invariant
                i <= h@.len(),
                count as int == count_bets(h@.subrange(0, i as int)),
                count <= i,
            decreases h@.len() - i,
        {
            proof {
                assert(h@.subrange(0, i + 1).drop_last() =~= h@.subrange(0, i as int));
            }
            if h[i].is_bet_raise() {
                count += 1;
            }
            i += 1;
        }
        proof {
            assert(h@.subrange(0, h@.len() as int) =~= h@);
        }
        count
    }

    /// Current round index.
    pub fn get_current_round_index(&self) -> (r: usize)
        ensures
            r as int == self@.round,
    {
        self.round
    }

    /// Number of seated players.
    pub fn get_player_amount(&self) -> (r: usize)
        ensures
            r as int == self@.player_amount,
    {
        self.player_amount
    }

    /// Seat whose turn it is.
    pub fn get_active_player_index(&self) -> (r: usize)
        ensures
            r as int == self@.active_player_index,
    {
        self.active_player_index
    }

    /// Number of betting rounds of this game.
    pub fn get_total_rounds() -> (r: usize)
        ensures
            r == 4,
    {
        4
    }

    /// The per-round action history.
    pub fn get_history(&self) -> (r: &Vec<Vec<Action>>)
        ensures
            r@.map_values(|v: Vec<Action>| v@) == self@.history,
    {
        &self.history
    }

    /// The community card slots.
    pub fn get_community_cards(&self) -> (r: &Vec<Card>)
        ensures
            r@ == self@.community_cards,
    {
        &self.community_cards
    }

    /// Replaces the community cards, e.g. to inject a known deal.
    pub fn set_community_cards(&mut self, community_cards: Vec<Card>)
        requires
            community_cards@.len() == 5,
        ensures
            final(self)@ == (GameModel { community_cards: community_cards@, ..old(self)@ }),
    {
        self.community_cards = community_cards;
    }

    /// The private hole cards of every seat.
    pub fn get_private_hands(&self) -> (r: &Vec<Vec<Card>>)
        ensures
            r@.map_values(|v: Vec<Card>| v@) == self@.private_hands,
    {
        &self.private_hands
    }

    /// Replaces the private hands, e.g. to inject a known deal.
    pub fn set_private_hands(&mut self, private_hands: Vec<Vec<Card>>)
        requires
            private_hands@.len() == 6,
            forall|p: int| 0 <= p < 6 ==> #[trigger] private_hands@[p]@.len() == 2,
        ensures
            final(self)@ == (GameModel {
                private_hands: private_hands@.map_values(|v: Vec<Card>| v@),
                ..old(self)@
            }),
    {
        self.private_hands = private_hands;
    }

    /// True when every remaining (not folded, not all-in) player has
    /// checked in the current round: the round holds as many calls as
    /// remaining players and no bet.
    pub fn all_remaining_players_checked(&self) -> (r: bool)
        requires
            self@.dims(),
            0 <= self@.round < 4,
        ensures
            r == self@.all_checked(),
    {
        let h = &self.history[self.round];
        proof {
            assert(h@ == self@.history[self@.round]);
        }
        let mut calls: usize = 0;
        let mut bets_seen: usize = 0;
        let mut i: usize = 0;
        while i < h.len()
            invariant
                i <= h@.len(),
                calls as int == count_calls(h@.subrange(0, i as int)),
                bets_seen as int == count_bets(h@.subrange(0, i as int)),
                calls <= i,
                bets_seen <= i,
            decreases h@.len() - i,
        {
            proof {
                assert(h@.subrange(0, i + 1).drop_last() =~= h@.subrange(0, i as int));
            }
            match h[i].action_type {
                crate::structs::ActionType::Call => { calls += 1; },
                crate::structs::ActionType::Bet => { bets_seen += 1; },
                _ => {},
            }
            i += 1;
        }
        proof {
            assert(h@.subrange(0, h@.len() as int) =~= h@);
        }
        calls == self.active_player_amount as usize && bets_seen == 0
    }

    /// True when the current round's last bet or raise has been answered:
    /// walking the history backwards, the first bet found has been
    /// followed by as many non-fold actions as there are remaining
    /// players, or the first all-in by strictly more.
    pub fn bet_or_raise_finished(&self) -> (r: bool)
        requires
            self@.dims(),
            0 <= self@.round < 4,
        ensures
            r == self@.bet_finished(),
    {
        let h = &self.history[self.round];
        proof {
            assert(h@ == self@.history[self@.round]);
        }
        let amount = self.active_player_amount as usize;
        let mut acc: usize = 0;
        let hlen: usize = h.len();
        let mut i: usize = hlen;
        proof {
            assert(h@.subrange(0, h@.len() as int) =~= h@);
        }
        while i > 0
            invariant
                i <= hlen,
                hlen == h@.len(),
                acc <= hlen - i,
                h@ == self@.history[self@.round],
                amount as int == self@.active_player_amount,
                bf_rec(h@, amount as int, 0)
                    == bf_rec(h@.subrange(0, i as int), amount as int, acc as int),
            decreases i,
        {
            i -= 1;
            let ghost pre = h@.subrange(0, i + 1);
            proof {
                assert(pre.drop_last() =~= h@.subrange(0, i as int));
                assert(pre.last() == h@[i as int]);
                assert(acc < hlen);
            }
            let a = h[i];
            let acc2 = if !(matches!(a.action_type, crate::structs::ActionType::Fold)) {
                acc + 1
            } else {
                acc
            };
            proof {
                assert(bf_rec(h@, amount as int, 0) == bf_rec(pre, amount as int, acc as int));
                assert(pre.len() > 0);
            }
            match a.action_type {
                crate::structs::ActionType::Bet => {
                    proof {
                        assert(bf_rec(pre, amount as int, acc as int) == (acc + 1 == amount as int));
                    }
                    return acc2 == amount;
                },
                crate::structs::ActionType::AllIn => {
                    proof {
                        assert(bf_rec(pre, amount as int, acc as int) == (acc + 1 > amount as int));
                    }
                    return acc2 > amount;
                },
                _ => {},
            }
            acc = acc2;
        }
        proof {
            assert(h@.subrange(0, 0) =~= Seq::<Action>::empty());
        }
        false
    }

    /// True when the hand can move on to the next betting round.
    pub fn can_proceed_to_next_round(&self) -> (r: bool)
        requires
            self@.dims(),
            0 <= self@.round < 4,
        ensures
            r == self@.can_proceed(),
    {
        self.round < 3 && self.active_player_amount > 1
            && (self.all_remaining_players_checked() || self.bet_or_raise_finished())
    }

    /// True when the hand is over and payoffs may be drawn.
    pub fn is_terminal(&self) -> (r: bool)
        requires
            self@.dims(),
            0 <= self@.round < 4,
            2 <= self@.player_amount <= 6,
        ensures
            r == self@.is_terminal(),
    {
        if self.active_player_amount == 0 {
            return true;
        }
        let mut folded: usize = 0;
        let mut p: usize = 0;
        while p < self.player_amount
            invariant
                p <= self@.player_amount,
                self@.dims(),
                self@.player_amount <= 6,
                folded as int == count_folded_seq(self@.folded_players, p as int),
                folded <= p,
            decreases self@.player_amount - p,
        {
            if self.folded_players[p] {
                folded += 1;
            }
            p += 1;
        }
        if folded == self.player_amount - 1 {
            return true;
        }
        if self.active_player_amount < 2
            && (self.all_remaining_players_checked() || self.bet_or_raise_finished()) {
            return true;
        }
        if self.round == 3
            && (self.all_remaining_players_checked() || self.bet_or_raise_finished()) {
            return true;
        }
        false
    }

    /// Subgame-resolving leaf predicate. Mode 0 marks no leaves; mode 1
    /// marks every state past the preflop round; mode 2 marks every state
    /// past the turn or with more than one bet in the current round.
    pub fn is_leaf_node(&self, leaf_node_placement: u8) -> (r: bool)
        requires
            self@.wf(),
        ensures
            r == (
                (leaf_node_placement == 1 && self@.round > 0)
                || (leaf_node_placement == 2
                    && (self@.round > 2 || count_bets(self@.history[self@.round]) > 1))
            ),
    {
        if leaf_node_placement == 1 && self.round > 0 {
            true
        } else if leaf_node_placement == 2 && (self.round > 2 || self.get_current_bet_count() > 1) {
            true
        } else {
            false
        }
    }
}

/// A chip row of six zeroes.
pub open spec fn zero_row() -> Seq<u32> {
    seq![0u32, 0, 0, 0, 0, 0]
}

/// An undealt two-card hand.
pub open spec fn blank_hand() -> Seq<Card> {
    seq![52u8, 52]
}

/// The model of a fresh hand: blinds posted by seats 0 and 1, preflop,
/// first action on seat 0 heads-up and on seat 2 otherwise, cards not yet
/// dealt.
pub open spec fn spec_initial(n: int) -> GameModel {
    GameModel {
        round: 0,
        player_amount: n,
        private_hands: seq![blank_hand(), blank_hand(), blank_hand(), blank_hand(), blank_hand(), blank_hand()],
        community_cards: seq![52u8, 52, 52, 52, 52],
        stacks: seq![
            (STACK_SIZE - SMALL_BLIND) as u32,
            (STACK_SIZE - BIG_BLIND) as u32,
            STACK_SIZE, STACK_SIZE, STACK_SIZE, STACK_SIZE,
        ],
        bets: seq![
            seq![SMALL_BLIND, BIG_BLIND, 0u32, 0, 0, 0],
            zero_row(), zero_row(), zero_row(),
        ],
        minimum_raise_amount: BIG_BLIND,
        history: seq![Seq::<Action>::empty(), Seq::empty(), Seq::empty(), Seq::empty()],
        active_player_index: if n == 2 { 0 } else { 2 },
        folded_players: seq![false, false, false, false, false, false],
        all_in_players: seq![-1i32, -1i32, -1i32, -1i32, -1i32, -1i32],
        pots: seq![
            seq![SMALL_BLIND, BIG_BLIND, 0u32, 0, 0, 0],
            zero_row(), zero_row(), zero_row(), zero_row(), zero_row(),
        ],
        round_pot_caps: zero_row(),
        current_pot: 0,
        active_player_amount: n,
    }
}

/// The hole cards of the seats below `n` and the five community cards are
/// valid and pairwise distinct; unseated seats hold the sentinel hand.
pub open spec fn deal_parts_ok(hands: Seq<Seq<Card>>, comm: Seq<Card>, n: int) -> bool {
    &&& (forall|p: int, i: int| 0 <= p < n && 0 <= i < 2 ==>
            cards::spec_valid_card(#[trigger] hands[p][i]))
    &&& (forall|j: int| 0 <= j < 5 ==> cards::spec_valid_card(#[trigger] comm[j]))
    &&& (forall|p: int, i: int, q: int, j: int|
            0 <= p < n && 0 <= i < 2 && 0 <= q < n && 0 <= j < 2
            && (p != q || i != j)
            ==> #[trigger] hands[p][i] != #[trigger] hands[q][j])
    &&& (forall|p: int, i: int, j: int|
            0 <= p < n && 0 <= i < 2 && 0 <= j < 5
            ==> #[trigger] hands[p][i] != #[trigger] comm[j])
    &&& (forall|i: int, j: int| 0 <= i < j < 5 ==> comm[i] != comm[j])
    &&& (forall|p: int| n <= p < 6 ==> #[trigger] hands[p] == blank_hand())
}

/// The dealt cards of a model are valid and pairwise distinct: every
/// seated hole card and every community card is below 52 and no two of
/// them coincide. Unseated seats keep the sentinel.
pub open spec fn spec_deal_ok(m: GameModel) -> bool {
    deal_parts_ok(m.private_hands, m.community_cards, m.player_amount)
}

/// The hands and board come off the top of the given deck: two cards per
/// seated player in seat order, then five community cards.
pub open spec fn deal_from_deck(hands: Seq<Seq<Card>>, comm: Seq<Card>, deck: Seq<Card>, n: int) -> bool {
    &&& (forall|p: int, i: int| 0 <= p < n && 0 <= i < 2 ==>
            #[trigger] hands[p][i] == deck[2 * p + i])
    &&& (forall|j: int| 0 <= j < 5 ==> #[trigger] comm[j] == deck[2 * n + j])
}

/// Draws two hole cards for each seated player and five community cards
/// from a freshly shuffled deck.
fn deal_cards(player_amount: usize, rng_seed: Option<u64>) -> (r: (Vec<Vec<Card>>, Vec<Card>))
    requires
        2 <= player_amount <= 6,
    ensures
        r.0@.len() == 6,
        forall|p: int| 0 <= p < 6 ==> #[trigger] r.0@[p]@.len() == 2,
        r.1@.len() == 5,
        deal_parts_ok(r.0@.map_values(|v: Vec<Card>| v@), r.1@, player_amount as int),
        rng_seed matches Some(seed) ==> deal_from_deck(
            r.0@.map_values(|v: Vec<Card>| v@), r.1@,
            cards::spec_shuffled_deck(seed), player_amount as int),
{
    let deck = crate::cards::shuffled_deck(rng_seed);
    let mut private_hands: Vec<Vec<Card>> = Vec::new();
    let mut p: usize = 0;
    while p < 6
        invariant
            p <= 6,
            2 <= player_amount <= 6,
            deck@.len() == 52,
            cards::spec_distinct_valid_cards(deck@),
            private_hands@.len() == p,
            forall|q: int, i: int| 0 <= q < p && q < player_amount && 0 <= i < 2 ==>
                #[trigger] private_hands@[q]@[i] == deck@[2 * q + i],
            forall|q: int| 0 <= q < p ==> #[trigger] private_hands@[q]@.len() == 2,
            forall|q: int| player_amount <= q < p ==> #[trigger] private_hands@[q]@ == blank_hand(),
        decreases 6 - p,
    {
        let mut hand: Vec<Card> = Vec::new();
        if p < player_amount {
            hand.push(deck[2 * p]);
            hand.push(deck[2 * p + 1]);
        } else {
            hand.push(52);
            hand.push(52);
            proof {
                assert(hand@ =~= blank_hand());
            }
        }
        private_hands.push(hand);
        p += 1;
    }
    let mut community_cards: Vec<Card> = Vec::new();
    let mut j: usize = 0;
    while j < 5
        invariant
            j <= 5,
            2 <= player_amount <= 6,
            deck@.len() == 52,
            cards::spec_distinct_valid_cards(deck@),
            community_cards@.len() == j,
            forall|i: int| 0 <= i < j ==>
                #[trigger] community_cards@[i] == deck@[2 * (player_amount as int) + i],
        decreases 5 - j,
    {
        community_cards.push(deck[2 * player_amount + j]);
        j += 1;
    }
    proof {
        let n = player_amount as int;
        let hs = private_hands@.map_values(|v: Vec<Card>| v@);
        let cc = community_cards@;
        assert forall|p0: int, i: int| 0 <= p0 < n && 0 <= i < 2 implies
            cards::spec_valid_card(#[trigger] hs[p0][i]) by {
            assert(hs[p0][i] == deck@[2 * p0 + i]);
        }
        assert forall|i: int| 0 <= i < 5 implies cards::spec_valid_card(#[trigger] cc[i]) by {
            assert(cc[i] == deck@[2 * n + i]);
        }
        assert forall|p0: int, i: int, q: int, j0: int|
            0 <= p0 < n && 0 <= i < 2 && 0 <= q < n && 0 <= j0 < 2 && (p0 != q || i != j0)
            implies #[trigger] hs[p0][i] != #[trigger] hs[q][j0] by {
            assert(hs[p0][i] == deck@[2 * p0 + i]);
            assert(hs[q][j0] == deck@[2 * q + j0]);
            assert(2 * p0 + i != 2 * q + j0);
        }
        assert forall|p0: int, i: int, j0: int| 0 <= p0 < n && 0 <= i < 2 && 0 <= j0 < 5
            implies #[trigger] hs[p0][i] != #[trigger] cc[j0] by {
            assert(hs[p0][i] == deck@[2 * p0 + i]);
            assert(cc[j0] == deck@[2 * n + j0]);
            assert(2 * p0 + i < 2 * n + j0 < 52);
        }
        assert forall|i: int, j0: int| 0 <= i < j0 < 5 implies cc[i] != cc[j0] by {
            assert(cc[i] == deck@[2 * n + i]);
            assert(cc[j0] == deck@[2 * n + j0]);
        }
        assert forall|p0: int, i: int| 0 <= p0 < n && 0 <= i < 2 implies
            #[trigger] hs[p0][i] == deck@[2 * p0 + i] by {}
        assert forall|j0: int| 0 <= j0 < 5 implies #[trigger] cc[j0] == deck@[2 * n + j0] by {}
        match rng_seed {
            Some(seed) => {
                assert(deck@ == cards::spec_shuffled_deck(seed));
                assert(deal_from_deck(hs, cc, cards::spec_shuffled_deck(seed), n));
            },
            None => {},
        }
    }
    (private_hands, community_cards)
}

impl NLTHGameState {
    /// Builds the state of a fresh hand: blinds posted, preflop, first
    /// action on the seat after the big blind (seat 0 heads-up). With
    /// `draw_cards`, hole and community cards come off a deck shuffled by
    /// a Fisher-Yates drive from the given seed (or a fresh one);
    /// otherwise every card slot keeps the sentinel so that a deal can be
    /// injected later.
    pub fn new_empty(player_amount: usize, draw_cards: bool, rng_seed: Option<u64>) -> (r: Self)
        requires
            2 <= player_amount <= 6,
        ensures
            r@ == (GameModel {
                private_hands: r@.private_hands,
                community_cards: r@.community_cards,
                ..spec_initial(player_amount as int)
            }),
            !draw_cards ==> r@ == spec_initial(player_amount as int),
            draw_cards ==> spec_deal_ok(r@),
            draw_cards ==> (rng_seed matches Some(seed) ==> deal_from_deck(
                r@.private_hands, r@.community_cards,
                cards::spec_shuffled_deck(seed), player_amount as int)),
            r@.wf(),
    {
        let ghost n = player_amount as int;
        let mut private_hands: Vec<Vec<Card>> = Vec::new();
        let mut community_cards: Vec<Card> = Vec::new();
        if draw_cards {
            let dealt = deal_cards(player_amount, rng_seed);
            private_hands = dealt.0;
            community_cards = dealt.1;
        } else {
            let mut p: usize = 0;
            while p < 6
                invariant
                    p <= 6,
                    private_hands@.len() == p,
                    forall|q: int| 0 <= q < p ==> #[trigger] private_hands@[q]@ == blank_hand(),
                decreases 6 - p,
            {
                let mut hand: Vec<Card> = Vec::new();
                hand.push(52);
                hand.push(52);
                proof {
                    assert(hand@ =~= blank_hand());
                }
                private_hands.push(hand);
                p += 1;
            }
            let mut j: usize = 0;
            while j < 5
                invariant
                    j <= 5,
                    community_cards@.len() == j,
                    forall|i: int| 0 <= i < j ==> #[trigger] community_cards@[i] == 52,
                decreases 5 - j,
            {
                community_cards.push(52);
                j += 1;
            }
        }

        let sb_stack: u32 = STACK_SIZE - SMALL_BLIND;
        let bb_stack: u32 = STACK_SIZE - BIG_BLIND;
        let stacks: Vec<u32> = vec![
            sb_stack, bb_stack,
            STACK_SIZE, STACK_SIZE, STACK_SIZE, STACK_SIZE,
        ];
        let blind_row: Vec<u32> = vec![SMALL_BLIND, BIG_BLIND, 0, 0, 0, 0];
        let bets: Vec<Vec<u32>> = vec![
            vec![SMALL_BLIND, BIG_BLIND, 0, 0, 0, 0],
            vec![0, 0, 0, 0, 0, 0],
            vec![0, 0, 0, 0, 0, 0],
            vec![0, 0, 0, 0, 0, 0],
        ];
        let pots: Vec<Vec<u32>> = vec![
            blind_row,
            vec![0, 0, 0, 0, 0, 0],
            vec![0, 0, 0, 0, 0, 0],
            vec![0, 0, 0, 0, 0, 0],
            vec![0, 0, 0, 0, 0, 0],
            vec![0, 0, 0, 0, 0, 0],
        ];
        let history: Vec<Vec<Action>> = vec![Vec::new(), Vec::new(), Vec::new(), Vec::new()];
        let r = NLTHGameState {
            round: 0,
            player_amount,
            private_hands,
            community_cards,
            stacks,
            bets,
            minimum_raise_amount: BIG_BLIND,
            history,
            active_player_index: if player_amount == 2 { 0 } else { 2 },
            folded_players: vec![false, false, false, false, false, false],
            all_in_players: vec![-1, -1, -1, -1, -1, -1],
            pots,
            current_round_pot_all_in_amounts: vec![0, 0, 0, 0, 0, 0],
            current_pot: 0,
            active_player_amount: player_amount as u8,
        };
        proof {
            let init = spec_initial(n);
            assert(r@.stacks =~= init.stacks);
            assert(r@.bets =~~= init.bets);
            assert(r@.pots =~~= init.pots);
            assert(r@.history =~~= init.history);
            assert(r@.folded_players =~= init.folded_players);
            assert(r@.all_in_players =~= init.all_in_players);
            assert(r@.round_pot_caps =~= init.round_pot_caps);
            assert(r@ == (GameModel {
                private_hands: r@.private_hands,
                community_cards: r@.community_cards,
                ..init
            }));
            if !draw_cards {
                assert(r@.private_hands =~~= init.private_hands);
                assert(r@.community_cards =~= init.community_cards);
                assert(r@ == init);
            }
            lemma_new_empty_model(r@, n, draw_cards);
        }
        r
    }
}

/// The freshly built state matches `spec_initial` on every non-card field
/// and is well-formed.
proof fn lemma_new_empty_model(m: GameModel, n: int, draw: bool)
    requires
        2 <= n <= 6,
        m == (GameModel { private_hands: m.private_hands, community_cards: m.community_cards, ..spec_initial(n) }),
        m.private_hands.len() == 6,
        forall|p: int| 0 <= p < 6 ==> #[trigger] m.private_hands[p].len() == 2,
        m.community_cards.len() == 5,
    ensures
        m.wf(),
{
    let init = spec_initial(n);
    assert forall|p: int| 0 <= p < n implies m.eligible(p) by {}
    lemma_count_eligible_all(m, n);
    lemma_count_allin_none(m, n);
    assert forall|p: int| 0 <= p < 6 implies
        #[trigger] col_sum(m.pots, p, 6) == col_sum(m.bets, p, 4) by {
        reveal_with_fuel(col_sum, 7);
        assert(col_sum(m.bets, p, 4) == m.bets[0][p] + m.bets[1][p] + m.bets[2][p] + m.bets[3][p]);
        assert(col_sum(m.pots, p, 6) == m.pots[0][p] + m.pots[1][p] + m.pots[2][p] + m.pots[3][p]
            + m.pots[4][p] + m.pots[5][p]);
    }
    assert forall|p: int| 0 <= p < 6 implies
        #[trigger] (m.stacks[p] + col_sum(m.bets, p, 4)) <= PLAYER_CHIP_LIMIT by {
        reveal_with_fuel(col_sum, 7);
        assert(col_sum(m.bets, p, 4) == m.bets[0][p] + m.bets[1][p] + m.bets[2][p] + m.bets[3][p]);
    }
    assert(pot_bounds_wf(m.pots, m.all_in_players, 0));
    assert(caps_wf(m.round_pot_caps, 0));
    assert(m.dims());
    assert(2 <= m.player_amount <= 6);
    assert(0 <= m.round < 4);
    assert(0 <= m.active_player_index < m.player_amount);
    assert(0 <= m.current_pot <= 6);
    assert(m.current_pot == m.count_allin(m.player_amount));
    assert(m.active_player_amount == m.count_eligible(m.player_amount));
    assert(m.active_player_amount > 0 ==> m.eligible(m.active_player_index));
    assert(forall|p: int| 0 <= p < m.player_amount ==>
        !(m.folded_players[p] && #[trigger] m.all_in_players[p] != -1));
    assert(forall|p: int| m.player_amount <= p < 6 ==>
        !m.folded_players[p] && #[trigger] m.all_in_players[p] == -1);
    assert(forall|r: int, p: int| 0 <= r < 4 && m.player_amount <= p < 6 ==>
        #[trigger] m.bets[r][p] == 0);
    assert(forall|k: int, p: int| 0 <= k < 6 && m.player_amount <= p < 6 ==>
        #[trigger] m.pots[k][p] == 0);
    assert(m.minimum_raise_amount <= PLAYER_CHIP_LIMIT);
}

/// When every seat below `k` may act, the eligible count below `k` is `k`.
pub proof fn lemma_count_eligible_all(m: GameModel, k: int)
    requires
        forall|p: int| 0 <= p < k ==> m.eligible(p),
    ensures
        m.count_eligible(k) == if k >= 0 { k } else { 0 },
    decreases k,
{
    if k > 0 {
        lemma_count_eligible_all(m, k - 1);
        assert(m.eligible(k - 1));
    }
}

/// When no seat below `k` is all-in, the all-in count below `k` is zero.
pub proof fn lemma_count_allin_none(m: GameModel, k: int)
    requires
        forall|p: int| 0 <= p < k ==> m.all_in_players[p] == -1,
    ensures
        m.count_allin(k) == 0,
    decreases k,
{
    if k > 0 {
        lemma_count_allin_none(m, k - 1);
    }
}

/// Number of `Bet` actions in a history.
pub open spec fn count_bets(h: Seq<Action>) -> int
    decreases h.len(),
{
    if h.len() == 0 {
        0
    } else {
        count_bets(h.drop_last()) + if h.last().action_type is Bet { 1int } else { 0 }
    }
}

/// Number of `Call` actions in a history.
pub open spec fn count_calls(h: Seq<Action>) -> int
    decreases h.len(),
{
    if h.len() == 0 {
        0
    } else {
        count_calls(h.drop_last()) + if h.last().action_type is Call { 1int } else { 0 }
    }
}

/// One matrix entry is at most its column sum.
pub proof fn lemma_entry_le_col_sum(mat: Seq<Seq<u32>>, r: int, p: int, k: int)
    requires
        0 <= r < k,
    ensures
        mat[r][p] <= col_sum(mat, p, k),
    decreases k,
{
    lemma_col_sum_nonneg(mat, p, k - 1);
    if r < k - 1 {
        lemma_entry_le_col_sum(mat, r, p, k - 1);
    }
}

/// Each pot-row prefix is bounded by the sum of the per-seat chip limits
/// of the seats it covers, which keeps `u32` additions over a row safe.
pub proof fn lemma_row_prefix_le_limit(m: GameModel, k: int, p: int)
    requires
        m.wf(),
        0 <= k < 6,
        0 <= p <= 6,
    ensures
        seq_sum_to(m.pots[k], p) <= p * (PLAYER_CHIP_LIMIT as int),
        seq_sum_to(m.pots[k], p) <= 6 * (PLAYER_CHIP_LIMIT as int),
    decreases p,
{
    lemma_seq_sum_to_nonneg(m.pots[k], p);
    if p > 0 {
        lemma_row_prefix_le_limit(m, k, p - 1);
        lemma_entry_le_col_sum(m.pots, k, p - 1, 6);
        assert(m.pots_total(p - 1) == m.bets_total(p - 1));
        assert(m.stacks[p - 1] + m.bets_total(p - 1) <= PLAYER_CHIP_LIMIT);
    }
}

/// Matrix prefix totals are monotone in the number of rows.
proof fn lemma_mat_prefix_le_total(m: GameModel, k: int)
    requires
        m.wf(),
        0 <= k <= 6,
    ensures
        mat_total_to(m.pots, k) <= m.total_pot(),
        mat_total_to(m.pots, k) >= 0,
    decreases 6 - k,
{
    lemma_mat_total_nonneg(m.pots, k);
    if k < 6 {
        lemma_mat_prefix_le_total(m, k + 1);
        lemma_seq_sum_to_nonneg(m.pots[k], 6);
    }
}

/// Matrix prefix totals are non-negative.
pub proof fn lemma_mat_total_nonneg(mat: Seq<Seq<u32>>, k: int)
    ensures
        mat_total_to(mat, k) >= 0,
    decreases k,
{
    if k > 0 {
        lemma_mat_total_nonneg(mat, k - 1);
        lemma_seq_sum_to_nonneg(mat[k - 1], mat[k - 1].len() as int);
    }
}

} // verus!
