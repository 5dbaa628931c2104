//! Settlement of a finished hand: the chips each seat wins or loses,
//! pot by pot, with side pots split among exactly the players entitled
//! to them.
use vstd::prelude::*;

use crate::constants::{Card, PLAYER_CHIP_LIMIT};
use super::game_state::{
    col_sum, col_sums_to, lemma_col_sum_nonneg, lemma_entry_le_col_sum,
    lemma_mat_total_nonneg, lemma_seq_sum_to_nonneg, lemma_total_pot_bound, seq_sum, seq_sum_to,
    GameModel, NLTHGameState,
};
use super::rank::spec_hand_rank7;

verus! {

impl GameModel {
    /// The seven cards seat `p` shows down: two hole cards and the board.
    pub open spec fn hand7(self, p: int) -> Seq<Card> {
        self.private_hands[p] + self.community_cards
    }

    /// Seat `p` contests pot `k`: seated, not folded, and either never
    /// all-in or all-in at pot `k` or later, so that it has chips in this
    /// pot.
    pub open spec fn eligible_for_pot(self, k: int, p: int) -> bool {
        &&& 0 <= p < self.player_amount
        &&& !self.folded_players[p]
        &&& (self.all_in_players[p] == -1 || self.all_in_players[p] >= k)
    }

    /// Some seat contests pot `k`.
    pub open spec fn exists_eligible(self, k: int) -> bool {
        exists|p: int| self.eligible_for_pot(k, p)
    }

    /// The best hand strength among the seats below `q` contesting pot
    /// `k` (zero when none does).
    pub open spec fn best_rank_upto(self, k: int, q: int) -> int
        decreases q,
    {
        if q <= 0 {
            0
        } else {
            let rest = self.best_rank_upto(k, q - 1);
            if self.eligible_for_pot(k, q - 1)
                && spec_hand_rank7(self.hand7(q - 1)) as int > rest {
                spec_hand_rank7(self.hand7(q - 1)) as int
            } else {
                rest
            }
        }
    }

    /// Seat `p` wins pot `k`: it contests the pot and shows the best
    /// strength among its contestants.
    pub open spec fn wins_pot(self, k: int, p: int) -> bool {
        self.eligible_for_pot(k, p)
            && spec_hand_rank7(self.hand7(p)) as int == self.best_rank_upto(k, self.player_amount)
    }

    /// How many seats below `q` win pot `k`.
    pub open spec fn count_winners_upto(self, k: int, q: int) -> int
        decreases q,
    {
        if q <= 0 {
            0
        } else {
            self.count_winners_upto(k, q - 1) + if self.wins_pot(k, q - 1) { 1int } else { 0 }
        }
    }

    /// What seat `p` takes from or leaves in pot `k`: winners split the
    /// pot evenly (remainders are discarded) and recover their own
    /// contribution; contesting losers lose their contribution; everyone
    /// else is settled elsewhere.
    pub open spec fn pot_payoff(self, k: int, p: int) -> int {
        if !self.exists_eligible(k) {
            0
        } else if self.wins_pot(k, p) {
            seq_sum(self.pots[k]) / self.count_winners_upto(k, self.player_amount)
                - self.pots[k][p]
        } else if self.eligible_for_pot(k, p) {
            -self.pots[k][p]
        } else {
            0
        }
    }

    /// Seat `p`'s settlement over the pots below `k`.
    pub open spec fn pot_payoffs_to(self, p: int, k: int) -> int
        decreases k,
    {
        if k <= 0 {
            0
        } else {
            self.pot_payoffs_to(p, k - 1) + self.pot_payoff(k - 1, p)
        }
    }

    /// The payoff of seat `p` in this terminal state. When all but one
    /// seat folded, the survivor takes the whole table minus its own
    /// bets and each folded seat loses what it put in the pots. At a
    /// showdown each pot is settled on its own among the seats entitled
    /// to it, and folded seats lose their pot contributions.
    pub open spec fn spec_payoff(self, p: int) -> int {
        if p < 0 || p >= self.player_amount {
            0
        } else if self.count_folded(self.player_amount) == self.player_amount - 1 {
            if !self.folded_players[p] {
                self.total_pot() - self.bets_total(p)
            } else {
                -self.pots_total(p)
            }
        } else if self.folded_players[p] {
            -self.pots_total(p)
        } else {
            self.pot_payoffs_to(p, 6)
        }
    }

    /// The cards needed at a showdown are dealt and valid: the board and
    /// the hole cards of every seat still in the hand.
    pub open spec fn showdown_cards_ok(self) -> bool {
        &&& (forall|j: int| 0 <= j < 5 ==> #[trigger] self.community_cards[j] < 52)
        &&& (forall|p: int, i: int|
                0 <= p < self.player_amount && !self.folded_players[p] && 0 <= i < 2
                ==> #[trigger] self.private_hands[p][i] < 52)
    }
}

/// A contesting seat's strength never exceeds the best one.
proof fn lemma_rank_le_best(m: GameModel, k: int, p: int, q: int)
    requires
        0 <= p < q,
        m.eligible_for_pot(k, p),
    ensures
        spec_hand_rank7(m.hand7(p)) as int <= m.best_rank_upto(k, q),
    decreases q,
{
    if p < q - 1 {
        lemma_rank_le_best(m, k, p, q - 1);
    }
}

/// A positive best strength is attained by some contesting seat.
proof fn lemma_best_attained(m: GameModel, k: int, q: int)
    ensures
        m.best_rank_upto(k, q) == 0 || exists|p: int| 0 <= p < q && m.eligible_for_pot(k, p)
            && spec_hand_rank7(m.hand7(p)) as int == m.best_rank_upto(k, q),
    decreases q,
{
    if q > 0 {
        if m.eligible_for_pot(k, q - 1)
            && spec_hand_rank7(m.hand7(q - 1)) as int > m.best_rank_upto(k, q - 1) {
            assert(0 <= q - 1 < q && m.eligible_for_pot(k, q - 1)
                && spec_hand_rank7(m.hand7(q - 1)) as int == m.best_rank_upto(k, q));
        } else {
            lemma_best_attained(m, k, q - 1);
        }
    }
}

/// A contested pot has a positive winner count.
pub proof fn lemma_count_winners_pos(m: GameModel, k: int)
    requires
        m.exists_eligible(k),
    ensures
        m.count_winners_upto(k, m.player_amount) >= 1,
        m.count_winners_upto(k, m.player_amount) >= 0,
{
    let n = m.player_amount;
    let p0 = choose|p: int| m.eligible_for_pot(k, p);
    assert(0 <= p0 < n);
    lemma_best_attained(m, k, n);
    lemma_rank_le_best(m, k, p0, n);
    if m.best_rank_upto(k, n) == 0 {
        assert(m.wins_pot(k, p0));
        lemma_count_winners_member(m, k, p0, n);
    } else {
        let w = choose|p: int| 0 <= p < n && m.eligible_for_pot(k, p)
            && spec_hand_rank7(m.hand7(p)) as int == m.best_rank_upto(k, n);
        lemma_count_winners_member(m, k, w, n);
    }
}

/// A winner below `q` makes the winner count below `q` positive.
proof fn lemma_count_winners_member(m: GameModel, k: int, w: int, q: int)
    requires
        0 <= w < q,
        m.wins_pot(k, w),
        q <= m.player_amount,
    ensures
        m.count_winners_upto(k, q) >= 1,
    decreases q,
{
    lemma_count_winners_nonneg(m, k, q - 1);
    if w < q - 1 {
        lemma_count_winners_member(m, k, w, q - 1);
    }
}

/// Winner counts are non-negative.
proof fn lemma_count_winners_nonneg(m: GameModel, k: int, q: int)
    ensures
        m.count_winners_upto(k, q) >= 0,
    decreases q,
{
    if q > 0 {
        lemma_count_winners_nonneg(m, k, q - 1);
    }
}

/// One pot's settlement for one seat lies between losing the seat's own
/// contribution and gaining the whole pot.
proof fn lemma_pot_payoff_bounds(m: GameModel, k: int, p: int)
    requires
        m.wf(),
        0 <= k < 6,
        0 <= p < 6,
    ensures
        -(m.pots[k][p] as int) <= m.pot_payoff(k, p) <= seq_sum(m.pots[k]),
{
    lemma_seq_sum_to_nonneg(m.pots[k], 6);
    if m.exists_eligible(k) {
        lemma_count_winners_pos(m, k);
        let w = m.count_winners_upto(k, m.player_amount);
        vstd::arithmetic::div_mod::lemma_div_basics_4(seq_sum(m.pots[k]), w);
        vstd::arithmetic::div_mod::lemma_div_basics_5(seq_sum(m.pots[k]), w);
    }
}

/// A seat's settlement over the pots below `k` lies between losing all
/// its pot chips and gaining the whole table.
proof fn lemma_pot_payoffs_to_bounds(m: GameModel, p: int, k: int)
    requires
        m.wf(),
        0 <= k <= 6,
        0 <= p < 6,
    ensures
        -col_sum(m.pots, p, k) <= m.pot_payoffs_to(p, k)
            <= super::game_state::mat_total_to(m.pots, k),
    decreases k,
{
    if k > 0 {
        lemma_pot_payoffs_to_bounds(m, p, k - 1);
        lemma_pot_payoff_bounds(m, k - 1, p);
        assert(seq_sum(m.pots[k - 1]) == seq_sum_to(m.pots[k - 1], 6));
    }
}

/// One column's chips are at most the whole table's.
proof fn lemma_col_le_total(m: GameModel, p: int)
    requires
        m.wf(),
        0 <= p < 6,
    ensures
        col_sum(m.pots, p, 6) <= m.total_pot(),
{
    lemma_total_pot_bound(m);
    lemma_col_le_colsums(m.pots, p, 6);
}

proof fn lemma_col_le_colsums(mat: Seq<Seq<u32>>, p: int, q: int)
    requires
        0 <= p < q,
    ensures
        col_sum(mat, p, 6) <= col_sums_to(mat, 6, q),
    decreases q,
{
    lemma_col_sum_nonneg(mat, q - 1, 6);
    if p < q - 1 {
        lemma_col_le_colsums(mat, p, q - 1);
    } else {
        lemma_col_sums_to_nonneg(mat, q - 1);
    }
}

proof fn lemma_col_sums_to_nonneg(mat: Seq<Seq<u32>>, q: int)
    ensures
        col_sums_to(mat, 6, q) >= 0,
    decreases q,
{
    if q > 0 {
        lemma_col_sums_to_nonneg(mat, q - 1);
        lemma_col_sum_nonneg(mat, q - 1, 6);
    }
}

impl NLTHGameState {
    /// Chips seat `p` committed over all four rounds.
    fn bets_total_of(&self, p: usize) -> (r: u32)
        requires
            self@.wf(),
            p < 6,
        ensures
            r as int == col_sum(self@.bets, p as int, 4),
            r <= PLAYER_CHIP_LIMIT,
    {
        proof {
            assert(self@.stacks[p as int] + col_sum(self@.bets, p as int, 4) <= PLAYER_CHIP_LIMIT);
            lemma_col_sum_nonneg(self@.bets, p as int, 4);
        }
        let mut total: u32 = 0;
        let mut r: usize = 0;
        while r < 4
            invariant
                r <= 4,
                p < 6,
                self@.wf(),
                total as int == col_sum(self@.bets, p as int, r as int),
                col_sum(self@.bets, p as int, 4) <= PLAYER_CHIP_LIMIT,
            decreases 4 - r,
        {
            proof {
                lemma_col_sum_nonneg(self@.bets, p as int, r as int);
                lemma_col_prefix_le(self@.bets, p as int, r + 1, 4);
            }
            total = total + self.bets[r][p];
            r += 1;
        }
        total
    }

    /// Chips seat `p` holds over all six pots.
    fn pots_total_of(&self, p: usize) -> (r: u32)
        requires
            self@.wf(),
            p < 6,
        ensures
            r as int == col_sum(self@.pots, p as int, 6),
            r <= PLAYER_CHIP_LIMIT,
    {
        proof {
            assert(col_sum(self@.pots, p as int, 6) == col_sum(self@.bets, p as int, 4));
            assert(self@.stacks[p as int] + col_sum(self@.bets, p as int, 4) <= PLAYER_CHIP_LIMIT);
            lemma_col_sum_nonneg(self@.pots, p as int, 6);
        }
        let mut total: u32 = 0;
        let mut k: usize = 0;
        while k < 6
            invariant
                k <= 6,
                p < 6,
                self@.wf(),
                total as int == col_sum(self@.pots, p as int, k as int),
                col_sum(self@.pots, p as int, 6) <= PLAYER_CHIP_LIMIT,
            decreases 6 - k,
        {
            proof {
                lemma_col_sum_nonneg(self@.pots, p as int, k as int);
                lemma_col_prefix_le(self@.pots, p as int, k + 1, 6);
            }
            total = total + self.pots[k][p];
            k += 1;
        }
        total
    }

    /// The chips in pot `k`.
    fn pot_row_sum(&self, k: usize) -> (r: u32)
        requires
            self@.wf(),
            k < 6,
        ensures
            r as int == seq_sum(self@.pots[k as int]),
            r <= 6 * PLAYER_CHIP_LIMIT,
    {
        let row = &self.pots[k];
        proof {
            assert(row@ == self@.pots[k as int]);
        }
        let mut total: u32 = 0;
        let mut p: usize = 0;
        while p < 6
            invariant
                p <= 6,
                k < 6,
                self@.wf(),
                row@ == self@.pots[k as int],
                total as int == seq_sum_to(row@, p as int),
                0 <= seq_sum_to(row@, p as int) <= 6 * PLAYER_CHIP_LIMIT,
            decreases 6 - p,
        {
            proof {
                super::game_state::lemma_row_prefix_le_limit(self@, k as int, p as int + 1);
            }
            total = total + row[p];
            p += 1;
        }
        proof {
            assert(seq_sum(row@) == seq_sum_to(row@, 6));
        }
        total
    }
}

/// A seat that never contests any pot settles to zero over the pots.
pub proof fn lemma_pot_payoffs_zero(m: GameModel, p: int, k: int)
    requires
        p >= m.player_amount || p < 0 || m.folded_players[p],
    ensures
        m.pot_payoffs_to(p, k) == 0,
    decreases k,
{
    if k > 0 {
        lemma_pot_payoffs_zero(m, p, k - 1);
        assert(!m.eligible_for_pot(k - 1, p));
        assert(!m.wins_pot(k - 1, p));
    }
}

impl NLTHGameState {
    /// The payoff of every seat in this terminal state: zero-sum across
    /// the seated players up to the remainders of uneven pot splits.
    /// When the hand ends with every seat but one folded no cards are
    /// read; a showdown reads the board and the surviving seats' hole
    /// cards, which must then hold valid cards.
    pub fn get_payoffs(&self) -> (r: Vec<i32>)
        requires
            self@.wf(),
            self@.is_terminal(),
            self@.count_folded(self@.player_amount) == self@.player_amount - 1
                || self@.showdown_cards_ok(),
        ensures
            r@.len() == 6,
            forall|p: int| 0 <= p < 6 ==> #[trigger] r@[p] as int == self@.spec_payoff(p),
    {
        let ghost m = self@;
        let n = self.player_amount;
        let mut folded_count: usize = 0;
        let mut p: usize = 0;
        while p < n
            invariant
                p <= n,
                n == m.player_amount,
                m == self@,
                m.wf(),
                folded_count as int
                    == super::game_state::count_folded_seq(m.folded_players, p as int),
                folded_count <= p,
            decreases n - p,
        {
            if self.folded_players[p] {
                folded_count += 1;
            }
            p += 1;
        }

        if folded_count == n - 1 {
            // One survivor: it takes the whole table minus its own bets;
            // every folded seat loses its pot contributions.
            let total = self.get_total_pot();
            proof {
                lemma_total_pot_bound(m);
            }
            let mut out: Vec<i32> = Vec::new();
            let mut p2: usize = 0;
            while p2 < 6
                invariant
                    p2 <= 6,
                    n == m.player_amount,
                    m == self@,
                    m.wf(),
                    m.count_folded(m.player_amount) == m.player_amount - 1,
                    total as int == m.total_pot(),
                    total <= 6 * PLAYER_CHIP_LIMIT,
                    out@.len() == p2,
                    forall|q: int| 0 <= q < p2 ==> #[trigger] out@[q] as int == m.spec_payoff(q),
                decreases 6 - p2,
            {
                let v: i32 = if p2 >= n {
                    0
                } else if !self.folded_players[p2] {
                    let own = self.bets_total_of(p2);
                    proof {
                        lemma_col_le_total(m, p2 as int);
                        assert(col_sum(m.pots, p2 as int, 6) == col_sum(m.bets, p2 as int, 4));
                        lemma_col_sum_nonneg(m.bets, p2 as int, 4);
                    }
                    (total - own) as i32
                } else {
                    let own = self.pots_total_of(p2);
                    proof {
                        lemma_col_sum_nonneg(m.pots, p2 as int, 6);
                    }
                    0 - (own as i32)
                };
                out.push(v);
                p2 += 1;
            }
            return out;
        }

        // Showdown: rank every surviving seat's seven cards once.
        let mut rank_of: Vec<u32> = vec![0, 0, 0, 0, 0, 0];
        let mut p3: usize = 0;
        while p3 < n
            invariant
                p3 <= n,
                n == m.player_amount,
                m == self@,
                m.wf(),
                m.showdown_cards_ok(),
                rank_of@.len() == 6,
                forall|q: int| 0 <= q < p3 && !m.folded_players[q] ==>
                    #[trigger] rank_of@[q] == spec_hand_rank7(m.hand7(q)),
            decreases n - p3,
        {
            if !self.folded_players[p3] {
                proof {
                    assert(self.private_hands@[p3 as int]@ == m.private_hands[p3 as int]);
                    assert(m.private_hands[p3 as int].len() == 2);
                }
                let mut hand: Vec<Card> = Vec::new();
                hand.push(self.private_hands[p3][0]);
                hand.push(self.private_hands[p3][1]);
                let mut j: usize = 0;
                while j < 5
                    invariant
                        j <= 5,
                        m == self@,
                        m.wf(),
                        p3 < m.player_amount,
                        hand@ =~= m.private_hands[p3 as int].subrange(0, 2)
                            + m.community_cards.subrange(0, j as int),
                    decreases 5 - j,
                {
                    hand.push(self.community_cards[j]);
                    proof {
                        assert(hand@ =~= m.private_hands[p3 as int].subrange(0, 2)
                            + m.community_cards.subrange(0, j + 1));
                    }
                    j += 1;
                }
                proof {
                    assert(m.private_hands[p3 as int].subrange(0, 2) =~= m.private_hands[p3 as int]);
                    assert(m.community_cards.subrange(0, 5) =~= m.community_cards);
                    assert(hand@ =~= m.hand7(p3 as int));
                    assert forall|i: int| 0 <= i < 7 implies #[trigger] hand@[i] < 52 by {
                        if i < 2 {
                            assert(hand@[i] == m.private_hands[p3 as int][i]);
                        } else {
                            assert(hand@[i] == m.community_cards[i - 2]);
                        }
                    }
                }
                let v = super::rank::rank_hand(hand);
                rank_of.set(p3, v);
            }
            p3 += 1;
        }

        // Settle each pot among the seats entitled to it.
        let mut payoffs: Vec<i32> = vec![0, 0, 0, 0, 0, 0];
        let mut k: usize = 0;
        while k < 6
            invariant
                k <= 6,
                n == m.player_amount,
                m == self@,
                m.wf(),
                rank_of@.len() == 6,
                forall|q: int| 0 <= q < n && !m.folded_players[q] ==>
                    #[trigger] rank_of@[q] == spec_hand_rank7(m.hand7(q)),
                payoffs@.len() == 6,
                forall|q: int| 0 <= q < 6 ==>
                    #[trigger] payoffs@[q] as int == m.pot_payoffs_to(q, k as int),
            decreases 6 - k,
        {
            let mut best: u32 = 0;
            let mut any = false;
            let mut p4: usize = 0;
            while p4 < n
                invariant
                    p4 <= n,
                    k < 6,
                    n == m.player_amount,
                    m == self@,
                    m.wf(),
                    rank_of@.len() == 6,
                    forall|q: int| 0 <= q < n && !m.folded_players[q] ==>
                        #[trigger] rank_of@[q] == spec_hand_rank7(m.hand7(q)),
                    best as int == m.best_rank_upto(k as int, p4 as int),
                    any == exists|q: int| 0 <= q < p4 && m.eligible_for_pot(k as int, q),
                decreases n - p4,
            {
                let el = !self.folded_players[p4]
                    && (self.all_in_players[p4] == -1 || self.all_in_players[p4] >= k as i32);
                proof {
                    assert(el == m.eligible_for_pot(k as int, p4 as int));
                }
                if el {
                    any = true;
                    if rank_of[p4] > best {
                        best = rank_of[p4];
                    }
                    proof {
                        assert(m.eligible_for_pot(k as int, p4 as int));
                    }
                }
                p4 += 1;
            }
            if any {
                proof {
                    assert(m.exists_eligible(k as int));
                    lemma_count_winners_pos(m, k as int);
                }
                let mut winners: u32 = 0;
                let mut p5: usize = 0;
                while p5 < n
                    invariant
                        p5 <= n,
                        k < 6,
                        n == m.player_amount,
                        m == self@,
                        m.wf(),
                        rank_of@.len() == 6,
                        forall|q: int| 0 <= q < n && !m.folded_players[q] ==>
                            #[trigger] rank_of@[q] == spec_hand_rank7(m.hand7(q)),
                        best as int == m.best_rank_upto(k as int, m.player_amount),
                        winners as int == m.count_winners_upto(k as int, p5 as int),
                        winners <= p5,
                    decreases n - p5,
                {
                    let el = !self.folded_players[p5]
                        && (self.all_in_players[p5] == -1 || self.all_in_players[p5] >= k as i32);
                    if el && rank_of[p5] == best {
                        proof {
                            assert(m.wins_pot(k as int, p5 as int));
                        }
                        winners += 1;
                    } else {
                        proof {
                            assert(!m.wins_pot(k as int, p5 as int));
                        }
                    }
                    p5 += 1;
                }
                proof {
                    assert(winners as int == m.count_winners_upto(k as int, m.player_amount));
                    assert(winners >= 1);
                }
                let row_sum = self.pot_row_sum(k);
                let share = row_sum / winners;
                proof {
                    lemma_seq_sum_to_nonneg(m.pots[k as int], 6);
                    assert(share as int == seq_sum(m.pots[k as int]) / (winners as int));
                }
                let mut p6: usize = 0;
                while p6 < n
                    invariant
                        p6 <= n,
                        k < 6,
                        n == m.player_amount,
                        m == self@,
                        m.wf(),
                        m.exists_eligible(k as int),
                        rank_of@.len() == 6,
                        forall|q: int| 0 <= q < n && !m.folded_players[q] ==>
                            #[trigger] rank_of@[q] == spec_hand_rank7(m.hand7(q)),
                        best as int == m.best_rank_upto(k as int, m.player_amount),
                        share as int == seq_sum(m.pots[k as int])
                            / m.count_winners_upto(k as int, m.player_amount),
                        payoffs@.len() == 6,
                        forall|q: int| 0 <= q < p6 ==>
                            #[trigger] payoffs@[q] as int == m.pot_payoffs_to(q, k + 1),
                        forall|q: int| p6 <= q < 6 ==>
                            #[trigger] payoffs@[q] as int == m.pot_payoffs_to(q, k as int),
                    decreases n - p6,
                {
                    let ghost qi = p6 as int;
                    proof {
                        lemma_pot_payoffs_to_bounds(m, qi, k as int);
                        lemma_pot_payoffs_to_bounds(m, qi, k as int + 1);
                        lemma_pot_payoff_bounds(m, k as int, qi);
                        lemma_mat_prefix_mono(m, k as int + 1);
                        lemma_col_prefix_le(m.pots, qi, k as int + 1, 6);
                        lemma_mat_total_nonneg(m.pots, k as int);
                        lemma_total_pot_bound(m);
                        lemma_mat_prefix_mono(m, k as int);
                        lemma_entry_le_col_sum(m.pots, k as int, qi, 6);
                        lemma_col_sum_nonneg(m.pots, qi, 6);
                        assert(col_sum(m.pots, qi, 6) == col_sum(m.bets, qi, 4));
                        assert(m.stacks[qi] + col_sum(m.bets, qi, 4) <= PLAYER_CHIP_LIMIT);
                    }
                    let el = !self.folded_players[p6]
                        && (self.all_in_players[p6] == -1 || self.all_in_players[p6] >= k as i32);
                    if el {
                        let old_val = payoffs[p6];
                        let contributed = self.pots[k][p6];
                        if rank_of[p6] == best {
                            proof {
                                assert(m.wins_pot(k as int, qi));
                            }
                            let wide: i64 = old_val as i64 + share as i64 - contributed as i64;
                            proof {
                                assert(wide as int == m.pot_payoffs_to(qi, k as int + 1));
                                assert(-(PLAYER_CHIP_LIMIT as int) <= wide as int
                                    <= 6 * PLAYER_CHIP_LIMIT);
                            }
                            payoffs.set(p6, wide as i32);
                        } else {
                            proof {
                                assert(!m.wins_pot(k as int, qi));
                            }
                            let wide: i64 = old_val as i64 - contributed as i64;
                            proof {
                                assert(wide as int == m.pot_payoffs_to(qi, k as int + 1));
                                assert(-(PLAYER_CHIP_LIMIT as int) <= wide as int
                                    <= 6 * PLAYER_CHIP_LIMIT);
                            }
                            payoffs.set(p6, wide as i32);
                        }
                    } else {
                        proof {
                            assert(!m.eligible_for_pot(k as int, qi));
                            assert(!m.wins_pot(k as int, qi));
                            assert(m.pot_payoff(k as int, qi) == 0);
                        }
                    }
                    p6 += 1;
                }
                proof {
                    assert forall|q: int| n <= q < 6 implies
                        m.pot_payoffs_to(q, k as int + 1) == m.pot_payoffs_to(q, k as int) by {
                        assert(!m.eligible_for_pot(k as int, q));
                        assert(!m.wins_pot(k as int, q));
                    }
                }
            } else {
                proof {
                    assert(!m.exists_eligible(k as int));
                    assert forall|q: int| 0 <= q < 6 implies
                        m.pot_payoffs_to(q, k as int + 1) == m.pot_payoffs_to(q, k as int) by {
                        assert(m.pot_payoff(k as int, q) == 0);
                    }
                }
            }
            k += 1;
        }

        // Folded seats lose their pot contributions.
        let mut p7: usize = 0;
        while p7 < n
            invariant
                p7 <= n,
                n == m.player_amount,
                m == self@,
                m.wf(),
                m.count_folded(m.player_amount) != m.player_amount - 1,
                payoffs@.len() == 6,
                forall|q: int| 0 <= q < p7 ==> #[trigger] payoffs@[q] as int == m.spec_payoff(q),
                forall|q: int| p7 <= q < 6 ==>
                    #[trigger] payoffs@[q] as int == m.pot_payoffs_to(q, 6),
            decreases n - p7,
        {
            if self.folded_players[p7] {
                let own = self.pots_total_of(p7);
                proof {
                    lemma_col_sum_nonneg(m.pots, p7 as int, 6);
                    lemma_pot_payoffs_zero(m, p7 as int, 6);
                }
                payoffs.set(p7, 0 - (own as i32));
            }
            p7 += 1;
        }
        proof {
            assert forall|q: int| 0 <= q < 6 implies
                #[trigger] payoffs@[q] as int == m.spec_payoff(q) by {
                if q >= n {
                    lemma_pot_payoffs_zero(m, q, 6);
                }
            }
        }
        payoffs
    }
}

/// Matrix prefix totals only grow with the number of rows.
proof fn lemma_mat_prefix_mono(m: GameModel, k: int)
    requires
        m.wf(),
        0 <= k <= 6,
    ensures
        super::game_state::mat_total_to(m.pots, k) <= m.total_pot(),
    decreases 6 - k,
{
    if k < 6 {
        lemma_mat_prefix_mono(m, k + 1);
        lemma_seq_sum_to_nonneg(m.pots[k], 6);
        assert(seq_sum(m.pots[k]) == seq_sum_to(m.pots[k], 6));
    }
}

/// A column prefix sum never exceeds the full column sum.
proof fn lemma_col_prefix_le(mat: Seq<Seq<u32>>, p: int, k1: int, k2: int)
    requires
        k1 <= k2,
    ensures
        col_sum(mat, p, k1) <= col_sum(mat, p, k2),
    decreases k2 - k1,
{
    if k1 < k2 {
        lemma_col_prefix_le(mat, p, k1, k2 - 1);
    }
}

} // verus!
