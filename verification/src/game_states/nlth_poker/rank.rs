//! Seven-card hand evaluation: a total order on hand strengths. Each
//! five-card hand maps to an integer whose high bits carry the category
//! (straight flush down to high card) and whose low nibbles carry the
//! tie-breaking ranks; a seven-card hand ranks as its best five cards.
use vstd::prelude::*;

use crate::constants::Card;

verus! {

/// How many of the five cards carry rank `r`.
pub open spec fn count_rank(s: Seq<Card>, r: int) -> int
    decreases s.len(),
{
    if s.len() == 0 {
        0
    } else {
        count_rank(s.drop_last(), r) + if s.last() as int / 4 == r { 1int } else { 0 }
    }
}

/// All five cards share one suit.
pub open spec fn is_flush(s: Seq<Card>) -> bool {
    forall|i: int| 0 <= i < s.len() ==> #[trigger] s[i] as int % 4 == s[0] as int % 4
}

/// At least one card carries rank `r`.
pub open spec fn has_rank(s: Seq<Card>, r: int) -> bool {
    count_rank(s, r) >= 1
}

/// The hand holds a straight with high rank `h`; `h == 3` is the wheel,
/// ace through five.
pub open spec fn is_straight_at(s: Seq<Card>, h: int) -> bool {
    if h == 3 {
        has_rank(s, 3) && has_rank(s, 2) && has_rank(s, 1) && has_rank(s, 0) && has_rank(s, 12)
    } else {
        has_rank(s, h) && has_rank(s, h - 1) && has_rank(s, h - 2) && has_rank(s, h - 3)
            && has_rank(s, h - 4)
    }
}

/// The highest straight top rank at or below `h`, or -1 when none.
pub open spec fn straight_high_from(s: Seq<Card>, h: int) -> int
    decreases h + 1,
{
    if h < 3 {
        -1
    } else if is_straight_at(s, h) {
        h
    } else {
        straight_high_from(s, h - 1)
    }
}

/// The ranks below `r` that appear exactly `n` times, highest first.
pub open spec fn ranks_with_count(s: Seq<Card>, n: int, r: int) -> Seq<u8>
    decreases r,
{
    if r <= 0 {
        Seq::empty()
    } else {
        let rest = ranks_with_count(s, n, r - 1);
        if count_rank(s, r - 1) == n {
            seq![(r - 1) as u8] + rest
        } else {
            rest
        }
    }
}

/// The `i`-th entry of a rank list, or zero past its end.
pub open spec fn nth_or_zero(l: Seq<u8>, i: int) -> int {
    if 0 <= i < l.len() {
        l[i] as int
    } else {
        0
    }
}

/// The strength of a five-card hand: category times 2^20 plus up to five
/// tie-breaking rank nibbles, so that a stronger hand always compares
/// greater.
pub open spec fn spec_rank5(s: Seq<Card>) -> u32 {
    let quads = ranks_with_count(s, 4, 13);
    let trips = ranks_with_count(s, 3, 13);
    let pairs = ranks_with_count(s, 2, 13);
    let singles = ranks_with_count(s, 1, 13);
    let sh = straight_high_from(s, 12);
    let flush = is_flush(s);
    if flush && sh >= 0 {
        (0x800000 + sh * 0x10000) as u32
    } else if quads.len() >= 1 {
        (0x700000 + nth_or_zero(quads, 0) * 0x10000 + nth_or_zero(singles, 0) * 0x1000) as u32
    } else if trips.len() >= 1 && pairs.len() >= 1 {
        (0x600000 + nth_or_zero(trips, 0) * 0x10000 + nth_or_zero(pairs, 0) * 0x1000) as u32
    } else if flush {
        (0x500000 + nth_or_zero(singles, 0) * 0x10000 + nth_or_zero(singles, 1) * 0x1000
            + nth_or_zero(singles, 2) * 0x100 + nth_or_zero(singles, 3) * 0x10
            + nth_or_zero(singles, 4)) as u32
    } else if sh >= 0 {
        (0x400000 + sh * 0x10000) as u32
    } else if trips.len() >= 1 {
        (0x300000 + nth_or_zero(trips, 0) * 0x10000 + nth_or_zero(singles, 0) * 0x1000
            + nth_or_zero(singles, 1) * 0x100) as u32
    } else if pairs.len() >= 2 {
        (0x200000 + nth_or_zero(pairs, 0) * 0x10000 + nth_or_zero(pairs, 1) * 0x1000
            + nth_or_zero(singles, 0) * 0x100) as u32
    } else if pairs.len() >= 1 {
        (0x100000 + nth_or_zero(pairs, 0) * 0x10000 + nth_or_zero(singles, 0) * 0x1000
            + nth_or_zero(singles, 1) * 0x100 + nth_or_zero(singles, 2) * 0x10) as u32
    } else {
        (nth_or_zero(singles, 0) * 0x10000 + nth_or_zero(singles, 1) * 0x1000
            + nth_or_zero(singles, 2) * 0x100 + nth_or_zero(singles, 3) * 0x10
            + nth_or_zero(singles, 4)) as u32
    }
}

/// Every entry of a rank list is a rank below `r`.
pub proof fn lemma_ranks_with_count_bounds(s: Seq<Card>, n: int, r: int)
    ensures
        forall|i: int| 0 <= i < ranks_with_count(s, n, r).len() ==>
            0 <= #[trigger] ranks_with_count(s, n, r)[i] < r,
    decreases r,
{
    if r > 0 {
        lemma_ranks_with_count_bounds(s, n, r - 1);
        let rest = ranks_with_count(s, n, r - 1);
        let full = ranks_with_count(s, n, r);
        assert forall|i: int| 0 <= i < full.len() implies 0 <= #[trigger] full[i] < r by {
            if count_rank(s, r - 1) == n {
                if i > 0 {
                    assert(full[i] == rest[i - 1]);
                }
            } else {
                assert(full[i] == rest[i]);
            }
        }
    }
}

/// The five cards left after removing positions `i` and `j` of a
/// seven-card hand, keeping order.
pub open spec fn sub5(s: Seq<Card>, i: int, j: int) -> Seq<Card> {
    s.subrange(0, i) + s.subrange(i + 1, j) + s.subrange(j + 1, s.len() as int)
}

/// `v` is the strength of the best five cards of the seven.
pub open spec fn is_best7(s: Seq<Card>, v: u32) -> bool {
    &&& (exists|i: int, j: int| 0 <= i < j < 7 && v == spec_rank5(#[trigger] sub5(s, i, j)))
    &&& (forall|i: int, j: int| 0 <= i < j < 7 ==> v >= spec_rank5(#[trigger] sub5(s, i, j)))
}

/// The strength of a seven-card hand: that of its best five cards.
pub open spec fn spec_hand_rank7(s: Seq<Card>) -> u32 {
    choose|v: u32| is_best7(s, v)
}

/// Two best-of-seven strengths of one hand coincide.
pub proof fn lemma_best7_unique(s: Seq<Card>, v1: u32, v2: u32)
    requires
        is_best7(s, v1),
        is_best7(s, v2),
    ensures
        v1 == v2,
{
    let (i1, j1) = choose|i: int, j: int| 0 <= i < j < 7 && v1 == spec_rank5(#[trigger] sub5(s, i, j));
    let (i2, j2) = choose|i: int, j: int| 0 <= i < j < 7 && v2 == spec_rank5(#[trigger] sub5(s, i, j));
    assert(v1 >= spec_rank5(sub5(s, i2, j2)));
    assert(v2 >= spec_rank5(sub5(s, i1, j1)));
}

/// Computes the strength of a five-card hand.
fn rank5(cards: &Vec<Card>) -> (r: u32)
    requires
        cards@.len() == 5,
        forall|i: int| 0 <= i < 5 ==> #[trigger] cards@[i] < 52,
    ensures
        r == spec_rank5(cards@),
{
    let s = cards;
    // Count how many cards carry each rank.
    let mut cnt: Vec<u8> = vec![0, 0, 0, 0, 0, 0, 0, 0, 0, 0, 0, 0, 0];
    let mut i: usize = 0;
    while i < 5
        invariant
            i <= 5,
            s@.len() == 5,
            forall|t: int| 0 <= t < 5 ==> #[trigger] s@[t] < 52,
            cnt@.len() == 13,
            forall|r0: int| 0 <= r0 < 13 ==>
                #[trigger] cnt@[r0] as int == count_rank(s@.subrange(0, i as int), r0),
        decreases 5 - i,
    {
        proof {
            assert forall|r0: int| 0 <= r0 < 13 implies
                count_rank(s@.subrange(0, i + 1), r0)
                    == count_rank(s@.subrange(0, i as int), r0)
                        + if s@[i as int] as int / 4 == r0 { 1int } else { 0 } by {
                assert(s@.subrange(0, i + 1).drop_last() =~= s@.subrange(0, i as int));
                assert(s@.subrange(0, i + 1).last() == s@[i as int]);
            }
            lemma_count_le_len(s@.subrange(0, i as int), 0, 13);
        }
        let r0 = (s[i] / 4) as usize;
        cnt.set(r0, cnt[r0] + 1);
        i += 1;
    }
    proof {
        assert(s@.subrange(0, 5) =~= s@);
        lemma_count_le_len(s@, 0, 13);
    }

    // Flush?
    let mut flush = true;
    let mut i2: usize = 1;
    while i2 < 5
        invariant
            1 <= i2 <= 5,
            s@.len() == 5,
            flush == (forall|t: int| 0 <= t < i2 ==> #[trigger] s@[t] as int % 4 == s@[0] as int % 4),
        decreases 5 - i2,
    {
        if s[i2] % 4 != s[0] % 4 {
            flush = false;
            proof {
                assert(!(s@[i2 as int] as int % 4 == s@[0] as int % 4));
            }
            i2 = 5;
        } else {
            i2 += 1;
        }
    }
    proof {
        assert(flush == is_flush(s@));
    }

    // Straight?
    let mut sh: i32 = -1;
    let mut h: i32 = 12;
    while sh == -1 && h >= 3
        invariant
            2 <= h <= 12,
            cnt@.len() == 13,
            forall|r0: int| 0 <= r0 < 13 ==> #[trigger] cnt@[r0] as int == count_rank(s@, r0),
            sh == -1 || (3 <= sh <= 12 && sh as int == straight_high_from(s@, 12)),
            sh == -1 ==> straight_high_from(s@, 12) == straight_high_from(s@, h as int),
        decreases (if sh == -1 { h + 1 } else { 0 }),
    {
        let ok: bool = if h == 3 {
            cnt[3] >= 1 && cnt[2] >= 1 && cnt[1] >= 1 && cnt[0] >= 1 && cnt[12] >= 1
        } else {
            cnt[h as usize] >= 1 && cnt[(h - 1) as usize] >= 1 && cnt[(h - 2) as usize] >= 1
                && cnt[(h - 3) as usize] >= 1 && cnt[(h - 4) as usize] >= 1
        };
        proof {
            assert(ok == is_straight_at(s@, h as int));
        }
        if ok {
            sh = h;
        } else {
            h -= 1;
        }
    }
    proof {
        if sh == -1 {
            assert(straight_high_from(s@, 2) == -1);
            assert(straight_high_from(s@, 12) == -1);
        } else {
            assert(sh as int == straight_high_from(s@, 12));
        }
    }

    let quads = collect_ranks(&cnt, 4);
    let trips = collect_ranks(&cnt, 3);
    let pairs = collect_ranks(&cnt, 2);
    let singles = collect_ranks(&cnt, 1);
    proof {
        assert(quads@ == ranks_with_count(s@, 4, 13));
        assert(trips@ == ranks_with_count(s@, 3, 13));
        assert(pairs@ == ranks_with_count(s@, 2, 13));
        assert(singles@ == ranks_with_count(s@, 1, 13));
        lemma_ranks_with_count_bounds(s@, 4, 13);
        lemma_ranks_with_count_bounds(s@, 3, 13);
        lemma_ranks_with_count_bounds(s@, 2, 13);
        lemma_ranks_with_count_bounds(s@, 1, 13);
    }

    if flush && sh >= 0 {
        0x800000u32 + (sh as u32) * 0x10000
    } else if quads.len() >= 1 {
        0x700000u32 + (nth(&quads, 0) as u32) * 0x10000 + (nth(&singles, 0) as u32) * 0x1000
    } else if trips.len() >= 1 && pairs.len() >= 1 {
        0x600000u32 + (nth(&trips, 0) as u32) * 0x10000 + (nth(&pairs, 0) as u32) * 0x1000
    } else if flush {
        0x500000u32 + (nth(&singles, 0) as u32) * 0x10000 + (nth(&singles, 1) as u32) * 0x1000
            + (nth(&singles, 2) as u32) * 0x100 + (nth(&singles, 3) as u32) * 0x10
            + (nth(&singles, 4) as u32)
    } else if sh >= 0 {
        0x400000u32 + (sh as u32) * 0x10000
    } else if trips.len() >= 1 {
        0x300000u32 + (nth(&trips, 0) as u32) * 0x10000 + (nth(&singles, 0) as u32) * 0x1000
            + (nth(&singles, 1) as u32) * 0x100
    } else if pairs.len() >= 2 {
        0x200000u32 + (nth(&pairs, 0) as u32) * 0x10000 + (nth(&pairs, 1) as u32) * 0x1000
            + (nth(&singles, 0) as u32) * 0x100
    } else if pairs.len() >= 1 {
        0x100000u32 + (nth(&pairs, 0) as u32) * 0x10000 + (nth(&singles, 0) as u32) * 0x1000
            + (nth(&singles, 1) as u32) * 0x100 + (nth(&singles, 2) as u32) * 0x10
    } else {
        (nth(&singles, 0) as u32) * 0x10000 + (nth(&singles, 1) as u32) * 0x1000
            + (nth(&singles, 2) as u32) * 0x100 + (nth(&singles, 3) as u32) * 0x10
            + (nth(&singles, 4) as u32)
    }
}

/// The `i`-th entry of a rank list, or zero past its end.
fn nth(l: &Vec<u8>, i: usize) -> (r: u8)
    requires
        forall|t: int| 0 <= t < l@.len() ==> #[trigger] l@[t] < 13,
    ensures
        r as int == nth_or_zero(l@, i as int),
        r < 13,
{
    if i < l.len() {
        l[i]
    } else {
        0
    }
}

/// A rank never counts more often than the hand has cards.
proof fn lemma_count_le_len(s: Seq<Card>, lo: int, hi: int)
    ensures
        forall|r0: int| lo <= r0 < hi ==> 0 <= #[trigger] count_rank(s, r0) <= s.len(),
{
    assert forall|r0: int| lo <= r0 < hi implies 0 <= #[trigger] count_rank(s, r0) <= s.len() by {
        lemma_count_le_len_one(s, r0);
    }
}

proof fn lemma_count_le_len_one(s: Seq<Card>, r0: int)
    ensures
        0 <= count_rank(s, r0) <= s.len(),
    decreases s.len(),
{
    if s.len() > 0 {
        lemma_count_le_len_one(s.drop_last(), r0);
    }
}

/// Collects the ranks whose count equals `n`, highest first.
fn collect_ranks(cnt: &Vec<u8>, n: u8) -> (out: Vec<u8>)
    requires
        cnt@.len() == 13,
    ensures
        forall|s: Seq<Card>| (forall|r0: int| 0 <= r0 < 13 ==>
                #[trigger] cnt@[r0] as int == count_rank(s, r0))
            ==> out@ == #[trigger] ranks_with_count(s, n as int, 13),
        forall|t: int| 0 <= t < out@.len() ==> #[trigger] out@[t] < 13,
{
    let mut out: Vec<u8> = Vec::new();
    let mut r: usize = 13;
    while r > 0
        invariant
            r <= 13,
            cnt@.len() == 13,
            forall|t: int| 0 <= t < out@.len() ==> #[trigger] out@[t] < 13,
            forall|s: Seq<Card>| (forall|r0: int| 0 <= r0 < 13 ==>
                    #[trigger] cnt@[r0] as int == count_rank(s, r0))
                ==> #[trigger] ranks_with_count(s, n as int, 13)
                    == out@ + ranks_with_count(s, n as int, r as int),
        decreases r,
    {
        r -= 1;
        if cnt[r] == n {
            out.push(r as u8);
            proof {
                assert forall|s: Seq<Card>| (forall|r0: int| 0 <= r0 < 13 ==>
                        #[trigger] cnt@[r0] as int == count_rank(s, r0))
                    implies #[trigger] ranks_with_count(s, n as int, 13)
                        == out@ + ranks_with_count(s, n as int, r as int) by {
                    assert(count_rank(s, r as int) == n);
                    assert(ranks_with_count(s, n as int, r + 1)
                        == seq![r as u8] + ranks_with_count(s, n as int, r as int));
                    assert(out@ + ranks_with_count(s, n as int, r as int)
                        =~= out@.drop_last() + ranks_with_count(s, n as int, r + 1));
                }
            }
        } else {
            proof {
                assert forall|s: Seq<Card>| (forall|r0: int| 0 <= r0 < 13 ==>
                        #[trigger] cnt@[r0] as int == count_rank(s, r0))
                    implies #[trigger] ranks_with_count(s, n as int, 13)
                        == out@ + ranks_with_count(s, n as int, r as int) by {
                    assert(count_rank(s, r as int) != n);
                    assert(ranks_with_count(s, n as int, r + 1)
                        == ranks_with_count(s, n as int, r as int));
                }
            }
        }
    }
    proof {
        assert forall|s: Seq<Card>| (forall|r0: int| 0 <= r0 < 13 ==>
                #[trigger] cnt@[r0] as int == count_rank(s, r0))
            implies out@ == #[trigger] ranks_with_count(s, n as int, 13) by {
            assert(ranks_with_count(s, n as int, 0) == Seq::<u8>::empty());
            assert(out@ =~= out@ + ranks_with_count(s, n as int, 0));
        }
    }
    out
}

/// Ranks a seven-card hand: the strength of its best five cards, under a
/// strict total order over distinct strengths. Pure and deterministic.
pub fn rank_hand(hand: Vec<Card>) -> (r: u32)
    requires
        hand@.len() == 7,
        forall|i: int| 0 <= i < 7 ==> #[trigger] hand@[i] < 52,
    ensures
        is_best7(hand@, r),
        r == spec_hand_rank7(hand@),
{
    let mut best: u32 = 0;
    let ghost mut bi: int = 0;
    let ghost mut bj: int = 0;
    let mut started = false;
    let mut i: usize = 0;
    while i < 7
        invariant
            i <= 7,
            hand@.len() == 7,
            forall|t: int| 0 <= t < 7 ==> #[trigger] hand@[t] < 52,
            started == (i > 0),
            started ==> 0 <= bi < bj < 7 && best == spec_rank5(sub5(hand@, bi, bj)),
            forall|a: int, b: int| 0 <= a < b < 7 && a < i ==>
                best >= spec_rank5(#[trigger] sub5(hand@, a, b)),
        decreases 7 - i,
    {
        let mut j: usize = i + 1;
        while j < 7
            invariant
                i < j <= 7,
                i < 7,
                hand@.len() == 7,
                forall|t: int| 0 <= t < 7 ==> #[trigger] hand@[t] < 52,
                started == (i > 0 || j > i + 1),
                started ==> 0 <= bi < bj < 7 && best == spec_rank5(sub5(hand@, bi, bj)),
                forall|a: int, b: int| 0 <= a < b < 7 && (a < i || (a == i && b < j)) ==>
                    best >= spec_rank5(#[trigger] sub5(hand@, a, b)),
            decreases 7 - j,
        {
            let mut five: Vec<Card> = Vec::new();
            let mut t: usize = 0;
            while t < 7
                invariant
                    t <= 7,
                    i < j < 7,
                    hand@.len() == 7,
                    forall|t0: int| 0 <= t0 < 7 ==> #[trigger] hand@[t0] < 52,
                    five@ == (sub5(hand@, i as int, j as int)).subrange(
                        0, sub_len_upto(t as int, i as int, j as int)),
                decreases 7 - t,
            {
                proof {
                    lemma_sub5_structure(hand@, i as int, j as int, t as int);
                }
                if t != i && t != j {
                    five.push(hand[t]);
                }
                t += 1;
            }
            proof {
                lemma_sub5_len(hand@, i as int, j as int);
                assert(five@ =~= sub5(hand@, i as int, j as int));
                assert forall|t0: int| 0 <= t0 < 5 implies #[trigger] five@[t0] < 52 by {
                    lemma_sub5_elems(hand@, i as int, j as int, t0);
                }
            }
            let v = rank5(&five);
            if !started || v > best {
                best = v;
                started = true;
                proof {
                    bi = i as int;
                    bj = j as int;
                }
            }
            j += 1;
        }
        i += 1;
    }
    proof {
        assert(is_best7(hand@, best));
        lemma_best7_unique(hand@, best, spec_hand_rank7(hand@));
    }
    best
}

/// How many of the first `t` positions survive removing `i` and `j`.
pub open spec fn sub_len_upto(t: int, i: int, j: int) -> int {
    t - (if i < t { 1int } else { 0 }) - (if j < t { 1int } else { 0 })
}

/// The element of the reduced hand at each surviving position.
proof fn lemma_sub5_structure(s: Seq<Card>, i: int, j: int, t: int)
    requires
        0 <= i < j < s.len(),
        0 <= t < s.len(),
    ensures
        t != i && t != j ==> sub5(s, i, j)[sub_len_upto(t, i, j)] == s[t],
        sub_len_upto(t + 1, i, j) == sub_len_upto(t, i, j) + if t != i && t != j { 1int } else { 0 },
        0 <= sub_len_upto(t, i, j) <= sub5(s, i, j).len(),
{
}

/// Removing two positions of seven leaves five cards.
proof fn lemma_sub5_len(s: Seq<Card>, i: int, j: int)
    requires
        0 <= i < j < s.len(),
    ensures
        sub5(s, i, j).len() == s.len() - 2,
{
}

/// Every card of the reduced hand is a card of the full hand.
proof fn lemma_sub5_elems(s: Seq<Card>, i: int, j: int, t: int)
    requires
        0 <= i < j < s.len(),
        0 <= t < sub5(s, i, j).len(),
    ensures
        exists|t0: int| 0 <= t0 < s.len() && sub5(s, i, j)[t] == #[trigger] s[t0],
{
    let part1 = s.subrange(0, i);
    let part2 = s.subrange(i + 1, j);
    if t < part1.len() {
        assert(sub5(s, i, j)[t] == s[t]);
    } else if t < part1.len() + part2.len() {
        assert(sub5(s, i, j)[t] == s[t + 1]);
    } else {
        assert(sub5(s, i, j)[t] == s[t + 2]);
    }
}

} // verus!
