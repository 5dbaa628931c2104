//! Card primitives: rank and suit extraction, parsing of two-character
//! card names, a fresh ordered deck, and a seed-driven Fisher-Yates
//! shuffle.
use vstd::prelude::*;

use crate::constants::Card;
use crate::rng;

verus! {

/// A card value is one of the 52 deck encodings.
pub open spec fn spec_valid_card(c: Card) -> bool {
    c < 52
}

/// The rank of a card: 0 (deuce) to 12 (ace).
pub open spec fn spec_card_rank(c: Card) -> int {
    c as int / 4
}

/// The suit of a card: 0 (clubs) to 3 (spades).
pub open spec fn spec_card_suit(c: Card) -> int {
    c as int % 4
}

pub fn card_rank(c: Card) -> (r: u8)
    ensures
        r as int == spec_card_rank(c),
{
    c / 4
}

pub fn card_suit(c: Card) -> (r: u8)
    ensures
        r as int == spec_card_suit(c),
{
    c % 4
}

/// The character naming each rank, deuce to ace.
pub open spec fn spec_rank_char(r: int) -> char {
    seq!['2', '3', '4', '5', '6', '7', '8', '9', 'T', 'J', 'Q', 'K', 'A'][r]
}

/// The character naming each suit.
pub open spec fn spec_suit_char(s: int) -> char {
    seq!['c', 'd', 'h', 's'][s]
}

fn rank_from_char(c: char) -> (r: Option<u8>)
    ensures
        r matches Some(v) ==> v < 13 && spec_rank_char(v as int) == c,
        r is None ==> (forall|v: int| 0 <= v < 13 ==> spec_rank_char(v) != c),
{
    let table: [char; 13] = ['2', '3', '4', '5', '6', '7', '8', '9', 'T', 'J', 'Q', 'K', 'A'];
    let mut i: usize = 0;
    while i < 13
        invariant
            i <= 13,
            forall|v: int| 0 <= v < i ==> spec_rank_char(v) != c,
            forall|v: int| 0 <= v < 13 ==> table[v] == spec_rank_char(v),
        decreases 13 - i,
    {
        if table[i] == c {
            return Some(i as u8);
        }
        i += 1;
    }
    None
}

fn suit_from_char(c: char) -> (r: Option<u8>)
    ensures
        r matches Some(v) ==> v < 4 && spec_suit_char(v as int) == c,
        r is None ==> (forall|v: int| 0 <= v < 4 ==> spec_suit_char(v) != c),
{
    let table: [char; 4] = ['c', 'd', 'h', 's'];
    let mut i: usize = 0;
    while i < 4
        invariant
            i <= 4,
            forall|v: int| 0 <= v < i ==> spec_suit_char(v) != c,
            forall|v: int| 0 <= v < 4 ==> table[v] == spec_suit_char(v),
        decreases 4 - i,
    {
        if table[i] == c {
            return Some(i as u8);
        }
        i += 1;
    }
    None
}

/// Parses a two-character card name such as "As" or "2c": a rank character
/// followed by a suit character.
pub fn card_from_string(name: &str) -> (r: Option<Card>)
    ensures
        r matches Some(c) ==> spec_valid_card(c) && name@.len() == 2
            && name@[0] == spec_rank_char(spec_card_rank(c))
            && name@[1] == spec_suit_char(spec_card_suit(c)),
{
    if name.unicode_len() != 2 {
        return None;
    }
    let rank = match rank_from_char(name.get_char(0)) {
        Some(v) => v,
        None => { return None; },
    };
    let suit = match suit_from_char(name.get_char(1)) {
        Some(v) => v,
        None => { return None; },
    };
    Some(rank * 4 + suit)
}

/// The numeric value of a sequence of decimal digit characters.
pub open spec fn spec_decimal_value(s: Seq<char>) -> int
    decreases s.len(),
{
    if s.len() == 0 {
        0
    } else {
        spec_decimal_value(s.drop_last()) * 10 + (s.last() as int - '0' as int)
    }
}

/// Whether every character of the sequence is a decimal digit.
pub open spec fn spec_all_digits(s: Seq<char>) -> bool {
    forall|i: int| 0 <= i < s.len() ==> '0' <= #[trigger] s[i] <= '9'
}

/// Parses a non-empty all-digit decimal string into a byte. Returns `None`
/// on an empty string, on any non-digit character, and on values above 255.
pub fn parse_u8_decimal(s: &str) -> (r: Option<u8>)
    ensures
        r matches Some(v) ==> s@.len() > 0 && spec_all_digits(s@) && v as int == spec_decimal_value(s@),
        r is None ==> s@.len() == 0 || !spec_all_digits(s@) || spec_decimal_value(s@) > 255,
{
    let n = s.unicode_len();
    if n == 0 {
        return None;
    }
    let mut acc: u32 = 0;
    let mut i: usize = 0;
    while i < n
        invariant
            i <= n,
            n == s@.len(),
            spec_all_digits(s@.subrange(0, i as int)),
            acc as int == spec_decimal_value(s@.subrange(0, i as int)),
            acc <= 255,
        decreases n - i,
    {
        let c = s.get_char(i);
        if c < '0' || c > '9' {
            assert(!spec_all_digits(s@));
            return None;
        }
        let d: u32 = c as u32 - 48;
        assert(d == s@[i as int] as int - '0' as int);
        acc = acc * 10 + d;
        proof {
            assert(s@.subrange(0, i + 1).drop_last() =~= s@.subrange(0, i as int));
            assert(s@.subrange(0, i + 1).last() == s@[i as int]);
        }
        if acc > 255 {
            proof {
                if spec_all_digits(s@) {
                    lemma_decimal_value_monotone(s@, i + 1);
                }
            }
            return None;
        }
        i += 1;
    }
    proof {
        assert(s@.subrange(0, n as int) =~= s@);
    }
    Some(acc as u8)
}

/// A prefix with value above 255 forces the whole digit string above 255.
proof fn lemma_decimal_value_monotone(s: Seq<char>, i: int)
    requires
        0 <= i <= s.len(),
        spec_decimal_value(s.subrange(0, i)) > 255,
        spec_all_digits(s),
    ensures
        spec_decimal_value(s) > 255,
    decreases s.len() - i,
{
    if i == s.len() {
        assert(s.subrange(0, i) =~= s);
    } else {
        assert(s.subrange(0, i + 1).drop_last() =~= s.subrange(0, i));
        assert(s.subrange(0, i + 1).last() == s[i]);
        assert(spec_decimal_value(s.subrange(0, i + 1))
            == spec_decimal_value(s.subrange(0, i)) * 10 + (s[i] as int - '0' as int));
        lemma_decimal_value_monotone(s, i + 1);
    }
}

/// Whether a sequence of cards holds valid and pairwise distinct cards.
pub open spec fn spec_distinct_valid_cards(s: Seq<Card>) -> bool {
    (forall|i: int| 0 <= i < s.len() ==> spec_valid_card(#[trigger] s[i]))
    && (forall|i: int, j: int| 0 <= i < j < s.len() ==> s[i] != s[j])
}

/// The full ordered deck: cards 0 to 51.
pub fn fresh_deck() -> (r: Vec<Card>)
    ensures
        r@.len() == 52,
        forall|i: int| 0 <= i < 52 ==> r@[i] == i as u8,
        spec_distinct_valid_cards(r@),
{
    let mut deck: Vec<Card> = Vec::new();
    let mut c: u8 = 0;
    while c < 52
        invariant
            c <= 52,
            deck@.len() == c,
            forall|i: int| 0 <= i < c ==> deck@[i] == i as u8,
        decreases 52 - c,
    {
        deck.push(c);
        c += 1;
    }
    deck
}

/// The full ordered deck as a sequence.
pub open spec fn spec_fresh_deck() -> Seq<Card> {
    Seq::new(52, |i: int| i as u8)
}

/// The deck after the first `t` steps of the seed-driven Fisher-Yates
/// walk: step `t` swaps position `52 - t` with the seeded draw of index
/// `t - 1` below `52 - t + 1`.
pub open spec fn spec_shuffle_upto(seed: u64, t: int) -> Seq<Card>
    decreases t,
{
    if t <= 0 {
        spec_fresh_deck()
    } else {
        let prev = spec_shuffle_upto(seed, t - 1);
        let i = 52 - t;
        let j = rng::draw_of(seed, t - 1, (i + 1) as u32) as int;
        if 0 <= j <= i {
            prev.update(i, prev[j]).update(j, prev[i])
        } else {
            prev
        }
    }
}

/// The deck that the seed determines: the full Fisher-Yates walk.
pub open spec fn spec_shuffled_deck(seed: u64) -> Seq<Card> {
    spec_shuffle_upto(seed, 51)
}

/// A deterministic Fisher-Yates shuffle of the full deck, driven by the
/// given seed; with no seed, a fresh one is drawn from the thread-local
/// generator. The result always holds each of the 52 cards exactly once,
/// and a given seed always yields the same deck.
pub fn shuffled_deck(rng_seed: Option<u64>) -> (r: Vec<Card>)
    ensures
        r@.len() == 52,
        spec_distinct_valid_cards(r@),
        rng_seed matches Some(seed) ==> r@ == spec_shuffled_deck(seed),
{
    let seed = match rng_seed {
        Some(s) => s,
        None => rng::fresh_random_seed(),
    };
    let mut deck = fresh_deck();
    proof {
        assert(deck@ =~= spec_fresh_deck());
    }
    let mut i: usize = 51;
    while i > 0
        invariant
            i < 52,
            deck@.len() == 52,
            spec_distinct_valid_cards(deck@),
            deck@ == spec_shuffle_upto(seed, 51 - i),
        decreases i,
    {
        let j = rng::seeded_draw(seed, 51 - i, (i + 1) as u32) as usize;
        let a = deck[i];
        let b = deck[j];
        deck.set(i, b);
        deck.set(j, a);
        proof {
            assert(deck@ == spec_shuffle_upto(seed, 51 - i + 1));
        }
        i -= 1;
    }
    proof {
        assert(deck@ == spec_shuffled_deck(seed));
    }
    deck
}

} // verus!
