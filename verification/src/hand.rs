//! Private hands.
//!
//! A hand is a pair of distinct cards, written with the higher card first.
//! The 1326 hands are numbered in the order of the higher card, then of the
//! lower one; a player's hands are always listed in that order, so that the
//! position of a hand in a player's list identifies it throughout a game.

use vstd::prelude::*;
use crate::card::{is_card, Card};

verus! {

/// A private hand: two distinct cards, the higher first.
pub type Hand = (Card, Card);

/// Number of different hands.
pub const NUM_HANDS: usize = 1326;

/// Whether a pair of cards is a hand in canonical form.
pub open spec fn is_hand(hand: Hand) -> bool {
    hand.1 < hand.0 && is_card(hand.0)
}

/// The number of a hand.
pub open spec fn hand_index(hand: Hand) -> int {
    hand.0 as int * (hand.0 as int - 1) / 2 + hand.1 as int
}

/// Whether a list holds hands only, in the order of their numbers and each at
/// most once.
pub open spec fn is_hand_list(hands: Seq<Hand>) -> bool {
    &&& forall|k: int| 0 <= k < hands.len() ==> is_hand(#[trigger] hands[k])
    &&& forall|k: int, l: int|
        0 <= k < l < hands.len() ==> hand_index(hands[k]) < hand_index(hands[l])
}

/// Whether a hand holds a card.
pub open spec fn hand_uses(hand: Hand, card: Card) -> bool {
    hand.0 == card || hand.1 == card
}

/// Whether a hand holds one of the cards of a board.
pub open spec fn hand_blocked(hand: Hand, board: Seq<Card>) -> bool {
    exists|i: int| 0 <= i < board.len() && hand_uses(hand, #[trigger] board[i])
}

/// Whether two hands share a card.
pub open spec fn hands_overlap(a: Hand, b: Hand) -> bool {
    hand_uses(a, b.0) || hand_uses(a, b.1)
}

proof fn lemma_triangle(n: int)
    ensures
        n * (n - 1) % 2 == 0,
        (n + 1) * n / 2 == n * (n - 1) / 2 + n,
{
    assert(n * (n - 1) % 2 == 0 && (n + 1) * n / 2 == n * (n - 1) / 2 + n) by (nonlinear_arith)
        requires
            n % 2 == 0 || n % 2 == 1,
    {
        if n % 2 == 0 {
            let h = n / 2;
            assert(n == 2 * h);
            assert(n * (n - 1) == 2 * (h * (n - 1)));
            assert((n + 1) * n == 2 * (h * (n + 1)));
            assert(h * (n + 1) == h * (n - 1) + n);
        } else {
            let h = (n - 1) / 2;
            assert(n - 1 == 2 * h);
            assert(n * (n - 1) == 2 * (n * h));
            assert((n + 1) * n == 2 * ((h + 1) * n));
            assert((h + 1) * n == n * h + n);
        }
    }
}

proof fn lemma_triangle_monotone(a: int, b: int)
    requires
        0 <= a <= b,
    ensures
        a * (a - 1) / 2 <= b * (b - 1) / 2,
    decreases b - a,
{
    if a < b {
        lemma_triangle_monotone(a, b - 1);
        lemma_triangle(b - 1);
    }
}

/// The number of a hand lies below `NUM_HANDS`, and different hands have
/// different numbers.
pub proof fn lemma_hand_index(a: Hand, b: Hand)
    requires
        is_hand(a),
        is_hand(b),
    ensures
        0 <= hand_index(a) < NUM_HANDS,
        hand_index(a) == hand_index(b) ==> a == b,
{
    lemma_triangle_monotone(a.0 as int, 51);
    lemma_triangle(a.0 as int);
    lemma_triangle(b.0 as int);
    assert(51 * 50 / 2 == 1275);
    if a.0 < b.0 {
        lemma_triangle_monotone(a.0 as int + 1, b.0 as int);
    } else if b.0 < a.0 {
        lemma_triangle_monotone(b.0 as int + 1, a.0 as int);
    }
}

/// The number of the hand made of the cards `high` and `low`.
pub fn hand_to_index(high: Card, low: Card) -> (i: usize)
    requires
        is_hand((high, low)),
    ensures
        i == hand_index((high, low)),
        i < NUM_HANDS,
{
    proof {
        lemma_hand_index((high, low), (high, low));
    }
    let h = high as usize;
    h * (h - 1) / 2 + low as usize
}

/// The hand with the given number.
pub fn index_to_hand(i: usize) -> (hand: Hand)
    requires
        i < NUM_HANDS,
    ensures
        is_hand(hand),
        hand_index(hand) == i,
{
    let mut high: usize = 1;
    let mut base: usize = 0;
    while base + high <= i
        invariant
            1 <= high <= 51,
            base == high * (high - 1) / 2,
            base <= i < NUM_HANDS,
        decreases 52 - high,
    {
        proof {
            lemma_triangle(high as int);
            lemma_triangle_monotone(high as int + 1, 52);
            assert(52 * 51 / 2 == 1326);
        }
        base += high;
        high += 1;
    }
    ((high as Card), (i - base) as Card)
}

/// Whether a hand holds one of the cards of a board.
pub fn is_blocked(hand: Hand, board: &Vec<Card>) -> (b: bool)
    ensures
        b == hand_blocked(hand, board@),
{
    let mut i: usize = 0;
    while i < board.len()
        invariant
            i <= board.len(),
            forall|j: int| 0 <= j < i ==> !hand_uses(hand, #[trigger] board@[j]),
        decreases board.len() - i,
    {
        if hand.0 == board[i] || hand.1 == board[i] {
            return true;
        }
        i += 1;
    }
    false
}

/// The positions below `n` of the hands of a list that do not hold a card, in
/// increasing order.
pub open spec fn positions_without(hands: Seq<Hand>, card: Card, n: int) -> Seq<usize>
    decreases n,
{
    if n <= 0 {
        Seq::empty()
    } else {
        let rest = positions_without(hands, card, n - 1);
        if hand_uses(hands[n - 1], card) {
            rest
        } else {
            rest.push((n - 1) as usize)
        }
    }
}

/// The positions of the hands that do not hold a card are positions of the
/// list in increasing order, and every such hand's position is among them.
pub proof fn lemma_positions_without(hands: Seq<Hand>, card: Card, n: int)
    requires
        0 <= n <= hands.len(),
        hands.len() <= usize::MAX,
    ensures
        positions_without(hands, card, n).len() <= n,
        forall|k: int|
            0 <= k < positions_without(hands, card, n).len() ==> {
                &&& (#[trigger] positions_without(hands, card, n)[k]) < n
                &&& !hand_uses(hands[positions_without(hands, card, n)[k] as int], card)
            },
        forall|k: int, l: int|
            0 <= k < l < positions_without(hands, card, n).len() ==> positions_without(
                hands,
                card,
                n,
            )[k] < positions_without(hands, card, n)[l],
        forall|j: int|
            0 <= j < n && !hand_uses(hands[j], card) ==> #[trigger] positions_without(
                hands,
                card,
                n,
            ).contains(j as usize),
    decreases n,
{
    if n > 0 {
        lemma_positions_without(hands, card, n - 1);
        let rest = positions_without(hands, card, n - 1);
        let all = positions_without(hands, card, n);
        assert forall|j: int| 0 <= j < n && !hand_uses(hands[j], card) implies #[trigger] all.contains(
            j as usize,
        ) by {
            if j < n - 1 {
                assert(rest.contains(j as usize));
                let k = choose|k: int| 0 <= k < rest.len() && rest[k] == j as usize;
                assert(all[k] == j as usize);
            } else {
                assert(all[rest.len() as int] == j as usize);
            }
        }
    }
}

/// The hands of a player that are left when a card is dealt, by their
/// positions in the player's list: the positions of the hands that do not hold
/// the card, in increasing order.
pub fn unblocked_positions(hands: &Vec<Hand>, card: Card) -> (positions: Vec<usize>)
    ensures
        positions@ == positions_without(hands@, card, hands@.len() as int),
{
    let mut positions: Vec<usize> = Vec::new();
    let mut i: usize = 0;
    while i < hands.len()
        invariant
            i <= hands.len(),
            positions@ == positions_without(hands@, card, i as int),
        decreases hands.len() - i,
    {
        let hand = hands[i];
        if !(hand.0 == card || hand.1 == card) {
            positions.push(i);
        }
        i += 1;
    }
    positions
}

} // verus!
