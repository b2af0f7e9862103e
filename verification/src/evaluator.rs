//! Hand strength.
//!
//! The strength of five cards is a number that is higher for the stronger
//! hand and equal for hands that split the pot. It is made of the category of
//! the hand (from high card, `0`, to straight flush, `8`) and, within the
//! category, of the ranks of the hand in the order in which they decide:
//! ranks that occur more often first, higher ranks before lower ones. The
//! strength of seven cards is that of the best five among them.

use vstd::prelude::*;
use crate::card::{is_card, rank_of, suit_of, Card};
use crate::range::swap_suit;

verus! {

/// The strength of a hand: higher is stronger, equal splits the pot.
pub type Strength = u32;

/// The weight of the category in a strength: thirteen to the fifth power, one
/// more than five ranks in base thirteen can make.
pub const CATEGORY_WEIGHT: u32 = 371293;

/// How many of the cards have the rank `rank`.
pub open spec fn rank_count(cards: Seq<Card>, rank: int) -> int
    decreases cards.len(),
{
    if cards.len() == 0 {
        0
    } else {
        rank_count(cards.drop_last(), rank) + if rank_of(cards.last()) == rank {
            1int
        } else {
            0int
        }
    }
}

/// The ranks below `below` that occur exactly `count` times among the cards,
/// highest first.
pub open spec fn ranks_with_count(cards: Seq<Card>, count: int, below: int) -> Seq<int>
    decreases below,
{
    if below <= 0 {
        Seq::empty()
    } else {
        let rest = ranks_with_count(cards, count, below - 1);
        if rank_count(cards, below - 1) == count {
            seq![below - 1] + rest
        } else {
            rest
        }
    }
}

/// The ranks of five cards in the order in which they decide between hands of
/// one category: the rank of four of a kind first, then that of three of a
/// kind, then those of pairs, then those of single cards, each group from the
/// highest rank down.
pub open spec fn deciding_ranks(cards: Seq<Card>) -> Seq<int> {
    ranks_with_count(cards, 4, 13) + ranks_with_count(cards, 3, 13) + ranks_with_count(
        cards,
        2,
        13,
    ) + ranks_with_count(cards, 1, 13)
}

/// The `i`-th of a list of ranks, `0` beyond its end.
pub open spec fn rank_at(ranks: Seq<int>, i: int) -> int {
    if 0 <= i < ranks.len() {
        ranks[i]
    } else {
        0
    }
}

/// Up to five ranks as one number in base thirteen, the first rank weighing
/// most.
pub open spec fn packed(ranks: Seq<int>) -> int {
    rank_at(ranks, 0) * 28561 + rank_at(ranks, 1) * 2197 + rank_at(ranks, 2) * 169 + rank_at(
        ranks,
        3,
    ) * 13 + rank_at(ranks, 4)
}

/// Whether the cards are all of one suit.
pub open spec fn is_flush(cards: Seq<Card>) -> bool {
    forall|i: int| 0 <= i < cards.len() ==> suit_of(#[trigger] cards[i]) == suit_of(cards[0])
}

/// The highest rank of the straight that five cards make, if they make one.
/// The ace counts as the lowest card of the straight up to the five.
pub open spec fn straight_high(cards: Seq<Card>) -> Option<int> {
    let ranks = ranks_with_count(cards, 1, 13);
    if ranks.len() == 5 && ranks[0] - ranks[4] == 4 {
        Some(ranks[0])
    } else if ranks.len() == 5 && ranks[0] == 12 && ranks[1] == 3 && ranks[4] == 0 {
        Some(3)
    } else {
        None
    }
}

/// The category of five cards: `8` straight flush, `7` four of a kind, `6`
/// full house, `5` flush, `4` straight, `3` three of a kind, `2` two pair, `1`
/// pair, `0` high card.
pub open spec fn category(cards: Seq<Card>) -> int {
    let fours = ranks_with_count(cards, 4, 13).len();
    let threes = ranks_with_count(cards, 3, 13).len();
    let pairs = ranks_with_count(cards, 2, 13).len();
    if straight_high(cards) is Some && is_flush(cards) {
        8
    } else if fours > 0 {
        7
    } else if threes > 0 && pairs > 0 {
        6
    } else if is_flush(cards) {
        5
    } else if straight_high(cards) is Some {
        4
    } else if threes > 0 {
        3
    } else if pairs > 1 {
        2
    } else if pairs > 0 {
        1
    } else {
        0
    }
}

/// The strength of five cards.
pub open spec fn strength5(cards: Seq<Card>) -> int {
    category(cards) * CATEGORY_WEIGHT + match straight_high(cards) {
        Some(high) => high * 28561,
        None => packed(deciding_ranks(cards)),
    }
}

/// The position among seven cards of the `t`-th card that is left when the
/// cards at the positions `i` and `j`, `i < j`, are taken out.
pub open spec fn position_left(t: int, i: int, j: int) -> int {
    let a = if t >= i {
        t + 1
    } else {
        t
    };
    if a >= j {
        a + 1
    } else {
        a
    }
}

/// Seven cards without those at the positions `i` and `j`, `i < j`.
pub open spec fn without(cards: Seq<Card>, i: int, j: int) -> Seq<Card> {
    Seq::new(5, |t: int| cards[position_left(t, i, j)])
}

/// The best strength of five cards among the choices numbered below `p`,
/// where choice `7 i + j` with `i < j` leaves out the cards at the positions
/// `i` and `j`.
pub open spec fn best_below(cards: Seq<Card>, p: int) -> int
    decreases p,
{
    if p <= 0 {
        0
    } else {
        let rest = best_below(cards, p - 1);
        let i = (p - 1) / 7;
        let j = (p - 1) % 7;
        if i < j && strength5(without(cards, i, j)) > rest {
            strength5(without(cards, i, j))
        } else {
            rest
        }
    }
}

/// The strength of seven cards: that of the best five among them.
pub open spec fn strength7(cards: Seq<Card>) -> int {
    best_below(cards, 49)
}

/// Whether all cards of a list are cards of the deck.
pub open spec fn all_cards(cards: Seq<Card>) -> bool {
    forall|i: int| 0 <= i < cards.len() ==> is_card(#[trigger] cards[i])
}

/// The strength of five cards is below nine times the weight of a category.
pub proof fn lemma_strength5_bound(cards: Seq<Card>)
    ensures
        0 <= strength5(cards) < 9 * CATEGORY_WEIGHT,
{
    let ranks = deciding_ranks(cards);
    lemma_ranks_with_count(cards, 4, 13);
    lemma_ranks_with_count(cards, 3, 13);
    lemma_ranks_with_count(cards, 2, 13);
    lemma_ranks_with_count(cards, 1, 13);
    assert forall|i: int| 0 <= i < 5 implies 0 <= #[trigger] rank_at(ranks, i) < 13 by {}
}

/// The ranks that occur a given number of times are ranks, in falling order.
pub proof fn lemma_ranks_with_count(cards: Seq<Card>, count: int, below: int)
    ensures
        forall|i: int|
            0 <= i < ranks_with_count(cards, count, below).len() ==> 0
                <= #[trigger] ranks_with_count(cards, count, below)[i] < below,
        forall|i: int, j: int|
            0 <= i < j < ranks_with_count(cards, count, below).len() ==> ranks_with_count(
                cards,
                count,
                below,
            )[i] > ranks_with_count(cards, count, below)[j],
    decreases below,
{
    if below > 0 {
        lemma_ranks_with_count(cards, count, below - 1);
        let rest = ranks_with_count(cards, count, below - 1);
        let all = ranks_with_count(cards, count, below);
        if rank_count(cards, below - 1) == count {
            assert(all[0] == below - 1);
            assert forall|i: int| 1 <= i < all.len() implies all[i] == rest[i - 1] by {}
            assert forall|i: int| 0 <= i < all.len() implies 0 <= #[trigger] all[i] < below by {
                if i > 0 {
                    assert(all[i] == rest[i - 1]);
                }
            }
            assert forall|i: int, j: int| 0 <= i < j < all.len() implies all[i] > all[j] by {
                assert(all[j] == rest[j - 1]);
                if i > 0 {
                    assert(all[i] == rest[i - 1]);
                }
            }
        }
    }
}

/// The strength of seven cards is that of five of them, and no five of them
/// are stronger.
pub proof fn lemma_best_below_bound(cards: Seq<Card>, p: int)
    ensures
        0 <= best_below(cards, p) < 9 * CATEGORY_WEIGHT,
        forall|i: int, j: int|
            0 <= i < j < 7 && 7 * i + j < p ==> strength5(#[trigger] without(cards, i, j))
                <= best_below(cards, p),
        best_below(cards, p) > 0 ==> exists|i: int, j: int|
            0 <= i < j < 7 && best_below(cards, p) == strength5(#[trigger] without(cards, i, j)),
    decreases p,
{
    if p > 0 {
        lemma_best_below_bound(cards, p - 1);
        let i0 = (p - 1) / 7;
        let j0 = (p - 1) % 7;
        lemma_strength5_bound(without(cards, i0, j0));
        assert forall|i: int, j: int| 0 <= i < j < 7 && 7 * i + j < p implies strength5(
            #[trigger] without(cards, i, j),
        ) <= best_below(cards, p) by {
            if 7 * i + j == p - 1 {
                assert(i == i0 && j == j0);
            }
        }
        if best_below(cards, p) > 0 {
            if best_below(cards, p) != best_below(cards, p - 1) {
                assert(best_below(cards, p) == strength5(without(cards, i0, j0)));
                assert(0 <= i0 < j0 < 7);
            }
        }
    }
}

/// Cards with the suits `s1` and `s2` exchanged.
pub open spec fn swap_suits(cards: Seq<Card>, s1: u8, s2: u8) -> Seq<Card> {
    Seq::new(cards.len(), |k: int| swap_suit(cards[k], s1, s2))
}

proof fn lemma_swap_rank_count(cards: Seq<Card>, s1: u8, s2: u8, rank: int)
    requires
        all_cards(cards),
        s1 < 4,
        s2 < 4,
    ensures
        rank_count(swap_suits(cards, s1, s2), rank) == rank_count(cards, rank),
    decreases cards.len(),
{
    if cards.len() > 0 {
        let front = cards.drop_last();
        assert(swap_suits(cards, s1, s2).drop_last() =~= swap_suits(front, s1, s2));
        lemma_swap_rank_count(front, s1, s2, rank);
        lemma_swap_suit(cards[cards.len() - 1], s1, s2);
    }
}

proof fn lemma_swap_ranks_with_count(cards: Seq<Card>, s1: u8, s2: u8, count: int, below: int)
    requires
        all_cards(cards),
        s1 < 4,
        s2 < 4,
    ensures
        ranks_with_count(swap_suits(cards, s1, s2), count, below) == ranks_with_count(
            cards,
            count,
            below,
        ),
    decreases below,
{
    if below > 0 {
        lemma_swap_ranks_with_count(cards, s1, s2, count, below - 1);
        lemma_swap_rank_count(cards, s1, s2, below - 1);
    }
}

proof fn lemma_swap_suit(card: Card, s1: u8, s2: u8)
    requires
        is_card(card),
        s1 < 4,
        s2 < 4,
    ensures
        is_card(swap_suit(card, s1, s2)),
        rank_of(swap_suit(card, s1, s2)) == rank_of(card),
        suit_of(swap_suit(card, s1, s2)) == if suit_of(card) == s1 {
            s2 as int
        } else if suit_of(card) == s2 {
            s1 as int
        } else {
            suit_of(card)
        },
{
}

proof fn lemma_swap_flush(cards: Seq<Card>, s1: u8, s2: u8)
    requires
        all_cards(cards),
        s1 < 4,
        s2 < 4,
    ensures
        is_flush(swap_suits(cards, s1, s2)) == is_flush(cards),
{
    let swapped = swap_suits(cards, s1, s2);
    if cards.len() > 0 {
        lemma_swap_suit(cards[0], s1, s2);
    }
    if is_flush(cards) {
        assert forall|i: int| 0 <= i < swapped.len() implies suit_of(#[trigger] swapped[i])
            == suit_of(swapped[0]) by {
            lemma_swap_suit(cards[i], s1, s2);
            assert(suit_of(cards[i]) == suit_of(cards[0]));
        }
    }
    if is_flush(swapped) {
        assert forall|i: int| 0 <= i < cards.len() implies suit_of(#[trigger] cards[i]) == suit_of(
            cards[0],
        ) by {
            lemma_swap_suit(cards[i], s1, s2);
            assert(suit_of(swapped[i]) == suit_of(swapped[0]));
        }
    }
}

/// The strength of five cards does not depend on which suit is which.
pub proof fn lemma_strength5_suits(cards: Seq<Card>, s1: u8, s2: u8)
    requires
        all_cards(cards),
        s1 < 4,
        s2 < 4,
    ensures
        strength5(swap_suits(cards, s1, s2)) == strength5(cards),
{
    lemma_swap_ranks_with_count(cards, s1, s2, 4, 13);
    lemma_swap_ranks_with_count(cards, s1, s2, 3, 13);
    lemma_swap_ranks_with_count(cards, s1, s2, 2, 13);
    lemma_swap_ranks_with_count(cards, s1, s2, 1, 13);
    lemma_swap_flush(cards, s1, s2);
}

/// The strength of seven cards does not depend on which suit is which: it
/// stays the same when two suits are exchanged in all seven.
pub proof fn lemma_strength7_suits(cards: Seq<Card>, s1: u8, s2: u8)
    requires
        cards.len() == 7,
        all_cards(cards),
        s1 < 4,
        s2 < 4,
    ensures
        strength7(swap_suits(cards, s1, s2)) == strength7(cards),
{
    lemma_best_below_suits(cards, s1, s2, 49);
}

proof fn lemma_best_below_suits(cards: Seq<Card>, s1: u8, s2: u8, p: int)
    requires
        cards.len() == 7,
        all_cards(cards),
        s1 < 4,
        s2 < 4,
        p <= 49,
    ensures
        best_below(swap_suits(cards, s1, s2), p) == best_below(cards, p),
    decreases p,
{
    if p > 0 {
        lemma_best_below_suits(cards, s1, s2, p - 1);
        let i = (p - 1) / 7;
        let j = (p - 1) % 7;
        if i < j {
            let five = without(cards, i, j);
            assert(without(swap_suits(cards, s1, s2), i, j) =~= swap_suits(five, s1, s2));
            assert forall|t: int| 0 <= t < 5 implies is_card(#[trigger] five[t]) by {
                assert(is_card(cards[position_left(t, i, j)]));
            }
            lemma_strength5_suits(five, s1, s2);
        }
    }
}

proof fn lemma_rank_count_bounds(cards: Seq<Card>, rank: int)
    ensures
        0 <= rank_count(cards, rank) <= cards.len(),
    decreases cards.len(),
{
    if cards.len() > 0 {
        lemma_rank_count_bounds(cards.drop_last(), rank);
    }
}

fn count_ranks(cards: &[Card]) -> (counts: [u8; 13])
    requires
        cards@.len() == 5,
        all_cards(cards@),
    ensures
        forall|r: int| 0 <= r < 13 ==> #[trigger] counts@[r] == rank_count(cards@, r),
{
    let mut counts: [u8; 13] = [0; 13];
    let mut k: usize = 0;
    while k < 5
        invariant
            k <= 5,
            cards@.len() == 5,
            all_cards(cards@),
            forall|r: int|
                0 <= r < 13 ==> #[trigger] counts@[r] == rank_count(cards@.take(k as int), r),
        decreases 5 - k,
    {
        let rank = (cards[k] / 4) as usize;
        proof {
            assert(is_card(cards@[k as int]));
            assert(cards@.take(k + 1).drop_last() =~= cards@.take(k as int));
            lemma_rank_count_bounds(cards@.take(k as int), rank as int);
        }
        counts[rank] = counts[rank] + 1;
        k += 1;
    }
    assert(cards@.take(5) =~= cards@);
    counts
}

/// Whether a list of small numbers holds the same numbers as a list of ranks.
spec fn same_ranks(list: Seq<u8>, ranks: Seq<int>) -> bool {
    &&& list.len() == ranks.len()
    &&& forall|i: int| 0 <= i < list.len() ==> #[trigger] list[i] == ranks[i]
}

fn ranks_having(counts: &[u8; 13], count: u8, Ghost(cards): Ghost<Seq<Card>>) -> (ranks: Vec<u8>)
    requires
        forall|r: int| 0 <= r < 13 ==> #[trigger] counts@[r] == rank_count(cards, r),
    ensures
        same_ranks(ranks@, ranks_with_count(cards, count as int, 13)),
        forall|i: int| 0 <= i < ranks@.len() ==> #[trigger] ranks@[i] < 13,
{
    let mut ranks: Vec<u8> = Vec::new();
    let mut below: u8 = 13;
    let ghost all = ranks_with_count(cards, count as int, 13);
    while below > 0
        invariant
            below <= 13,
            forall|r: int| 0 <= r < 13 ==> #[trigger] counts@[r] == rank_count(cards, r),
            all == ranks_with_count(cards, count as int, 13),
            ranks@.len() + ranks_with_count(cards, count as int, below as int).len() == all.len(),
            forall|i: int| 0 <= i < ranks@.len() ==> #[trigger] ranks@[i] == all[i],
            forall|i: int|
                ranks@.len() <= i < all.len() ==> #[trigger] all[i] == ranks_with_count(
                    cards,
                    count as int,
                    below as int,
                )[i - ranks@.len()],
            forall|i: int| 0 <= i < ranks@.len() ==> #[trigger] ranks@[i] < 13,
        decreases below,
    {
        let ghost rest = ranks_with_count(cards, count as int, below as int);
        let ghost before = ranks@;
        below -= 1;
        if counts[below as usize] == count {
            assert(rest[0] == below);
            assert(all[before.len() as int] == rest[0]);
            ranks.push(below);
            assert forall|i: int| ranks@.len() <= i < all.len() implies #[trigger] all[i]
                == ranks_with_count(cards, count as int, below as int)[i - ranks@.len()] by {
                assert(all[i] == rest[i - before.len()]);
            }
        }
    }
    ranks
}

fn rank_or_zero(ranks: &Vec<u8>, i: usize) -> (r: u32)
    requires
        forall|k: int| 0 <= k < ranks@.len() ==> #[trigger] ranks@[k] < 13,
    ensures
        r < 13,
        r == if i < ranks@.len() {
            ranks@[i as int] as int
        } else {
            0
        },
{
    if i < ranks.len() {
        ranks[i] as u32
    } else {
        0
    }
}

fn all_one_suit(cards: &[Card]) -> (b: bool)
    requires
        cards@.len() == 5,
    ensures
        b == is_flush(cards@),
{
    let suit = cards[0] % 4;
    let mut k: usize = 1;
    while k < 5
        invariant
            1 <= k <= 5,
            cards@.len() == 5,
            suit == suit_of(cards@[0]),
            forall|i: int| 0 <= i < k ==> suit_of(#[trigger] cards@[i]) == suit,
        decreases 5 - k,
    {
        if cards[k] % 4 != suit {
            assert(suit_of(cards@[k as int]) != suit_of(cards@[0]));
            return false;
        }
        k += 1;
    }
    true
}

/// The strength of five cards.
pub fn rank5(cards: &[Card; 5]) -> (s: Strength)
    requires
        all_cards(cards@),
    ensures
        s == strength5(cards@),
{
    strength_of_five(cards.as_slice())
}

fn strength_of_five(cards: &[Card]) -> (s: Strength)
    requires
        cards@.len() == 5,
        all_cards(cards@),
    ensures
        s == strength5(cards@),
{
    let counts = count_ranks(cards);
    let fours = ranks_having(&counts, 4, Ghost(cards@));
    let threes = ranks_having(&counts, 3, Ghost(cards@));
    let pairs = ranks_having(&counts, 2, Ghost(cards@));
    let singles = ranks_having(&counts, 1, Ghost(cards@));
    let flush = all_one_suit(cards);
    let straight: Option<u32> = if singles.len() == 5 && singles[0] == singles[4] + 4 {
        Some(singles[0] as u32)
    } else if singles.len() == 5 && singles[0] == 12 && singles[1] == 3 && singles[4] == 0 {
        Some(3)
    } else {
        None
    };
    let category: u32 = if straight.is_some() && flush {
        8
    } else if fours.len() > 0 {
        7
    } else if threes.len() > 0 && pairs.len() > 0 {
        6
    } else if flush {
        5
    } else if straight.is_some() {
        4
    } else if threes.len() > 0 {
        3
    } else if pairs.len() > 1 {
        2
    } else if pairs.len() > 0 {
        1
    } else {
        0
    };
    match straight {
        Some(high) => category * CATEGORY_WEIGHT + high * 28561,
        None => {
            let mut ranks: Vec<u8> = Vec::new();
            let mut fours = fours;
            let mut threes = threes;
            let mut pairs = pairs;
            let mut singles = singles;
            ranks.append(&mut fours);
            ranks.append(&mut threes);
            ranks.append(&mut pairs);
            ranks.append(&mut singles);
            proof {
                let spec_ranks = deciding_ranks(cards@);
                assert(same_ranks(ranks@, spec_ranks));
            }
            let tail = rank_or_zero(&ranks, 0) * 28561 + rank_or_zero(&ranks, 1) * 2197
                + rank_or_zero(&ranks, 2) * 169 + rank_or_zero(&ranks, 3) * 13 + rank_or_zero(
                &ranks,
                4,
            );
            category * CATEGORY_WEIGHT + tail
        },
    }
}

fn left_at(t: usize, i: usize, j: usize) -> (p: usize)
    requires
        t < 5,
        i < j < 7,
    ensures
        p == position_left(t as int, i as int, j as int),
        p < 7,
{
    let a = if t >= i {
        t + 1
    } else {
        t
    };
    if a >= j {
        a + 1
    } else {
        a
    }
}

/// The strength of seven cards: that of the best five among them.
pub fn rank7(cards: &[Card; 7]) -> (s: Strength)
    requires
        all_cards(cards@),
    ensures
        s == strength7(cards@),
{
    let mut best: u32 = 0;
    let mut p: usize = 0;
    while p < 49
        invariant
            p <= 49,
            all_cards(cards@),
            best == best_below(cards@, p as int),
        decreases 49 - p,
    {
        let i = p / 7;
        let j = p % 7;
        if i < j {
            let five: [Card; 5] = [
                cards[left_at(0, i, j)],
                cards[left_at(1, i, j)],
                cards[left_at(2, i, j)],
                cards[left_at(3, i, j)],
                cards[left_at(4, i, j)],
            ];
            assert(five@ =~= without(cards@, i as int, j as int));
            let s = rank5(&five);
            if s > best {
                best = s;
            }
        }
        p += 1;
    }
    best
}

} // verus!
