//! Ranges: which hands a player may hold, and how much of each.
//!
//! A weight is held as a code, an integer that stands for it: code `0` stands
//! for weight zero (the hand is not in the range), and two hands have the same
//! weight exactly when they have the same code. What the tables of a game
//! need from a range is no more than that: which hands are in it, and which
//! hands weigh the same.

use vstd::prelude::*;
use crate::card::{is_card, suit_of, Card};
use crate::error::Error;
use crate::hand::{
    hand_blocked, hand_index, hand_to_index, index_to_hand, is_blocked, is_hand, is_hand_list,
    lemma_hand_index, Hand, NUM_HANDS,
};

verus! {

/// A weighted set of hands.
#[derive(Debug)]
pub struct Range {
    codes: Vec<u32>,
}

/// A card with its suit changed from `s1` to `s2` or back; other cards stay as
/// they are.
pub open spec fn swap_suit(card: Card, s1: u8, s2: u8) -> Card {
    if suit_of(card) == s1 {
        (card - s1 + s2) as Card
    } else if suit_of(card) == s2 {
        (card - s2 + s1) as Card
    } else {
        card
    }
}

/// A hand with the suits `s1` and `s2` exchanged.
pub open spec fn swap_hand(hand: Hand, s1: u8, s2: u8) -> Hand {
    let a = swap_suit(hand.0, s1, s2);
    let b = swap_suit(hand.1, s1, s2);
    if a > b {
        (a, b)
    } else {
        (b, a)
    }
}

/// Whether weights are the same for every hand and the hand with the suits
/// `s1` and `s2` exchanged.
pub open spec fn suit_symmetric(codes: Seq<u32>, s1: u8, s2: u8) -> bool {
    forall|i: int, j: int|
        0 <= i < j < 52 ==> codes[hand_index((j as Card, i as Card))] == codes[hand_index(
            #[trigger] swap_hand((j as Card, i as Card), s1, s2),
        )]
}

/// The hands numbered below `n` that are in a range and hold no card of the
/// board, in the order of their numbers.
pub open spec fn hands_below(codes: Seq<u32>, board: Seq<Card>, n: int) -> Seq<Hand>
    decreases n,
{
    if n <= 0 {
        Seq::empty()
    } else {
        let rest = hands_below(codes, board, n - 1);
        let hand = hand_of_index(n - 1);
        if codes[n - 1] != 0 && !hand_blocked(hand, board) {
            rest.push(hand)
        } else {
            rest
        }
    }
}

/// The hand with the given number.
pub open spec fn hand_of_index(i: int) -> Hand {
    choose|hand: Hand| is_hand(hand) && hand_index(hand) == i
}

/// The hand with a given number is the one hand that has it.
pub proof fn lemma_hand_of_index(hand: Hand)
    requires
        is_hand(hand),
    ensures
        hand_of_index(hand_index(hand)) == hand,
{
    let other = hand_of_index(hand_index(hand));
    lemma_hand_index(other, hand);
}

fn swap_card(card: Card, s1: u8, s2: u8) -> (r: Card)
    requires
        is_card(card),
        s1 < 4,
        s2 < 4,
    ensures
        r == swap_suit(card, s1, s2),
        is_card(r),
        (r == card) == (s1 == s2 || (suit_of(card) != s1 && suit_of(card) != s2)),
        r as int / 4 == card as int / 4,
{
    let suit = card % 4;
    if suit == s1 {
        card - s1 + s2
    } else if suit == s2 {
        card - s2 + s1
    } else {
        card
    }
}

impl View for Range {
    type V = Seq<u32>;

    closed spec fn view(&self) -> Seq<u32> {
        self.codes@
    }
}

impl Range {
    #[verifier::type_invariant]
    spec fn well_formed(&self) -> bool {
        self.codes@.len() == NUM_HANDS
    }

    /// The hands of the range that hold no card of a board, in the order of
    /// their numbers.
    pub open spec fn spec_hands(&self, board: Seq<Card>) -> Seq<Hand> {
        hands_below(self@, board, NUM_HANDS as int)
    }

    /// The range that holds no hand.
    pub fn new() -> (r: Self)
        ensures
            r@ == Seq::new(NUM_HANDS as nat, |i: int| 0u32),
    {
        let mut codes: Vec<u32> = Vec::new();
        let mut i: usize = 0;
        while i < NUM_HANDS
            invariant
                i <= NUM_HANDS,
                codes@.len() == i,
                forall|j: int| 0 <= j < i ==> codes@[j] == 0,
            decreases NUM_HANDS - i,
        {
            codes.push(0);
            i += 1;
        }
        assert(codes@ =~= Seq::new(NUM_HANDS as nat, |i: int| 0u32));
        Range { codes }
    }

    /// The range with the given weight codes, one for each hand in the order
    /// of the hands' numbers.
    ///
    /// Fails with [`Error::MalformedRange`] exactly when the number of codes is
    /// not the number of hands.
    pub fn from_codes(codes: Vec<u32>) -> (r: Result<Self, Error>)
        ensures
            match r {
                Ok(range) => codes@.len() == NUM_HANDS && range@ == codes@,
                Err(e) => codes@.len() != NUM_HANDS && e == Error::MalformedRange,
            },
    {
        if codes.len() == NUM_HANDS {
            Ok(Range { codes })
        } else {
            Err(Error::MalformedRange)
        }
    }

    /// The weight code of a hand.
    pub fn weight(&self, hand: Hand) -> (code: u32)
        requires
            is_hand(hand),
        ensures
            code == self@[hand_index(hand)],
    {
        proof {
            use_type_invariant(self);
        }
        self.codes[hand_to_index(hand.0, hand.1)]
    }

    /// Gives a hand a weight code.
    pub fn set_weight(&mut self, hand: Hand, code: u32)
        requires
            is_hand(hand),
        ensures
            final(self)@ == old(self)@.update(hand_index(hand), code),
    {
        proof {
            use_type_invariant(&*self);
        }
        let i = hand_to_index(hand.0, hand.1);
        self.codes[i] = code;
    }

    /// Whether the range holds no hand.
    pub fn is_empty(&self) -> (b: bool)
        ensures
            b == forall|i: int| 0 <= i < NUM_HANDS ==> self@[i] == 0,
    {
        proof {
            use_type_invariant(self);
        }
        let mut i: usize = 0;
        while i < NUM_HANDS
            invariant
                i <= NUM_HANDS,
                self.codes@.len() == NUM_HANDS,
                forall|j: int| 0 <= j < i ==> self.codes@[j] == 0,
            decreases NUM_HANDS - i,
        {
            if self.codes[i] != 0 {
                assert(self@[i as int] != 0);
                return false;
            }
            i += 1;
        }
        true
    }

    /// Whether weights are the same for every hand and the hand with the
    /// suits `s1` and `s2` exchanged.
    pub fn is_suit_symmetric(&self, s1: u8, s2: u8) -> (b: bool)
        requires
            s1 < 4,
            s2 < 4,
        ensures
            b == suit_symmetric(self@, s1, s2),
    {
        proof {
            use_type_invariant(self);
        }
        let mut j: u8 = 1;
        while j < 52
            invariant
                1 <= j <= 52,
                s1 < 4,
                s2 < 4,
                self.codes@.len() == NUM_HANDS,
                forall|a: int, b: int|
                    0 <= a < b < j ==> self@[hand_index((b as Card, a as Card))] == self@[hand_index(
                        #[trigger] swap_hand((b as Card, a as Card), s1, s2),
                    )],
            decreases 52 - j,
        {
            let mut i: u8 = 0;
            while i < j
                invariant
                    0 <= i <= j < 52,
                    s1 < 4,
                    s2 < 4,
                    self.codes@.len() == NUM_HANDS,
                    forall|a: int|
                        0 <= a < i ==> self@[hand_index((j, a as Card))] == self@[hand_index(
                            #[trigger] swap_hand((j, a as Card), s1, s2),
                        )],
                decreases j - i,
            {
                let x = swap_card(j, s1, s2);
                let y = swap_card(i, s1, s2);
                let swapped = if x > y {
                    (x, y)
                } else {
                    (y, x)
                };
                assert(swapped == swap_hand((j, i), s1, s2));
                assert(x != y) by {
                    assert(x as int % 4 == y as int % 4 ==> j as int % 4 == i as int % 4);
                }
                if self.codes[hand_to_index(j, i)] != self.codes[hand_to_index(
                    swapped.0,
                    swapped.1,
                )] {
                    assert(0 <= i as int && (i as int) < (j as int) && (j as int) < 52);
                    assert(!(self@[hand_index((j as int as Card, i as int as Card))]
                        == self@[hand_index(
                        swap_hand((j as int as Card, i as int as Card), s1, s2),
                    )]));
                    return false;
                }
                i += 1;
            }
            j += 1;
        }
        true
    }

    /// The hands of the range that hold no card of a board, in the order of
    /// their numbers.
    pub fn hands(&self, board: &Vec<Card>) -> (hands: Vec<Hand>)
        ensures
            hands@ == self.spec_hands(board@),
    {
        proof {
            use_type_invariant(self);
        }
        let mut hands: Vec<Hand> = Vec::new();
        let mut i: usize = 0;
        while i < NUM_HANDS
            invariant
                i <= NUM_HANDS,
                self.codes@.len() == NUM_HANDS,
                hands@ == hands_below(self@, board@, i as int),
            decreases NUM_HANDS - i,
        {
            let hand = index_to_hand(i);
            proof {
                lemma_hand_of_index(hand);
            }
            if self.codes[i] != 0 && !is_blocked(hand, board) {
                hands.push(hand);
            }
            i += 1;
        }
        hands
    }
}

/// Whether `found` is where the hand with the number `x` is among the first
/// `k` hands of a list: its position, or `None` if it is not among them.
spec fn finds(found: Option<usize>, hands: Seq<Hand>, k: int, x: int) -> bool {
    match found {
        Some(j) => j < k && hand_index(hands[j as int]) == x,
        None => forall|j: int| 0 <= j < k ==> hand_index(#[trigger] hands[j]) != x,
    }
}

/// For each hand of a list, the position in the list of the hand with the
/// suits `s1` and `s2` exchanged, if the list holds it.
pub fn swapped_positions(hands: &Vec<Hand>, s1: u8, s2: u8) -> (positions: Vec<Option<usize>>)
    requires
        is_hand_list(hands@),
        s1 < 4,
        s2 < 4,
    ensures
        positions@.len() == hands@.len(),
        forall|i: int|
            0 <= i < hands@.len() ==> match #[trigger] positions@[i] {
                Some(k) => k < hands@.len() && hands@[k as int] == swap_hand(hands@[i], s1, s2),
                None => !hands@.contains(swap_hand(hands@[i], s1, s2)),
            },
{
    let n = hands.len();
    let mut place: Vec<Option<usize>> = Vec::new();
    let mut x: usize = 0;
    while x < NUM_HANDS
        invariant
            x <= NUM_HANDS,
            place@.len() == x,
            forall|j: int| 0 <= j < x ==> #[trigger] place@[j] is None,
        decreases NUM_HANDS - x,
    {
        place.push(None);
        x += 1;
    }
    let mut k: usize = 0;
    while k < n
        invariant
            k <= n,
            n == hands@.len(),
            is_hand_list(hands@),
            place@.len() == NUM_HANDS,
            forall|x: int|
                0 <= x < NUM_HANDS ==> finds(#[trigger] place@[x], hands@, k as int, x),
        decreases n - k,
    {
        let hand = hands[k];
        assert(is_hand(hands@[k as int]));
        let index = hand_to_index(hand.0, hand.1);
        let ghost before = place@;
        place[index] = Some(k);
        proof {
            assert forall|x: int| 0 <= x < NUM_HANDS implies finds(
                #[trigger] place@[x],
                hands@,
                k + 1,
                x,
            ) by {
                if x != index {
                    assert(place@[x] == before[x]);
                    assert(finds(before[x], hands@, k as int, x));
                }
            }
        }
        k += 1;
    }
    let mut positions: Vec<Option<usize>> = Vec::new();
    let mut i: usize = 0;
    while i < n
        invariant
            i <= n,
            n == hands@.len(),
            is_hand_list(hands@),
            s1 < 4,
            s2 < 4,
            place@.len() == NUM_HANDS,
            forall|x: int|
                0 <= x < NUM_HANDS ==> finds(#[trigger] place@[x], hands@, n as int, x),
            positions@.len() == i,
            forall|t: int|
                0 <= t < i ==> match #[trigger] positions@[t] {
                    Some(k) => k < hands@.len() && hands@[k as int] == swap_hand(hands@[t], s1, s2),
                    None => !hands@.contains(swap_hand(hands@[t], s1, s2)),
                },
        decreases n - i,
    {
        let hand = hands[i];
        assert(is_hand(hands@[i as int]));
        let a = swap_card(hand.0, s1, s2);
        let b = swap_card(hand.1, s1, s2);
        assert(a != b) by {
            assert(a as int % 4 == b as int % 4 ==> hand.0 as int % 4 == hand.1 as int % 4);
        }
        let swapped = if a > b {
            (a, b)
        } else {
            (b, a)
        };
        assert(swapped == swap_hand(hands@[i as int], s1, s2));
        let index = hand_to_index(swapped.0, swapped.1);
        let found = place[index];
        proof {
            assert(finds(place@[index as int], hands@, n as int, index as int));
            match found {
                Some(j) => {
                    assert(is_hand(hands@[j as int]));
                    lemma_hand_index(hands@[j as int], swapped);
                },
                None => {
                    if hands@.contains(swapped) {
                        let j = choose|j: int| 0 <= j < hands@.len() && hands@[j] == swapped;
                        assert(hand_index(hands@[j]) != index);
                    }
                },
            }
        }
        positions.push(found);
        i += 1;
    }
    positions
}

/// The hands listed are the hands with a number below `n` that are in the
/// range and hold no card of the board, each once and in the order of their
/// numbers.
pub proof fn lemma_hands_below(codes: Seq<u32>, board: Seq<Card>, n: int)
    requires
        0 <= n <= NUM_HANDS,
    ensures
        hands_below(codes, board, n).len() <= n,
        forall|k: int|
            0 <= k < hands_below(codes, board, n).len() ==> {
                let hand = #[trigger] hands_below(codes, board, n)[k];
                &&& is_hand(hand)
                &&& hand_index(hand) < n
                &&& codes[hand_index(hand)] != 0
                &&& !hand_blocked(hand, board)
            },
        forall|k: int, l: int|
            0 <= k < l < hands_below(codes, board, n).len() ==> hand_index(
                hands_below(codes, board, n)[k],
            ) < hand_index(hands_below(codes, board, n)[l]),
        forall|hand: Hand|
            is_hand(hand) && hand_index(hand) < n && codes[hand_index(hand)] != 0 && !hand_blocked(
                hand,
                board,
            ) ==> #[trigger] hands_below(codes, board, n).contains(hand),
    decreases n,
{
    if n > 0 {
        lemma_hands_below(codes, board, n - 1);
        let rest = hands_below(codes, board, n - 1);
        let all = hands_below(codes, board, n);
        let last = hand_of_index(n - 1);
        lemma_hand_exists(n - 1);
        assert forall|hand: Hand|
            is_hand(hand) && hand_index(hand) < n && codes[hand_index(hand)] != 0 && !hand_blocked(
                hand,
                board,
            ) implies #[trigger] all.contains(hand) by {
            lemma_hand_index(hand, hand);
            if hand_index(hand) < n - 1 {
                assert(rest.contains(hand));
                let k = choose|k: int| 0 <= k < rest.len() && rest[k] == hand;
                assert(all[k] == hand);
            } else {
                lemma_hand_of_index(hand);
                assert(all[rest.len() as int] == hand);
            }
        }
    }
}

/// Every number below the number of hands is the number of a hand.
pub proof fn lemma_hand_exists(i: int)
    requires
        0 <= i < NUM_HANDS,
    ensures
        is_hand(hand_of_index(i)),
        hand_index(hand_of_index(i)) == i,
{
    lemma_hand_at(i, 1);
}

proof fn lemma_hand_at(i: int, high: int)
    requires
        1 <= high <= 51,
        high * (high - 1) / 2 <= i < NUM_HANDS,
    ensures
        exists|hand: Hand| is_hand(hand) && hand_index(hand) == i,
    decreases 52 - high,
{
    assert((high + 1) * high / 2 == high * (high - 1) / 2 + high) by (nonlinear_arith)
        requires
            high >= 1,
    {
        assert(high * (high - 1) % 2 == 0) by (nonlinear_arith)
            requires
                high % 2 == 0 || high % 2 == 1,
        {
            if high % 2 == 0 {
                assert(high * (high - 1) == 2 * ((high / 2) * (high - 1)));
            } else {
                assert(high * (high - 1) == 2 * (high * ((high - 1) / 2)));
            }
        }
        assert((high + 1) * high == high * (high - 1) + 2 * high);
    }
    if i < high * (high - 1) / 2 + high {
        let hand: Hand = (high as Card, (i - high * (high - 1) / 2) as Card);
        assert(is_hand(hand) && hand_index(hand) == i);
    } else {
        assert(high < 51) by {
            assert(51 * 50 / 2 + 51 == 1326);
        }
        lemma_hand_at(i, high + 1);
    }
}

} // verus!
