//! Terminal nodes: what each hand wins or loses when the betting is over.
//!
//! Values are exact. A reach is given as an integer, in whatever unit the
//! caller counts reach in, and a value is the sum, over the opponent's hands
//! that share no card with the hand, of the reach of those that the hand beats
//! less the reach of those that beat it, times the amount at stake.

use vstd::prelude::*;
use crate::card::{is_card, Card};
use crate::error::Error;
use crate::evaluator::{all_cards, rank7, strength7, Strength};
use crate::hand::{
    hand_blocked, hand_index, hand_to_index, hand_uses, hands_overlap, is_hand, lemma_hand_index,
    Hand, NUM_HANDS,
};
use crate::sums::{
    lemma_sum_bound, lemma_sum_exchange, lemma_sum_scaled, lemma_sum_difference, lemma_sum_over_all, lemma_sum_over_bound, lemma_sum_over_nothing,
    lemma_sum_over_same, lemma_sum_zero, lists_exactly, sum_all, sum_over,
};

verus! {

/// The hands of a player on a full board, with their strengths.
#[derive(Debug)]
pub struct HandTable {
    /// The five cards of the board.
    pub board: [Card; 5],
    /// The hands.
    pub hands: Vec<Hand>,
    /// For each hand its strength, or `0` if it holds a card of the board.
    pub strengths: Vec<Strength>,
    /// The positions of the hands that hold no card of the board, weakest hand
    /// first.
    pub order: Vec<usize>,
}

/// The strength of a hand on a board of five cards: `0` if the hand holds a
/// card of the board, one more than the strength of the seven cards if not.
pub open spec fn hand_strength(board: Seq<Card>, hand: Hand) -> int {
    if hand_blocked(hand, board) {
        0
    } else {
        1 + strength7(board + seq![hand.0, hand.1])
    }
}

/// Whether a list holds the positions of the hands with a strength other than
/// zero, each once, weakest first.
pub open spec fn is_strength_order(order: Seq<usize>, strengths: Seq<Strength>) -> bool {
    &&& lists_exactly(order, |j: int| strengths[j] != 0, strengths.len() as int)
    &&& forall|k: int, l: int|
        0 <= k < l < order.len() ==> strengths[order[k] as int] <= strengths[order[l] as int]
}

/// Whether all hands of a list are pairs of different cards of the deck, the
/// higher first.
pub open spec fn all_hands(hands: Seq<Hand>) -> bool {
    forall|k: int| 0 <= k < hands.len() ==> is_hand(#[trigger] hands[k])
}

impl HandTable {
    /// Whether the table is in order: it holds at most as many hands as there
    /// are, each with its strength on the board, and their order by strength.
    pub open spec fn wf(&self) -> bool {
        &&& all_cards(self.board@)
        &&& all_hands(self.hands@)
        &&& self.hands@.len() <= NUM_HANDS
        &&& self.strengths@.len() == self.hands@.len()
        &&& forall|k: int|
            0 <= k < self.hands@.len() ==> #[trigger] self.strengths@[k] == hand_strength(
                self.board@,
                self.hands@[k],
            )
        &&& is_strength_order(self.order@, self.strengths@)
    }

    /// What is wrong with a board and a list of hands, if anything: a card that
    /// is no card of the deck, a hand that is not two different cards with the
    /// higher first, or more hands than there are.
    pub open spec fn fault(board: Seq<Card>, hands: Seq<Hand>) -> Option<Error> {
        if !all_cards(board) || !all_hands(hands) {
            Some(Error::InvalidCard)
        } else if hands.len() > NUM_HANDS {
            Some(Error::MalformedRange)
        } else {
            None
        }
    }
}

fn check_cards(board: &[Card; 5]) -> (ok: bool)
    ensures
        ok == all_cards(board@),
{
    let mut k: usize = 0;
    while k < 5
        invariant
            k <= 5,
            forall|i: int| 0 <= i < k ==> is_card(#[trigger] board@[i]),
        decreases 5 - k,
    {
        if board[k] >= 52 {
            assert(!is_card(board@[k as int]));
            return false;
        }
        k += 1;
    }
    true
}

fn check_hands(hands: &Vec<Hand>) -> (ok: bool)
    ensures
        ok == all_hands(hands@),
{
    let mut k: usize = 0;
    while k < hands.len()
        invariant
            k <= hands.len(),
            forall|i: int| 0 <= i < k ==> is_hand(#[trigger] hands@[i]),
        decreases hands.len() - k,
    {
        let hand = hands[k];
        if !(hand.1 < hand.0 && hand.0 < 52) {
            assert(!is_hand(hands@[k as int]));
            return false;
        }
        k += 1;
    }
    true
}

/// The strength of a hand on a board of five cards.
pub fn strength_on(board: &[Card; 5], hand: Hand) -> (s: Strength)
    requires
        all_cards(board@),
        is_hand(hand),
    ensures
        s == hand_strength(board@, hand),
{
    let seven: [Card; 7] = [board[0], board[1], board[2], board[3], board[4], hand.0, hand.1];
    assert(seven@ =~= board@ + seq![hand.0, hand.1]);
    let blocked = board[0] == hand.0 || board[0] == hand.1 || board[1] == hand.0 || board[1]
        == hand.1 || board[2] == hand.0 || board[2] == hand.1 || board[3] == hand.0 || board[3]
        == hand.1 || board[4] == hand.0 || board[4] == hand.1;
    proof {
        if blocked {
            assert(hand_uses(hand, board@[0]) || hand_uses(hand, board@[1]) || hand_uses(
                hand,
                board@[2],
            ) || hand_uses(hand, board@[3]) || hand_uses(hand, board@[4]));
        }
        lemma_strength7_bound(seven@);
    }
    if blocked {
        0
    } else {
        1 + rank7(&seven)
    }
}

proof fn lemma_strength7_bound(cards: Seq<Card>)
    ensures
        0 <= strength7(cards) < 0x7fff_ffff,
{
    crate::evaluator::lemma_best_below_bound(cards, 49);
}

/// The positions of the strengths other than zero, lowest strength first;
/// positions of equal strength are in increasing order.
pub fn strength_order(strengths: &Vec<Strength>) -> (order: Vec<usize>)
    ensures
        is_strength_order(order@, strengths@),
        forall|k: int, l: int|
            0 <= k < l < order@.len() && strengths@[order@[k] as int] == strengths@[order@[l] as int]
                ==> order@[k] < order@[l],
{
    let mut order: Vec<usize> = Vec::new();
    let ghost keep = |j: int| strengths@[j] != 0;
    let mut i: usize = 0;
    while i < strengths.len()
        invariant
            i <= strengths.len(),
            keep == |j: int| strengths@[j] != 0,
            lists_exactly(order@, keep, i as int),
            forall|k: int, l: int|
                0 <= k < l < order@.len() ==> strengths@[order@[k] as int]
                    <= strengths@[order@[l] as int],
            forall|k: int, l: int|
                0 <= k < l < order@.len() && strengths@[order@[k] as int]
                    == strengths@[order@[l] as int] ==> order@[k] < order@[l],
        decreases strengths.len() - i,
    {
        let s = strengths[i];
        if s != 0 {
            let mut q: usize = order.len();
            while q > 0 && strengths[order[q - 1]] > s
                invariant
                    q <= order@.len(),
                    i < strengths.len(),
                    s == strengths@[i as int],
                    forall|k: int| 0 <= k < order@.len() ==> #[trigger] order@[k] < i,
                    forall|k: int| q <= k < order@.len() ==> strengths@[order@[k] as int] > s,
                decreases q,
            {
                q -= 1;
            }
            let ghost before = order@;
            order.insert(q, i);
            proof {
                let after = order@;
                assert(after.len() == before.len() + 1);
                assert forall|k: int| 0 <= k < after.len() implies #[trigger] after[k] == (if k
                    < q {
                    before[k]
                } else if k == q {
                    i
                } else {
                    before[k - 1]
                }) by {}
                assert forall|k: int| 0 <= k < after.len() implies #[trigger] after[k] < i + 1
                    && keep(after[k] as int) by {
                    if k < q {
                        assert(before[k] < i && keep(before[k] as int));
                    } else if k > q {
                        assert(before[k - 1] < i && keep(before[k - 1] as int));
                    }
                }
                assert forall|k: int, l: int| 0 <= k < l < after.len() implies after[k]
                    != after[l] && strengths@[after[k] as int] <= strengths@[after[l] as int] && (
                strengths@[after[k] as int] == strengths@[after[l] as int] ==> after[k]
                    < after[l]) by {
                    let k0 = if k < q {
                        k
                    } else {
                        k - 1
                    };
                    let l0 = if l < q {
                        l
                    } else {
                        l - 1
                    };
                    if k != q && l != q {
                        assert(after[k] == before[k0] && after[l] == before[l0]);
                    } else if k == q {
                        assert(after[l] == before[l0]);
                        assert(before[l0] < i);
                    } else {
                        assert(after[k] == before[k0]);
                        assert(before[k0] < i);
                        if q > 0 {
                            assert(strengths@[before[q - 1] as int] <= s);
                            assert(strengths@[before[k0] as int] <= strengths@[before[q - 1] as int]
                                || k0 == q - 1);
                        }
                    }
                }
                assert forall|j: int| 0 <= j < i + 1 && #[trigger] keep(j) implies exists|k: int|
                    0 <= k < after.len() && #[trigger] after[k] == j by {
                    if j == i {
                        assert(after[q as int] == j);
                    } else {
                        let k0 = choose|k: int| 0 <= k < before.len() && #[trigger] before[k] == j;
                        let k = if k0 < q {
                            k0
                        } else {
                            k0 + 1
                        };
                        assert(after[k] == j);
                    }
                }
            }
        } else {
            proof {
                assert forall|k: int| 0 <= k < order@.len() implies #[trigger] order@[k] < i + 1
                    && keep(order@[k] as int) by {
                    assert(order@[k] < i && keep(order@[k] as int));
                }
            }
        }
        i += 1;
    }
    order
}

impl HandTable {
    /// The table of a list of hands on a board of five cards.
    ///
    /// Fails exactly when something is wrong with the board or the hands, and
    /// says what.
    pub fn new(board: [Card; 5], hands: Vec<Hand>) -> (r: Result<HandTable, Error>)
        ensures
            match r {
                Ok(table) => {
                    &&& Self::fault(board@, hands@) is None
                    &&& table.wf()
                    &&& table.board == board
                    &&& table.hands == hands
                },
                Err(e) => Self::fault(board@, hands@) == Some(e),
            },
    {
        if !check_cards(&board) || !check_hands(&hands) {
            return Err(Error::InvalidCard);
        }
        if hands.len() > NUM_HANDS {
            return Err(Error::MalformedRange);
        }
        let mut strengths: Vec<Strength> = Vec::new();
        let mut k: usize = 0;
        while k < hands.len()
            invariant
                k <= hands.len(),
                all_cards(board@),
                all_hands(hands@),
                strengths@.len() == k,
                forall|i: int|
                    0 <= i < k ==> #[trigger] strengths@[i] == hand_strength(board@, hands@[i]),
            decreases hands.len() - k,
        {
            let hand = hands[k];
            assert(is_hand(hands@[k as int]));
            strengths.push(strength_on(&board, hand));
            k += 1;
        }
        let order = strength_order(&strengths);
        Ok(HandTable { board, hands, strengths, order })
    }
}

/// What the opponent's hand at position `j` adds to the value of a hand of
/// strength `s` at a showdown: its reach if the hand beats it, its reach taken
/// off if it beats the hand, nothing if the two are equally strong, share a
/// card, or either holds a card of the board.
pub open spec fn beats_term(
    hand: Hand,
    s: Strength,
    hands: Seq<Hand>,
    strengths: Seq<Strength>,
    reach: Seq<i32>,
) -> spec_fn(int) -> int {
    |j: int|
        if s == 0 || strengths[j] == 0 || hands_overlap(hand, hands[j]) {
            0int
        } else if strengths[j] < s {
            reach[j] as int
        } else if strengths[j] > s {
            -(reach[j] as int)
        } else {
            0int
        }
}

/// The reach a hand of strength `s` beats at a showdown, less the reach that
/// beats it.
pub open spec fn showdown_sum(
    hand: Hand,
    s: Strength,
    hands: Seq<Hand>,
    strengths: Seq<Strength>,
    reach: Seq<i32>,
) -> int {
    sum_all(beats_term(hand, s, hands, strengths, reach), hands.len() as int)
}

/// What the opponent's hand at position `j` adds to the value of a hand when
/// the opponent folds: its reach, unless the two hands share a card.
pub open spec fn meeting_term(hand: Hand, hands: Seq<Hand>, reach: Seq<i32>) -> spec_fn(int) -> int {
    |j: int|
        if hands_overlap(hand, hands[j]) {
            0int
        } else {
            reach[j] as int
        }
}

/// The reach of the opponent's hands that share no card with a hand.
pub open spec fn fold_sum(hand: Hand, hands: Seq<Hand>, reach: Seq<i32>) -> int {
    sum_all(meeting_term(hand, hands, reach), hands.len() as int)
}

/// The reach of the hand at position `j`.
spec fn reach_term(reach: Seq<i32>) -> spec_fn(int) -> int {
    |j: int| reach[j] as int
}

/// The reach of the hand at position `j` if it holds the card `card`.
spec fn with_term(hands: Seq<Hand>, reach: Seq<i32>, card: Card) -> spec_fn(int) -> int {
    |j: int|
        if hand_uses(hands[j], card) {
            reach[j] as int
        } else {
            0int
        }
}

/// The reach of the hand at position `j` if it is weaker than `s` and meets
/// the hand.
spec fn weaker_term(
    hand: Hand,
    s: Strength,
    hands: Seq<Hand>,
    strengths: Seq<Strength>,
    reach: Seq<i32>,
) -> spec_fn(int) -> int {
    |j: int|
        if strengths[j] != 0 && strengths[j] < s && !hands_overlap(hand, hands[j]) {
            reach[j] as int
        } else {
            0int
        }
}

/// The reach of the hand at position `j` if it is stronger than `s` and meets
/// the hand.
spec fn stronger_term(
    hand: Hand,
    s: Strength,
    hands: Seq<Hand>,
    strengths: Seq<Strength>,
    reach: Seq<i32>,
) -> spec_fn(int) -> int {
    |j: int|
        if strengths[j] > s && !hands_overlap(hand, hands[j]) {
            reach[j] as int
        } else {
            0int
        }
}

/// Among hands of which none is made of the same two cards as a hand, those
/// that share no card with it are all but those that hold its first card and
/// those that hold its second.
proof fn lemma_meeting_range(
    order: Seq<usize>,
    hands: Seq<Hand>,
    reach: Seq<i32>,
    hand: Hand,
    p: int,
    q: int,
)
    requires
        0 <= p <= q <= order.len(),
        hand.0 != hand.1,
        forall|k: int|
            p <= k < q ==> !(hand_uses(hands[#[trigger] order[k] as int], hand.0) && hand_uses(
                hands[order[k] as int],
                hand.1,
            )),
    ensures
        sum_over(order, meeting_term(hand, hands, reach), q) - sum_over(
            order,
            meeting_term(hand, hands, reach),
            p,
        ) == (sum_over(order, reach_term(reach), q) - sum_over(order, reach_term(reach), p)) - (
        sum_over(order, with_term(hands, reach, hand.0), q) - sum_over(
            order,
            with_term(hands, reach, hand.0),
            p,
        )) - (sum_over(order, with_term(hands, reach, hand.1), q) - sum_over(
            order,
            with_term(hands, reach, hand.1),
            p,
        )),
    decreases q - p,
{
    if p < q {
        lemma_meeting_range(order, hands, reach, hand, p, q - 1);
        let j = order[q - 1] as int;
        assert(!(hand_uses(hands[j], hand.0) && hand_uses(hands[j], hand.1)));
        assert(hands_overlap(hand, hands[j]) == (hand_uses(hands[j], hand.0) || hand_uses(
            hands[j],
            hand.1,
        )));
    }
}

/// At a showdown, with the opponent's hands in the order of their strength,
/// the value of a hand comes from three sums each over the hands before a
/// place in that order: `below` is where the hands as strong as the hand
/// begin, `above` where the stronger hands begin.
proof fn lemma_showdown_by_order(
    hand: Hand,
    s: Strength,
    board: Seq<Card>,
    hands: Seq<Hand>,
    strengths: Seq<Strength>,
    order: Seq<usize>,
    reach: Seq<i32>,
    below: int,
    above: int,
)
    requires
        is_hand(hand),
        s == hand_strength(board, hand),
        s != 0,
        all_hands(hands),
        strengths.len() == hands.len(),
        reach.len() == hands.len(),
        forall|k: int|
            0 <= k < hands.len() ==> #[trigger] strengths[k] == hand_strength(board, hands[k]),
        is_strength_order(order, strengths),
        0 <= below <= above <= order.len(),
        forall|k: int| 0 <= k < below ==> strengths[#[trigger] order[k] as int] < s,
        forall|k: int| below <= k < order.len() ==> strengths[#[trigger] order[k] as int] >= s,
        forall|k: int| 0 <= k < above ==> strengths[#[trigger] order[k] as int] <= s,
        forall|k: int| above <= k < order.len() ==> strengths[#[trigger] order[k] as int] > s,
    ensures
        showdown_sum(hand, s, hands, strengths, reach) == (sum_over(
            order,
            reach_term(reach),
            below,
        ) - sum_over(order, with_term(hands, reach, hand.0), below) - sum_over(
            order,
            with_term(hands, reach, hand.1),
            below,
        )) - ((sum_over(order, reach_term(reach), order.len() as int) - sum_over(
            order,
            reach_term(reach),
            above,
        )) - (sum_over(order, with_term(hands, reach, hand.0), order.len() as int) - sum_over(
            order,
            with_term(hands, reach, hand.0),
            above,
        )) - (sum_over(order, with_term(hands, reach, hand.1), order.len() as int) - sum_over(
            order,
            with_term(hands, reach, hand.1),
            above,
        ))),
{
    let n = hands.len() as int;
    let m = order.len() as int;
    let keep = |j: int| strengths[j] != 0;
    let beats = beats_term(hand, s, hands, strengths, reach);
    let weaker = weaker_term(hand, s, hands, strengths, reach);
    let stronger = stronger_term(hand, s, hands, strengths, reach);
    let meeting = meeting_term(hand, hands, reach);
    // the value is what is beaten less what beats
    assert forall|j: int| 0 <= j < n implies #[trigger] beats(j) == weaker(j) - stronger(j) by {}
    lemma_sum_difference(weaker, stronger, beats, n);
    // both can be summed in the order of strength
    lemma_sum_over_all(order, keep, weaker, n);
    lemma_sum_over_all(order, keep, stronger, n);
    // a hand made of the same two cards is as strong
    assert forall|k: int| 0 <= k < m && hand_uses(hands[#[trigger] order[k] as int], hand.0)
        && hand_uses(hands[order[k] as int], hand.1) implies strengths[order[k] as int] == s by {
        let j = order[k] as int;
        assert(is_hand(hands[j]));
        assert(hands[j] == hand);
    }
    // the weaker hands are those before `below`
    lemma_sum_over_nothing(order, weaker, below, m);
    lemma_sum_over_same(order, weaker, meeting, 0, below);
    lemma_meeting_range(order, hands, reach, hand, 0, below);
    // the stronger hands are those from `above` on
    lemma_sum_over_nothing(order, stronger, 0, above);
    lemma_sum_over_same(order, stronger, meeting, above, m);
    lemma_meeting_range(order, hands, reach, hand, above, m);
}

/// Running sums of reach over the opponent's hands: of all hands, and for each
/// card of the hands that hold it.
struct Tally {
    total: i64,
    with: [i64; 52],
}

impl Tally {
    /// Whether the sums are those over the first `p` entries of a list.
    spec fn counts(&self, order: Seq<usize>, hands: Seq<Hand>, reach: Seq<i32>, p: int) -> bool {
        &&& 0 <= p <= order.len()
        &&& self.total == sum_over(order, reach_term(reach), p)
        &&& forall|c: int|
            0 <= c < 52 ==> #[trigger] self.with@[c] == sum_over(
                order,
                with_term(hands, reach, c as Card),
                p,
            )
    }

    fn new(Ghost(order): Ghost<Seq<usize>>, Ghost(hands): Ghost<Seq<Hand>>, Ghost(reach): Ghost<
        Seq<i32>,
    >) -> (tally: Tally)
        ensures
            tally.counts(order, hands, reach, 0),
    {
        Tally { total: 0, with: [0; 52] }
    }

    /// Takes in the hand at the next entry of the list.
    fn take(&mut self, table: &HandTable, reach: &Vec<i32>, p: usize)
        requires
            table.wf(),
            reach@.len() == table.hands@.len(),
            p < table.order@.len(),
            old(self).counts(table.order@, table.hands@, reach@, p as int),
        ensures
            final(self).counts(table.order@, table.hands@, reach@, p + 1),
    {
        let ghost order = table.order@;
        let ghost hands = table.hands@;
        let j = table.order[p];
        assert(order[p as int] < hands.len());
        let hand = table.hands[j];
        let r = reach[j] as i64;
        assert(is_hand(hands[j as int]));
        proof {
            lemma_tally_bounds(order, hands, reach@, p as int);
            lemma_tally_bounds(order, hands, reach@, p + 1);
            assert(order.len() <= NUM_HANDS) by {
                lemma_order_len(order, table.strengths@);
            }
        }
        let ghost before = self.with@;
        self.total = self.total + r;
        self.with[hand.0 as usize] = self.with[hand.0 as usize] + r;
        self.with[hand.1 as usize] = self.with[hand.1 as usize] + r;
        proof {
            assert forall|c: int| 0 <= c < 52 implies #[trigger] self.with@[c] == sum_over(
                order,
                with_term(hands, reach@, c as Card),
                p + 1,
            ) by {
                assert(before[c] == sum_over(order, with_term(hands, reach@, c as Card), p as int));
            }
        }
    }
}

/// A list that holds positions below the number of strengths, each once, is
/// no longer than the strengths are many.
proof fn lemma_order_len(order: Seq<usize>, strengths: Seq<Strength>)
    requires
        is_strength_order(order, strengths),
    ensures
        order.len() <= strengths.len(),
{
    let keep = |j: int| strengths[j] != 0;
    let one = |j: int| 1int;
    let kept = |j: int|
        if strengths[j] != 0 {
            1int
        } else {
            0int
        };
    lemma_sum_over_all(order, keep, kept, strengths.len() as int);
    lemma_sum_over_same(order, kept, one, 0, order.len() as int);
    lemma_count(order, order.len() as int);
    lemma_at_most(strengths, strengths.len() as int);
}

proof fn lemma_count(order: Seq<usize>, p: int)
    requires
        0 <= p <= order.len(),
    ensures
        sum_over(order, |j: int| 1int, p) == p,
    decreases p,
{
    if p > 0 {
        lemma_count(order, p - 1);
    }
}

proof fn lemma_at_most(strengths: Seq<Strength>, n: int)
    requires
        0 <= n,
    ensures
        sum_all(
            |j: int|
                if strengths[j] != 0 {
                    1int
                } else {
                    0int
                },
            n,
        ) <= n,
    decreases n,
{
    if n > 0 {
        lemma_at_most(strengths, n - 1);
    }
}

/// The running sums stay far below what sixty-four bits hold.
proof fn lemma_tally_bounds(order: Seq<usize>, hands: Seq<Hand>, reach: Seq<i32>, p: int)
    requires
        0 <= p <= order.len(),
    ensures
        -(p * 0x8000_0000) <= sum_over(order, reach_term(reach), p) <= p * 0x8000_0000,
        forall|c: int|
            0 <= c < 52 ==> -(p * 0x8000_0000) <= #[trigger] sum_over(
                order,
                with_term(hands, reach, c as Card),
                p,
            ) <= p * 0x8000_0000,
{
    lemma_sum_over_bound(order, reach_term(reach), p, 0x8000_0000);
    assert forall|c: int| 0 <= c < 52 implies -(p * 0x8000_0000) <= #[trigger] sum_over(
        order,
        with_term(hands, reach, c as Card),
        p,
    ) <= p * 0x8000_0000 by {
        lemma_sum_over_bound(order, with_term(hands, reach, c as Card), p, 0x8000_0000);
    }
}

/// Moves a place in the opponent's order of strength on to where the hands
/// begin that are not weaker than `s`, taking in the hands passed.
fn pass_weaker(tally: &mut Tally, theirs: &HandTable, reach: &Vec<i32>, from: usize, s: Strength) -> (to:
    usize)
    requires
        theirs.wf(),
        reach@.len() == theirs.hands@.len(),
        old(tally).counts(theirs.order@, theirs.hands@, reach@, from as int),
        forall|k: int|
            0 <= k < from ==> theirs.strengths@[#[trigger] theirs.order@[k] as int] < s,
    ensures
        from <= to <= theirs.order@.len(),
        final(tally).counts(theirs.order@, theirs.hands@, reach@, to as int),
        forall|k: int| 0 <= k < to ==> theirs.strengths@[#[trigger] theirs.order@[k] as int] < s,
        forall|k: int|
            to <= k < theirs.order@.len() ==> theirs.strengths@[#[trigger] theirs.order@[k] as int]
                >= s,
{
    let m = theirs.order.len();
    let mut to = from;
    proof {
        lemma_order_len(theirs.order@, theirs.strengths@);
    }
    while to < m && theirs.strengths[theirs.order[to]] < s
        invariant
            from <= to <= m,
            m == theirs.order@.len(),
            theirs.wf(),
            reach@.len() == theirs.hands@.len(),
            tally.counts(theirs.order@, theirs.hands@, reach@, to as int),
            forall|k: int|
                0 <= k < to ==> theirs.strengths@[#[trigger] theirs.order@[k] as int] < s,
        decreases m - to,
    {
        tally.take(theirs, reach, to);
        to += 1;
    }
    proof {
        let order = theirs.order@;
        let strengths = theirs.strengths@;
        assert forall|k: int| to <= k < m implies strengths[#[trigger] order[k] as int] >= s by {
            if k > to {
                assert(strengths[order[to as int] as int] <= strengths[order[k] as int]);
            }
        }
    }
    to
}

/// Moves a place in the opponent's order of strength on to where the hands
/// begin that are stronger than `s`, taking in the hands passed.
fn pass_equal(tally: &mut Tally, theirs: &HandTable, reach: &Vec<i32>, from: usize, s: Strength) -> (to:
    usize)
    requires
        theirs.wf(),
        reach@.len() == theirs.hands@.len(),
        old(tally).counts(theirs.order@, theirs.hands@, reach@, from as int),
        forall|k: int|
            0 <= k < from ==> theirs.strengths@[#[trigger] theirs.order@[k] as int] <= s,
    ensures
        from <= to <= theirs.order@.len(),
        final(tally).counts(theirs.order@, theirs.hands@, reach@, to as int),
        forall|k: int| 0 <= k < to ==> theirs.strengths@[#[trigger] theirs.order@[k] as int] <= s,
        forall|k: int|
            to <= k < theirs.order@.len() ==> theirs.strengths@[#[trigger] theirs.order@[k] as int]
                > s,
{
    let m = theirs.order.len();
    let mut to = from;
    proof {
        lemma_order_len(theirs.order@, theirs.strengths@);
    }
    while to < m && theirs.strengths[theirs.order[to]] <= s
        invariant
            from <= to <= m,
            m == theirs.order@.len(),
            theirs.wf(),
            reach@.len() == theirs.hands@.len(),
            tally.counts(theirs.order@, theirs.hands@, reach@, to as int),
            forall|k: int|
                0 <= k < to ==> theirs.strengths@[#[trigger] theirs.order@[k] as int] <= s,
        decreases m - to,
    {
        tally.take(theirs, reach, to);
        to += 1;
    }
    proof {
        let order = theirs.order@;
        let strengths = theirs.strengths@;
        assert forall|k: int| to <= k < m implies strengths[#[trigger] order[k] as int] > s by {
            if k > to {
                assert(strengths[order[to as int] as int] <= strengths[order[k] as int]);
            }
        }
    }
    to
}

/// The reach a hand beats less the reach that beats it, from the running
/// sums: `lower` up to where the hands as strong as the hand begin, `upper` up
/// to where the stronger hands begin, `all` over all of the opponent's hands.
fn showdown_of(
    hand: Hand,
    s: Strength,
    theirs: &HandTable,
    reach: &Vec<i32>,
    all: &Tally,
    lower: &Tally,
    below: usize,
    upper: &Tally,
    above: usize,
) -> (sum: i64)
    requires
        is_hand(hand),
        s == hand_strength(theirs.board@, hand),
        s != 0,
        theirs.wf(),
        reach@.len() == theirs.hands@.len(),
        all.counts(theirs.order@, theirs.hands@, reach@, theirs.order@.len() as int),
        lower.counts(theirs.order@, theirs.hands@, reach@, below as int),
        upper.counts(theirs.order@, theirs.hands@, reach@, above as int),
        forall|k: int| 0 <= k < below ==> theirs.strengths@[#[trigger] theirs.order@[k] as int] < s,
        forall|k: int|
            below <= k < theirs.order@.len() ==> theirs.strengths@[#[trigger] theirs.order@[k] as int]
                >= s,
        forall|k: int|
            0 <= k < above ==> theirs.strengths@[#[trigger] theirs.order@[k] as int] <= s,
        forall|k: int|
            above <= k < theirs.order@.len() ==> theirs.strengths@[#[trigger] theirs.order@[k] as int]
                > s,
    ensures
        sum == showdown_sum(hand, s, theirs.hands@, theirs.strengths@, reach@),
{
    let ghost order = theirs.order@;
    let ghost hands = theirs.hands@;
    let ghost strengths = theirs.strengths@;
    proof {
        lemma_order_len(order, strengths);
        if above < below {
            assert(strengths[order[above as int] as int] < s);
        }
        lemma_showdown_by_order(
            hand,
            s,
            theirs.board@,
            hands,
            strengths,
            order,
            reach@,
            below as int,
            above as int,
        );
        lemma_tally_bounds(order, hands, reach@, below as int);
        lemma_tally_bounds(order, hands, reach@, above as int);
        lemma_tally_bounds(order, hands, reach@, order.len() as int);
    }
    let c0 = hand.0 as usize;
    let c1 = hand.1 as usize;
    let weaker: i64 = lower.total - lower.with[c0] - lower.with[c1];
    let stronger: i64 = (all.total - upper.total) - (all.with[c0] - upper.with[c0]) - (all.with[c1]
        - upper.with[c1]);
    weaker - stronger
}

/// The values of a player's hands at a showdown.
///
/// The value of a hand is `amount` times the reach it beats less the reach
/// that beats it, among the opponent's hands that share no card with it. Both
/// tables are for the same board. The opponent's hands are gone through in the
/// order of their strength, once, whatever the number of the player's hands.
pub fn evaluate_showdown(
    amount: i64,
    ours: &HandTable,
    theirs: &HandTable,
    their_reach: &Vec<i32>,
) -> (values: Vec<i128>)
    requires
        ours.wf(),
        theirs.wf(),
        ours.board@ == theirs.board@,
        their_reach@.len() == theirs.hands@.len(),
    ensures
        values@.len() == ours.hands@.len(),
        forall|i: int|
            0 <= i < values@.len() ==> #[trigger] values@[i] == amount * showdown_sum(
                ours.hands@[i],
                ours.strengths@[i],
                theirs.hands@,
                theirs.strengths@,
                their_reach@,
            ),
{
    let ghost hands = theirs.hands@;
    let ghost strengths = theirs.strengths@;
    let ghost order = theirs.order@;
    let ghost reach = their_reach@;
    let n = ours.hands.len();
    let m = theirs.order.len();
    let mut values: Vec<i128> = Vec::new();
    let mut i: usize = 0;
    while i < n
        invariant
            i <= n,
            values@.len() == i,
            forall|k: int| 0 <= k < i ==> #[trigger] values@[k] == 0,
        decreases n - i,
    {
        values.push(0);
        i += 1;
    }
    let mut all = Tally::new(Ghost(order), Ghost(hands), Ghost(reach));
    let mut p: usize = 0;
    while p < m
        invariant
            p <= m,
            m == theirs.order@.len(),
            theirs.wf(),
            their_reach@.len() == theirs.hands@.len(),
            all.counts(theirs.order@, theirs.hands@, their_reach@, p as int),
        decreases m - p,
    {
        all.take(theirs, their_reach, p);
        p += 1;
    }
    let mut lower = Tally::new(Ghost(order), Ghost(hands), Ghost(reach));
    let mut upper = Tally::new(Ghost(order), Ghost(hands), Ghost(reach));
    let mut below: usize = 0;
    let mut above: usize = 0;
    let mut a: usize = 0;
    let ghost mut last: int = 0;
    while a < ours.order.len()
        invariant
            a <= ours.order@.len(),
            ours.wf(),
            theirs.wf(),
            ours.board@ == theirs.board@,
            their_reach@.len() == theirs.hands@.len(),
            n == ours.hands@.len(),
            values@.len() == n,
            all.counts(theirs.order@, theirs.hands@, their_reach@, theirs.order@.len() as int),
            lower.counts(theirs.order@, theirs.hands@, their_reach@, below as int),
            upper.counts(theirs.order@, theirs.hands@, their_reach@, above as int),
            forall|k: int|
                0 <= k < below ==> theirs.strengths@[#[trigger] theirs.order@[k] as int] < last,
            forall|k: int|
                0 <= k < above ==> theirs.strengths@[#[trigger] theirs.order@[k] as int] <= last,
            a > 0 ==> last == ours.strengths@[ours.order@[a - 1] as int],
            a == 0 ==> below == 0 && above == 0,
            forall|k: int|
                0 <= k < n && ours.strengths@[k] == 0 ==> #[trigger] values@[k] == 0,
            forall|b: int|
                0 <= b < a ==> values@[#[trigger] ours.order@[b] as int] == amount * showdown_sum(
                    ours.hands@[ours.order@[b] as int],
                    ours.strengths@[ours.order@[b] as int],
                    theirs.hands@,
                    theirs.strengths@,
                    their_reach@,
                ),
        decreases ours.order@.len() - a,
    {
        let i = ours.order[a];
        assert(ours.order@[a as int] < n && ours.strengths@[i as int] != 0);
        let s = ours.strengths[i];
        let hand = ours.hands[i];
        assert(is_hand(ours.hands@[i as int]));
        proof {
            if a > 0 {
                assert(ours.strengths@[ours.order@[a - 1] as int]
                    <= ours.strengths@[ours.order@[a as int] as int]);
            }
        }
        below = pass_weaker(&mut lower, theirs, their_reach, below, s);
        above = pass_equal(&mut upper, theirs, their_reach, above, s);
        let sum = showdown_of(hand, s, theirs, their_reach, &all, &lower, below, &upper, above);
        let value: i128 = product(amount, sum);
        let ghost before = values@;
        values[i] = value;
        proof {
            last = s as int;
            assert forall|b: int| 0 <= b < a + 1 implies values@[#[trigger] ours.order@[b] as int]
                == amount * showdown_sum(
                ours.hands@[ours.order@[b] as int],
                ours.strengths@[ours.order@[b] as int],
                theirs.hands@,
                theirs.strengths@,
                their_reach@,
            ) by {
                if b < a {
                    assert(ours.order@[b] != ours.order@[a as int]);
                    assert(values@[ours.order@[b] as int] == before[ours.order@[b] as int]);
                }
            }
        }
        a += 1;
    }
    proof {
        assert forall|i: int| 0 <= i < values@.len() implies #[trigger] values@[i] == amount
            * showdown_sum(
            ours.hands@[i],
            ours.strengths@[i],
            theirs.hands@,
            theirs.strengths@,
            their_reach@,
        ) by {
            if ours.strengths@[i] == 0 {
                lemma_sum_zero(
                    beats_term(ours.hands@[i], ours.strengths@[i], hands, strengths, reach),
                    hands.len() as int,
                );
                assert(amount * 0 == 0);
            } else {
                let keep = |j: int| ours.strengths@[j] != 0;
                assert(keep(i));
                let b = choose|b: int| 0 <= b < ours.order@.len() && #[trigger] ours.order@[b] == i;
                assert(values@[ours.order@[b] as int] == amount * showdown_sum(
                    ours.hands@[ours.order@[b] as int],
                    ours.strengths@[ours.order@[b] as int],
                    hands,
                    strengths,
                    reach,
                ));
            }
        }
    }
    values
}

/// The product of two numbers of sixty-four bits, which one of a hundred and
/// twenty-eight bits always holds.
fn product(a: i64, b: i64) -> (c: i128)
    ensures
        c == a * b,
{
    assert(-0x4000_0000_0000_0000_0000_0000_0000_0000 <= a * b
        <= 0x4000_0000_0000_0000_0000_0000_0000_0000) by (nonlinear_arith)
        requires
            -0x8000_0000_0000_0000 <= a <= 0x8000_0000_0000_0000,
            -0x8000_0000_0000_0000 <= b <= 0x8000_0000_0000_0000,
    ;
    (a as i128) * (b as i128)
}

/// The reach of the hand at position `j` if it is the hand with number
/// `index`.
spec fn same_term(hands: Seq<Hand>, reach: Seq<i32>, index: int) -> spec_fn(int) -> int {
    |j: int|
        if hand_index(hands[j]) == index {
            reach[j] as int
        } else {
            0int
        }
}

/// The hands that share no card with a hand are all but those that hold its
/// first card and those that hold its second, the hands made of both cards
/// taken off once, not twice.
proof fn lemma_meeting_all(hands: Seq<Hand>, reach: Seq<i32>, hand: Hand, n: int)
    requires
        0 <= n <= hands.len(),
        is_hand(hand),
        all_hands(hands),
    ensures
        sum_all(meeting_term(hand, hands, reach), n) == sum_all(reach_term(reach), n) - sum_all(
            with_term(hands, reach, hand.0),
            n,
        ) - sum_all(with_term(hands, reach, hand.1), n) + sum_all(
            same_term(hands, reach, hand_index(hand)),
            n,
        ),
    decreases n,
{
    if n > 0 {
        lemma_meeting_all(hands, reach, hand, n - 1);
        let other = hands[n - 1];
        assert(is_hand(other));
        lemma_hand_index(other, hand);
        assert(hands_overlap(hand, other) == (hand_uses(other, hand.0) || hand_uses(
            other,
            hand.1,
        )));
        assert((hand_uses(other, hand.0) && hand_uses(other, hand.1)) == (other == hand));
    }
}

proof fn lemma_fold_bounds(hands: Seq<Hand>, reach: Seq<i32>, n: int)
    requires
        0 <= n,
    ensures
        -(n * 0x8000_0000) <= sum_all(reach_term(reach), n) <= n * 0x8000_0000,
        forall|c: int|
            0 <= c < 52 ==> -(n * 0x8000_0000) <= #[trigger] sum_all(
                with_term(hands, reach, c as Card),
                n,
            ) <= n * 0x8000_0000,
        forall|x: int|
            0 <= x < NUM_HANDS ==> -(n * 0x8000_0000) <= #[trigger] sum_all(
                same_term(hands, reach, x),
                n,
            ) <= n * 0x8000_0000,
{
    lemma_sum_bound(reach_term(reach), n, 0x8000_0000);
    assert forall|c: int| 0 <= c < 52 implies -(n * 0x8000_0000) <= #[trigger] sum_all(
        with_term(hands, reach, c as Card),
        n,
    ) <= n * 0x8000_0000 by {
        lemma_sum_bound(with_term(hands, reach, c as Card), n, 0x8000_0000);
    }
    assert forall|x: int| 0 <= x < NUM_HANDS implies -(n * 0x8000_0000) <= #[trigger] sum_all(
        same_term(hands, reach, x),
        n,
    ) <= n * 0x8000_0000 by {
        lemma_sum_bound(same_term(hands, reach, x), n, 0x8000_0000);
    }
}

/// The values of a player's hands when the opponent has folded.
///
/// The value of a hand is `amount` times the reach of the opponent's hands
/// that share no card with it. The hands of the player who folded have the
/// values that come out with the amount taken negative. The opponent's hands
/// are gone through once, whatever the number of the player's hands.
pub fn evaluate_fold(amount: i64, hands: &Vec<Hand>, their_hands: &Vec<Hand>, their_reach: &Vec<i32>) -> (values:
    Vec<i128>)
    requires
        all_hands(hands@),
        all_hands(their_hands@),
        their_hands@.len() <= 0x1000_0000,
        their_reach@.len() == their_hands@.len(),
    ensures
        values@.len() == hands@.len(),
        forall|i: int|
            0 <= i < values@.len() ==> #[trigger] values@[i] == amount * fold_sum(
                hands@[i],
                their_hands@,
                their_reach@,
            ),
{
    let ghost theirs = their_hands@;
    let ghost reach = their_reach@;
    let m = their_hands.len();
    let mut total: i64 = 0;
    let mut with: [i64; 52] = [0; 52];
    let mut same: Vec<i64> = Vec::new();
    let mut x: usize = 0;
    while x < NUM_HANDS
        invariant
            x <= NUM_HANDS,
            same@.len() == x,
            forall|k: int| 0 <= k < x ==> #[trigger] same@[k] == 0,
        decreases NUM_HANDS - x,
    {
        same.push(0);
        x += 1;
    }
    let mut p: usize = 0;
    while p < m
        invariant
            p <= m,
            m == theirs.len(),
            m <= 0x1000_0000,
            theirs == their_hands@,
            reach == their_reach@,
            reach.len() == theirs.len(),
            all_hands(theirs),
            same@.len() == NUM_HANDS,
            total == sum_all(reach_term(reach), p as int),
            forall|c: int|
                0 <= c < 52 ==> #[trigger] with@[c] == sum_all(
                    with_term(theirs, reach, c as Card),
                    p as int,
                ),
            forall|x: int|
                0 <= x < NUM_HANDS ==> #[trigger] same@[x] == sum_all(
                    same_term(theirs, reach, x),
                    p as int,
                ),
        decreases m - p,
    {
        let hand = their_hands[p];
        let r = their_reach[p] as i64;
        assert(is_hand(theirs[p as int]));
        let index = hand_to_index(hand.0, hand.1);
        proof {
            lemma_fold_bounds(theirs, reach, p as int);
            lemma_fold_bounds(theirs, reach, p + 1);
        }
        let ghost with_before = with@;
        let ghost same_before = same@;
        total = total + r;
        with[hand.0 as usize] = with[hand.0 as usize] + r;
        with[hand.1 as usize] = with[hand.1 as usize] + r;
        same[index] = same[index] + r;
        proof {
            assert forall|c: int| 0 <= c < 52 implies #[trigger] with@[c] == sum_all(
                with_term(theirs, reach, c as Card),
                p + 1,
            ) by {
                assert(with_before[c] == sum_all(with_term(theirs, reach, c as Card), p as int));
            }
            assert forall|x: int| 0 <= x < NUM_HANDS implies #[trigger] same@[x] == sum_all(
                same_term(theirs, reach, x),
                p + 1,
            ) by {
                assert(same_before[x] == sum_all(same_term(theirs, reach, x), p as int));
            }
        }
        p += 1;
    }
    let n = hands.len();
    let mut values: Vec<i128> = Vec::new();
    let mut i: usize = 0;
    while i < n
        invariant
            i <= n,
            n == hands@.len(),
            m == theirs.len(),
            m <= 0x1000_0000,
            theirs == their_hands@,
            reach == their_reach@,
            all_hands(hands@),
            all_hands(theirs),
            same@.len() == NUM_HANDS,
            total == sum_all(reach_term(reach), m as int),
            forall|c: int|
                0 <= c < 52 ==> #[trigger] with@[c] == sum_all(
                    with_term(theirs, reach, c as Card),
                    m as int,
                ),
            forall|x: int|
                0 <= x < NUM_HANDS ==> #[trigger] same@[x] == sum_all(
                    same_term(theirs, reach, x),
                    m as int,
                ),
            values@.len() == i,
            forall|k: int|
                0 <= k < i ==> #[trigger] values@[k] == amount * fold_sum(hands@[k], theirs, reach),
        decreases n - i,
    {
        let hand = hands[i];
        assert(is_hand(hands@[i as int]));
        let index = hand_to_index(hand.0, hand.1);
        proof {
            lemma_fold_bounds(theirs, reach, m as int);
            lemma_meeting_all(theirs, reach, hand, m as int);
        }
        let sum: i64 = total - with[hand.0 as usize] - with[hand.1 as usize] + same[index];
        values.push(product(amount, sum));
        i += 1;
    }
    values
}

/// A showdown gives to one player what it takes from the other: whatever the
/// hands, their strengths and the reach of the two players, the values of the
/// first player's hands weighted by their reach and those of the second
/// player's hands weighted by theirs add up to zero.
pub proof fn lemma_showdown_zero_sum(
    amount: int,
    hands_oop: Seq<Hand>,
    strengths_oop: Seq<Strength>,
    reach_oop: Seq<i32>,
    hands_ip: Seq<Hand>,
    strengths_ip: Seq<Strength>,
    reach_ip: Seq<i32>,
)
    ensures
        sum_all(
            |i: int|
                reach_oop[i] * (amount * showdown_sum(
                    hands_oop[i],
                    strengths_oop[i],
                    hands_ip,
                    strengths_ip,
                    reach_ip,
                )),
            hands_oop.len() as int,
        ) + sum_all(
            |j: int|
                reach_ip[j] * (amount * showdown_sum(
                    hands_ip[j],
                    strengths_ip[j],
                    hands_oop,
                    strengths_oop,
                    reach_oop,
                )),
            hands_ip.len() as int,
        ) == 0,
{
    let n = hands_oop.len() as int;
    let m = hands_ip.len() as int;
    // what the first player's hand `i` takes from the second player's hand `j`
    let take = |i: int, j: int|
        reach_oop[i] * beats_term(
            hands_oop[i],
            strengths_oop[i],
            hands_ip,
            strengths_ip,
            reach_ip,
        )(j);
    let rows = |i: int|
        reach_oop[i] * showdown_sum(hands_oop[i], strengths_oop[i], hands_ip, strengths_ip, reach_ip);
    let columns = |j: int| sum_all(|i: int| take(i, j), n);
    assert forall|i: int| 0 <= i < n implies #[trigger] rows(i) == sum_all(
        |j: int| take(i, j),
        m,
    ) by {
        lemma_sum_scaled(
            beats_term(hands_oop[i], strengths_oop[i], hands_ip, strengths_ip, reach_ip),
            |j: int| take(i, j),
            reach_oop[i] as int,
            m,
        );
    }
    lemma_sum_exchange(take, rows, columns, n, m);
    // the second player's hand `j` gives what the first player's hands take
    let given = |j: int|
        reach_ip[j] * showdown_sum(hands_ip[j], strengths_ip[j], hands_oop, strengths_oop, reach_oop);
    assert forall|j: int| 0 <= j < m implies #[trigger] given(j) == -1 * columns(j) by {
        let back = beats_term(hands_ip[j], strengths_ip[j], hands_oop, strengths_oop, reach_oop);
        let scaled = |i: int| reach_ip[j] * back(i);
        lemma_sum_scaled(back, scaled, reach_ip[j] as int, n);
        assert forall|i: int| 0 <= i < n implies #[trigger] scaled(i) == -1 * (|i: int|
            take(i, j))(i) by {
            let a = reach_oop[i] as int;
            let b = reach_ip[j] as int;
            assert(b * a == a * b && b * (-a) == -(a * b) && a * (-b) == -(a * b) && b * 0 == 0 && a
                * 0 == 0) by (nonlinear_arith);
        }
        lemma_sum_scaled(|i: int| take(i, j), scaled, -1, n);
    }
    lemma_sum_scaled(columns, given, -1, m);
    // the amount at stake is a factor of both
    let first = |i: int|
        reach_oop[i] * (amount * showdown_sum(
            hands_oop[i],
            strengths_oop[i],
            hands_ip,
            strengths_ip,
            reach_ip,
        ));
    let second = |j: int|
        reach_ip[j] * (amount * showdown_sum(
            hands_ip[j],
            strengths_ip[j],
            hands_oop,
            strengths_oop,
            reach_oop,
        ));
    assert forall|i: int| 0 <= i < n implies #[trigger] first(i) == amount * rows(i) by {
        let r = reach_oop[i] as int;
        let v = showdown_sum(hands_oop[i], strengths_oop[i], hands_ip, strengths_ip, reach_ip);
        assert(r * (amount * v) == amount * (r * v)) by (nonlinear_arith);
    }
    assert forall|j: int| 0 <= j < m implies #[trigger] second(j) == amount * given(j) by {
        let r = reach_ip[j] as int;
        let v = showdown_sum(hands_ip[j], strengths_ip[j], hands_oop, strengths_oop, reach_oop);
        assert(r * (amount * v) == amount * (r * v)) by (nonlinear_arith);
    }
    lemma_sum_scaled(rows, first, amount, n);
    lemma_sum_scaled(given, second, amount, m);
    let total = sum_all(rows, n);
    assert(amount * total + amount * (-1 * total) == 0) by (nonlinear_arith);
}

/// A fold gives to the player who stays what it takes from the player who
/// folds: with the values of the one for the amount at stake and those of the
/// other for the amount taken negative, the values of the two players' hands
/// weighted by their reach add up to zero.
pub proof fn lemma_fold_zero_sum(
    amount: int,
    hands_stay: Seq<Hand>,
    reach_stay: Seq<i32>,
    hands_fold: Seq<Hand>,
    reach_fold: Seq<i32>,
)
    ensures
        sum_all(
            |i: int| reach_stay[i] * (amount * fold_sum(hands_stay[i], hands_fold, reach_fold)),
            hands_stay.len() as int,
        ) + sum_all(
            |j: int| reach_fold[j] * (-amount * fold_sum(hands_fold[j], hands_stay, reach_stay)),
            hands_fold.len() as int,
        ) == 0,
{
    let n = hands_stay.len() as int;
    let m = hands_fold.len() as int;
    let take = |i: int, j: int| reach_stay[i] * meeting_term(hands_stay[i], hands_fold, reach_fold)(j);
    let rows = |i: int| reach_stay[i] * fold_sum(hands_stay[i], hands_fold, reach_fold);
    let columns = |j: int| sum_all(|i: int| take(i, j), n);
    assert forall|i: int| 0 <= i < n implies #[trigger] rows(i) == sum_all(
        |j: int| take(i, j),
        m,
    ) by {
        lemma_sum_scaled(
            meeting_term(hands_stay[i], hands_fold, reach_fold),
            |j: int| take(i, j),
            reach_stay[i] as int,
            m,
        );
    }
    lemma_sum_exchange(take, rows, columns, n, m);
    let given = |j: int| reach_fold[j] * fold_sum(hands_fold[j], hands_stay, reach_stay);
    assert forall|j: int| 0 <= j < m implies #[trigger] given(j) == 1 * columns(j) by {
        let back = meeting_term(hands_fold[j], hands_stay, reach_stay);
        let scaled = |i: int| reach_fold[j] * back(i);
        lemma_sum_scaled(back, scaled, reach_fold[j] as int, n);
        assert forall|i: int| 0 <= i < n implies #[trigger] scaled(i) == 1 * (|i: int|
            take(i, j))(i) by {
            let a = reach_stay[i] as int;
            let b = reach_fold[j] as int;
            assert(b * a == a * b && b * 0 == 0 && a * 0 == 0) by (nonlinear_arith);
        }
        lemma_sum_scaled(|i: int| take(i, j), scaled, 1, n);
    }
    lemma_sum_scaled(columns, given, 1, m);
    let first = |i: int| reach_stay[i] * (amount * fold_sum(hands_stay[i], hands_fold, reach_fold));
    let second = |j: int|
        reach_fold[j] * (-amount * fold_sum(hands_fold[j], hands_stay, reach_stay));
    assert forall|i: int| 0 <= i < n implies #[trigger] first(i) == amount * rows(i) by {
        let r = reach_stay[i] as int;
        let v = fold_sum(hands_stay[i], hands_fold, reach_fold);
        assert(r * (amount * v) == amount * (r * v)) by (nonlinear_arith);
    }
    assert forall|j: int| 0 <= j < m implies #[trigger] second(j) == -amount * given(j) by {
        let r = reach_fold[j] as int;
        let v = fold_sum(hands_fold[j], hands_stay, reach_stay);
        assert(r * (-amount * v) == -amount * (r * v)) by (nonlinear_arith);
    }
    lemma_sum_scaled(rows, first, amount, n);
    lemma_sum_scaled(given, second, -amount, m);
    let total = sum_all(rows, n);
    assert(amount * total + -amount * (1 * total) == 0) by (nonlinear_arith);
}

} // verus!
