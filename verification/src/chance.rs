//! Chance nodes: which cards can be dealt, and which deals are alike.
//!
//! Two suits are alike on a board when the board holds the same ranks in both
//! and both players' ranges treat them alike. A card of a suit that is like an
//! earlier suit need not be dealt: the deal of the card of the same rank in the
//! earlier suit stands for it, and counts as many times as it stands for
//! cards. What is dealt in fact are the concrete children of the chance node.

use vstd::prelude::*;
use crate::card::{is_card, Card};
use crate::range::{suit_symmetric, Range};

verus! {

/// A concrete child of a chance node.
#[derive(Clone, Copy, Debug, PartialEq, Eq, Structural)]
pub struct ChanceChild {
    /// The card that is dealt.
    pub card: Card,
    /// The number of cards that this deal stands for, itself included.
    pub multiplicity: u8,
}

/// Whether a board is made of different cards of the deck.
pub open spec fn board_ok(board: Seq<Card>) -> bool {
    &&& forall|i: int| 0 <= i < board.len() ==> is_card(#[trigger] board[i])
    &&& forall|i: int, j: int| 0 <= i < j < board.len() ==> board[i] != board[j]
}

/// Whether a board holds the same ranks in the suits `a` and `b`.
pub open spec fn same_ranks(board: Seq<Card>, a: int, b: int) -> bool {
    forall|r: int|
        0 <= r < 13 ==> board.contains((4 * r + a) as Card) == #[trigger] board.contains(
            (4 * r + b) as Card,
        )
}

/// Whether the suits `a` and `b` are alike: the board holds the same ranks in
/// both, and both ranges weigh every hand as the hand with the two suits
/// exchanged.
pub open spec fn suits_alike(board: Seq<Card>, oop: Seq<u32>, ip: Seq<u32>, a: int, b: int) -> bool {
    &&& same_ranks(board, a, b)
    &&& suit_symmetric(oop, a as u8, b as u8)
    &&& suit_symmetric(ip, a as u8, b as u8)
}

/// The first suit from `from` on that is like the suit `s` and comes before
/// it; `s` itself if there is none.
pub open spec fn first_alike(
    board: Seq<Card>,
    oop: Seq<u32>,
    ip: Seq<u32>,
    s: int,
    from: int,
) -> int
    decreases s - from,
{
    if from >= s {
        s
    } else if suits_alike(board, oop, ip, from, s) {
        from
    } else {
        first_alike(board, oop, ip, s, from + 1)
    }
}

/// The suit that stands for the suit `s`: `s` itself unless an earlier suit is
/// like it, and then the suit that stands for the first such suit.
pub open spec fn suit_class(board: Seq<Card>, oop: Seq<u32>, ip: Seq<u32>, s: int) -> int
    decreases s,
{
    if s <= 0 {
        0
    } else {
        let f = first_alike(board, oop, ip, s, 0);
        if 0 <= f < s {
            suit_class(board, oop, ip, f)
        } else {
            s
        }
    }
}

/// Whether `classes` assigns to each suit a suit that can stand for it on the
/// board: an earlier suit or the suit itself, one that stands for itself, and
/// one in which the board holds the same ranks.
pub open spec fn classes_ok(board: Seq<Card>, classes: Seq<u8>) -> bool {
    &&& classes.len() == 4
    &&& forall|s: int|
        0 <= s < 4 ==> {
            &&& (#[trigger] classes[s]) <= s
            &&& classes[classes[s] as int] == classes[s]
            &&& same_ranks(board, classes[s] as int, s)
        }
}

/// Whether the card `card` is dealt in fact: it is not on the board, and its
/// suit stands for itself.
pub open spec fn is_concrete(board: Seq<Card>, classes: Seq<u8>, card: int) -> bool {
    !board.contains(card as Card) && classes[card % 4] == card % 4
}

/// Whether the deal of `card` stands for the deal of the card of the same rank
/// in the suit `suit`.
pub open spec fn stands_for(board: Seq<Card>, classes: Seq<u8>, card: int, suit: int) -> bool {
    classes[suit] == card % 4 && !board.contains((card - card % 4 + suit) as Card)
}

/// `1` if the deal of `card` stands for the suit `suit`, else `0`.
pub open spec fn stands_count(board: Seq<Card>, classes: Seq<u8>, card: int, suit: int) -> int {
    if stands_for(board, classes, card, suit) {
        1
    } else {
        0
    }
}

/// The number of cards that the deal of `card` stands for.
pub open spec fn multiplicity(board: Seq<Card>, classes: Seq<u8>, card: int) -> int {
    stands_count(board, classes, card, 0) + stands_count(board, classes, card, 1) + stands_count(
        board,
        classes,
        card,
        2,
    ) + stands_count(board, classes, card, 3)
}

/// The concrete children among the cards below `n`, in the order of the cards.
pub open spec fn children_below(board: Seq<Card>, classes: Seq<u8>, n: int) -> Seq<ChanceChild>
    decreases n,
{
    if n <= 0 {
        Seq::empty()
    } else {
        let rest = children_below(board, classes, n - 1);
        if is_concrete(board, classes, n - 1) {
            rest.push(
                ChanceChild {
                    card: (n - 1) as Card,
                    multiplicity: multiplicity(board, classes, n - 1) as u8,
                },
            )
        } else {
            rest
        }
    }
}

/// The concrete children of the chance node that deals onto `board`.
pub open spec fn chance_children_of(board: Seq<Card>, classes: Seq<u8>) -> Seq<ChanceChild> {
    children_below(board, classes, 52)
}

/// The sum of the multiplicities of a list of children.
pub open spec fn total_multiplicity(children: Seq<ChanceChild>) -> int
    decreases children.len(),
{
    if children.len() == 0 {
        0
    } else {
        total_multiplicity(children.drop_last()) + children.last().multiplicity
    }
}

/// The number of cards below `n` that are not on the board.
pub open spec fn undealt_below(board: Seq<Card>, n: int) -> int
    decreases n,
{
    if n <= 0 {
        0
    } else {
        undealt_below(board, n - 1) + if board.contains((n - 1) as Card) {
            0int
        } else {
            1int
        }
    }
}

/// The cards below `n` that are not on the board, in increasing order.
pub open spec fn undealt_cards_below(board: Seq<Card>, n: int) -> Seq<Card>
    decreases n,
{
    if n <= 0 {
        Seq::empty()
    } else {
        let rest = undealt_cards_below(board, n - 1);
        if board.contains((n - 1) as Card) {
            rest
        } else {
            rest.push((n - 1) as Card)
        }
    }
}

/// The cards that can be dealt onto a board, in increasing order.
pub open spec fn undealt_cards(board: Seq<Card>) -> Seq<Card> {
    undealt_cards_below(board, 52)
}

proof fn lemma_first_alike(board: Seq<Card>, oop: Seq<u32>, ip: Seq<u32>, s: int, from: int)
    requires
        0 <= from <= s,
    ensures
        from <= first_alike(board, oop, ip, s, from) <= s,
        first_alike(board, oop, ip, s, from) < s ==> suits_alike(
            board,
            oop,
            ip,
            first_alike(board, oop, ip, s, from),
            s,
        ),
    decreases s - from,
{
    if from < s && !suits_alike(board, oop, ip, from, s) {
        lemma_first_alike(board, oop, ip, s, from + 1);
    }
}

proof fn lemma_same_ranks_chain(board: Seq<Card>, a: int, b: int, c: int)
    requires
        same_ranks(board, a, b),
        same_ranks(board, b, c),
    ensures
        same_ranks(board, a, c),
{
    assert forall|r: int| 0 <= r < 13 implies board.contains((4 * r + a) as Card)
        == #[trigger] board.contains((4 * r + c) as Card) by {
        assert(board.contains((4 * r + b) as Card) == board.contains((4 * r + c) as Card));
    }
}

/// The suit that stands for a suit is an earlier suit or the suit itself,
/// stands for itself, and has the same ranks on the board.
pub proof fn lemma_suit_class(board: Seq<Card>, oop: Seq<u32>, ip: Seq<u32>, s: int)
    requires
        0 <= s < 4,
    ensures
        0 <= suit_class(board, oop, ip, s) <= s,
        suit_class(board, oop, ip, suit_class(board, oop, ip, s)) == suit_class(board, oop, ip, s),
        same_ranks(board, suit_class(board, oop, ip, s), s),
    decreases s,
{
    if s > 0 {
        let f = first_alike(board, oop, ip, s, 0);
        lemma_first_alike(board, oop, ip, s, 0);
        if f < s {
            lemma_suit_class(board, oop, ip, f);
            lemma_same_ranks_chain(board, suit_class(board, oop, ip, f), f, s);
        }
    }
}

proof fn lemma_total_push(children: Seq<ChanceChild>, child: ChanceChild)
    ensures
        total_multiplicity(children.push(child)) == total_multiplicity(children)
            + child.multiplicity,
{
    assert(children.push(child).drop_last() =~= children);
}

/// `1` if the card `card` is not on the board, else `0`.
spec fn undealt_count(board: Seq<Card>, card: int) -> int {
    if board.contains(card as Card) {
        0
    } else {
        1
    }
}

/// The multiplicity of the card `card` if it is dealt in fact, else `0`.
spec fn concrete_weight(board: Seq<Card>, classes: Seq<u8>, card: int) -> int {
    if is_concrete(board, classes, card) {
        multiplicity(board, classes, card)
    } else {
        0
    }
}

/// Within one rank, the deals made in fact stand for each card that is left,
/// once.
proof fn lemma_rank_block(board: Seq<Card>, classes: Seq<u8>, r: int)
    requires
        classes_ok(board, classes),
        0 <= r < 13,
    ensures
        concrete_weight(board, classes, 4 * r) + concrete_weight(board, classes, 4 * r + 1)
            + concrete_weight(board, classes, 4 * r + 2) + concrete_weight(
            board,
            classes,
            4 * r + 3,
        ) == undealt_count(board, 4 * r) + undealt_count(board, 4 * r + 1) + undealt_count(
            board,
            4 * r + 2,
        ) + undealt_count(board, 4 * r + 3),
{
    let b = 4 * r;
    assert((b + 0) % 4 == 0 && (b + 1) % 4 == 1 && (b + 2) % 4 == 2 && (b + 3) % 4 == 3);
    let c0 = classes[0] as int;
    let c1 = classes[1] as int;
    let c2 = classes[2] as int;
    let c3 = classes[3] as int;
    assert(classes[c0] == c0 && classes[c1] == c1 && classes[c2] == c2 && classes[c3] == c3);
    assert(board.contains((4 * r + c0) as Card) == board.contains((4 * r + 0) as Card));
    assert(board.contains((4 * r + c1) as Card) == board.contains((4 * r + 1) as Card));
    assert(board.contains((4 * r + c2) as Card) == board.contains((4 * r + 2) as Card));
    assert(board.contains((4 * r + c3) as Card) == board.contains((4 * r + 3) as Card));
    let d0 = board.contains((b + 0) as Card);
    let d1 = board.contains((b + 1) as Card);
    let d2 = board.contains((b + 2) as Card);
    let d3 = board.contains((b + 3) as Card);
}

proof fn lemma_children_step(board: Seq<Card>, classes: Seq<u8>, n: int)
    requires
        classes_ok(board, classes),
        0 <= n < 52,
    ensures
        total_multiplicity(children_below(board, classes, n + 1)) == total_multiplicity(
            children_below(board, classes, n),
        ) + concrete_weight(board, classes, n),
{
    if is_concrete(board, classes, n) {
        let child = ChanceChild {
            card: n as Card,
            multiplicity: multiplicity(board, classes, n) as u8,
        };
        lemma_total_push(children_below(board, classes, n), child);
    }
}

proof fn lemma_children_total(board: Seq<Card>, classes: Seq<u8>, r: int)
    requires
        classes_ok(board, classes),
        0 <= r <= 13,
    ensures
        total_multiplicity(children_below(board, classes, 4 * r)) == undealt_below(board, 4 * r),
    decreases r,
{
    if r > 0 {
        let b = 4 * (r - 1);
        lemma_children_total(board, classes, r - 1);
        lemma_rank_block(board, classes, r - 1);
        lemma_children_step(board, classes, b);
        lemma_children_step(board, classes, b + 1);
        lemma_children_step(board, classes, b + 2);
        lemma_children_step(board, classes, b + 3);
        assert(undealt_below(board, b + 1) == undealt_below(board, b) + undealt_count(board, b));
        assert(undealt_below(board, b + 2) == undealt_below(board, b + 1) + undealt_count(
            board,
            b + 1,
        ));
        assert(undealt_below(board, b + 3) == undealt_below(board, b + 2) + undealt_count(
            board,
            b + 2,
        ));
        assert(undealt_below(board, b + 4) == undealt_below(board, b + 3) + undealt_count(
            board,
            b + 3,
        ));
    }
}

/// The number of cards of a board that lie below `n`.
spec fn board_below(board: Seq<Card>, n: int) -> int
    decreases board.len(),
{
    if board.len() == 0 {
        0
    } else {
        board_below(board.drop_last(), n) + if board.last() < n {
            1int
        } else {
            0int
        }
    }
}

proof fn lemma_board_below_step(board: Seq<Card>, n: int)
    requires
        board_ok(board),
        0 <= n < 52,
    ensures
        board_below(board, n + 1) == board_below(board, n) + 1 - undealt_count(board, n),
    decreases board.len(),
{
    if board.len() > 0 {
        let rest = board.drop_last();
        lemma_board_below_step(rest, n);
        if board.last() == n {
            assert(board[board.len() - 1] == n as Card);
            assert(!rest.contains(n as Card)) by {
                if rest.contains(n as Card) {
                    let k = choose|k: int| 0 <= k < rest.len() && rest[k] == n as Card;
                    assert(board[k] == board[board.len() - 1]);
                }
            }
        } else {
            if board.contains(n as Card) {
                let k = choose|k: int| 0 <= k < board.len() && board[k] == n as Card;
                assert(rest[k] == n as Card);
            }
            if rest.contains(n as Card) {
                let k = choose|k: int| 0 <= k < rest.len() && rest[k] == n as Card;
                assert(board[k] == n as Card);
            }
        }
    }
}

proof fn lemma_board_below_ends(board: Seq<Card>)
    requires
        board_ok(board),
    ensures
        board_below(board, 0) == 0,
        board_below(board, 52) == board.len(),
    decreases board.len(),
{
    if board.len() > 0 {
        lemma_board_below_ends(board.drop_last());
        assert(is_card(board[board.len() - 1]));
    }
}

/// The cards left in the deck are the cards that are not on the board: their
/// number below `n` is `n` less the number of board cards below `n`.
proof fn lemma_undealt_below(board: Seq<Card>, n: int)
    requires
        board_ok(board),
        0 <= n <= 52,
    ensures
        undealt_below(board, n) == n - board_below(board, n),
    decreases n,
{
    if n > 0 {
        lemma_undealt_below(board, n - 1);
        lemma_board_below_step(board, n - 1);
    } else {
        lemma_board_below_ends(board);
    }
}

/// The number of cards that can be dealt onto a board of different cards.
pub proof fn lemma_undealt_count(board: Seq<Card>)
    requires
        board_ok(board),
    ensures
        undealt_below(board, 52) == 52 - board.len(),
        undealt_cards(board).len() == 52 - board.len(),
{
    lemma_undealt_below(board, 52);
    lemma_board_below_ends(board);
    lemma_undealt_cards_below(board, 52);
}

/// The cards that can be dealt are the cards of the deck that are not on the
/// board, each once and in increasing order.
pub proof fn lemma_undealt_cards_below(board: Seq<Card>, n: int)
    requires
        0 <= n <= 52,
    ensures
        undealt_cards_below(board, n).len() == undealt_below(board, n),
        forall|k: int|
            0 <= k < undealt_cards_below(board, n).len() ==> {
                &&& (#[trigger] undealt_cards_below(board, n)[k]) < n
                &&& !board.contains(undealt_cards_below(board, n)[k])
            },
        forall|j: int, k: int|
            0 <= j < k < undealt_cards_below(board, n).len() ==> undealt_cards_below(board, n)[j]
                < undealt_cards_below(board, n)[k],
        forall|c: Card|
            c < n && !board.contains(c) ==> #[trigger] undealt_cards_below(board, n).contains(c),
    decreases n,
{
    if n > 0 {
        lemma_undealt_cards_below(board, n - 1);
        let rest = undealt_cards_below(board, n - 1);
        let all = undealt_cards_below(board, n);
        assert forall|c: Card| c < n && !board.contains(c) implies #[trigger] all.contains(c) by {
            if c < n - 1 {
                assert(rest.contains(c));
                let k = choose|k: int| 0 <= k < rest.len() && rest[k] == c;
                assert(all[k] == c);
            } else {
                assert(all[rest.len() as int] == c);
            }
        }
    }
}

/// At a chance node, what is dealt in fact stands for the whole deck that is
/// left: the multiplicities of the concrete children add up to the number of
/// cards that are not on the board. Each card being dealt with probability one
/// over that number, the probabilities of the concrete children times their
/// multiplicities add up to one.
pub proof fn lemma_chance_children_cover_deck(board: Seq<Card>, classes: Seq<u8>)
    requires
        board_ok(board),
        classes_ok(board, classes),
    ensures
        total_multiplicity(chance_children_of(board, classes)) == 52 - board.len(),
{
    lemma_children_total(board, classes, 13);
    lemma_undealt_count(board);
}

/// Whether a card is on a board.
pub fn on_board(board: &Vec<Card>, card: Card) -> (b: bool)
    ensures
        b == board@.contains(card),
{
    let mut i: usize = 0;
    while i < board.len()
        invariant
            i <= board.len(),
            forall|j: int| 0 <= j < i ==> board@[j] != card,
        decreases board.len() - i,
    {
        if board[i] == card {
            return true;
        }
        i += 1;
    }
    false
}

fn has_same_ranks(board: &Vec<Card>, a: u8, b: u8) -> (same: bool)
    requires
        a < 4,
        b < 4,
    ensures
        same == same_ranks(board@, a as int, b as int),
{
    let mut r: u8 = 0;
    while r < 13
        invariant
            r <= 13,
            a < 4,
            b < 4,
            forall|q: int|
                0 <= q < r ==> board@.contains((4 * q + a) as Card) == #[trigger] board@.contains(
                    (4 * q + b) as Card,
                ),
        decreases 13 - r,
    {
        if on_board(board, 4 * r + a) != on_board(board, 4 * r + b) {
            assert(board@.contains((4 * (r as int) + a) as Card) != board@.contains(
                (4 * (r as int) + b) as Card,
            ));
            return false;
        }
        r += 1;
    }
    true
}

fn are_alike(board: &Vec<Card>, oop: &Range, ip: &Range, a: u8, b: u8) -> (alike: bool)
    requires
        a < 4,
        b < 4,
    ensures
        alike == suits_alike(board@, oop@, ip@, a as int, b as int),
{
    has_same_ranks(board, a, b) && oop.is_suit_symmetric(a, b) && ip.is_suit_symmetric(a, b)
}

/// For each suit, the suit that stands for it on a board with the two ranges.
pub fn suit_isomorphism(board: &Vec<Card>, oop: &Range, ip: &Range) -> (classes: [u8; 4])
    ensures
        forall|s: int|
            0 <= s < 4 ==> #[trigger] classes@[s] == suit_class(board@, oop@, ip@, s),
        classes_ok(board@, classes@),
{
    let mut classes: [u8; 4] = [0, 1, 2, 3];
    let mut s: u8 = 1;
    while s < 4
        invariant
            1 <= s <= 4,
            forall|t: int|
                0 <= t < s ==> #[trigger] classes@[t] == suit_class(board@, oop@, ip@, t),
        decreases 4 - s,
    {
        let mut f: u8 = 0;
        while f < s && !are_alike(board, oop, ip, f, s)
            invariant
                0 <= f <= s < 4,
                first_alike(board@, oop@, ip@, s as int, 0) == first_alike(
                    board@,
                    oop@,
                    ip@,
                    s as int,
                    f as int,
                ),
            decreases s - f,
        {
            f += 1;
        }
        classes[s as usize] = if f < s {
            classes[f as usize]
        } else {
            s
        };
        s += 1;
    }
    proof {
        assert forall|t: int| 0 <= t < 4 implies {
            &&& (#[trigger] classes@[t]) <= t
            &&& classes@[classes@[t] as int] == classes@[t]
            &&& same_ranks(board@, classes@[t] as int, t)
        } by {
            lemma_suit_class(board@, oop@, ip@, t);
        }
    }
    classes
}

/// The concrete children of the chance node that deals onto a board, in the
/// order of their cards.
pub fn chance_children(board: &Vec<Card>, classes: &[u8; 4]) -> (children: Vec<ChanceChild>)
    ensures
        children@ == chance_children_of(board@, classes@),
{
    let mut children: Vec<ChanceChild> = Vec::new();
    let mut card: u8 = 0;
    while card < 52
        invariant
            card <= 52,
            children@ == children_below(board@, classes@, card as int),
        decreases 52 - card,
    {
        let suit = card % 4;
        if !on_board(board, card) && classes[suit as usize] == suit {
            let base = card - suit;
            let mut multiplicity: u8 = 0;
            let mut other: u8 = 0;
            while other < 4
                invariant
                    other <= 4,
                    card < 52,
                    suit == card % 4,
                    base == card - suit,
                    multiplicity <= other,
                    multiplicity == (if other > 0 {
                        stands_count(board@, classes@, card as int, 0)
                    } else {
                        0
                    }) + (if other > 1 {
                        stands_count(board@, classes@, card as int, 1)
                    } else {
                        0
                    }) + (if other > 2 {
                        stands_count(board@, classes@, card as int, 2)
                    } else {
                        0
                    }) + (if other > 3 {
                        stands_count(board@, classes@, card as int, 3)
                    } else {
                        0
                    }),
                decreases 4 - other,
            {
                if classes[other as usize] == suit && !on_board(board, base + other) {
                    multiplicity += 1;
                }
                other += 1;
            }
            children.push(ChanceChild { card, multiplicity });
        }
        card += 1;
    }
    children
}

/// The cards that can be dealt onto a board, in increasing order.
pub fn dealable_cards(board: &Vec<Card>) -> (cards: Vec<Card>)
    ensures
        cards@ == undealt_cards(board@),
{
    let mut cards: Vec<Card> = Vec::new();
    let mut card: u8 = 0;
    while card < 52
        invariant
            card <= 52,
            cards@ == undealt_cards_below(board@, card as int),
        decreases 52 - card,
    {
        if !on_board(board, card) {
            cards.push(card);
        }
        card += 1;
    }
    cards
}

} // verus!
