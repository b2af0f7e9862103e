//! Cards, boards and their textual form.
//!
//! A card is an integer in `[0, 52)`: four times its rank plus its suit. Ranks
//! run from `0` (deuce) to `12` (ace), suits from `0` to `3` in the order
//! clubs, diamonds, hearts, spades.

use vstd::prelude::*;
use vstd::string::*;
use crate::error::Error;

verus! {

/// A playing card: `4 * rank + suit`.
pub type Card = u8;

/// Sentinel for a street whose card has not been dealt.
pub const NOT_DEALT: Card = 255;

/// Number of cards in the deck.
pub const DECK_SIZE: u8 = 52;

/// The street a board is on.
#[derive(Clone, Copy, Debug, PartialEq, Eq, Structural)]
pub enum BoardState {
    Flop,
    Turn,
    River,
}

/// Whether `card` denotes a card of the deck.
pub open spec fn is_card(card: Card) -> bool {
    card < DECK_SIZE
}

/// The rank of a card, `0` for a deuce up to `12` for an ace.
pub open spec fn rank_of(card: Card) -> int {
    card as int / 4
}

/// The suit of a card: `0` clubs, `1` diamonds, `2` hearts, `3` spades.
pub open spec fn suit_of(card: Card) -> int {
    card as int % 4
}

/// The rank that a rank character stands for. Letters are accepted in either
/// case.
pub open spec fn rank_of_char(c: char) -> Option<u8> {
    if c == 'A' || c == 'a' {
        Some(12u8)
    } else if c == 'K' || c == 'k' {
        Some(11u8)
    } else if c == 'Q' || c == 'q' {
        Some(10u8)
    } else if c == 'J' || c == 'j' {
        Some(9u8)
    } else if c == 'T' || c == 't' {
        Some(8u8)
    } else if '2' as u32 <= c as u32 <= '9' as u32 {
        Some((c as u32 - '2' as u32) as u8)
    } else {
        None
    }
}

/// The suit that a suit character stands for.
pub open spec fn suit_of_char(c: char) -> Option<u8> {
    if c == 'c' {
        Some(0u8)
    } else if c == 'd' {
        Some(1u8)
    } else if c == 'h' {
        Some(2u8)
    } else if c == 's' {
        Some(3u8)
    } else {
        None
    }
}

/// The card written by a rank character followed by a suit character.
pub open spec fn card_of_chars(rank: char, suit: char) -> Option<Card> {
    match (rank_of_char(rank), suit_of_char(suit)) {
        (Some(r), Some(s)) => Some((4 * r + s) as Card),
        _ => None,
    }
}

/// The card that a text of exactly two characters denotes.
pub open spec fn parse_card(text: Seq<char>) -> Option<Card> {
    if text.len() == 2 {
        card_of_chars(text[0], text[1])
    } else {
        None
    }
}

/// The three cards, in the order written, that a text of exactly six
/// characters denotes.
pub open spec fn parse_three_cards(text: Seq<char>) -> Option<(Card, Card, Card)> {
    if text.len() == 6 {
        match (
            card_of_chars(text[0], text[1]),
            card_of_chars(text[2], text[3]),
            card_of_chars(text[4], text[5]),
        ) {
            (Some(a), Some(b), Some(c)) => Some((a, b, c)),
            _ => None,
        }
    } else {
        None
    }
}

/// Whether every character of a text is white space.
pub open spec fn is_blank(text: Seq<char>) -> bool {
    forall|i: int| 0 <= i < text.len() ==> is_white_space(#[trigger] text[i])
}

/// The characters with the Unicode property `White_Space`.
pub open spec fn is_white_space(c: char) -> bool {
    let u = c as u32;
    ||| 0x09 <= u <= 0x0d
    ||| u == 0x20
    ||| u == 0x85
    ||| u == 0xa0
    ||| u == 0x1680
    ||| 0x2000 <= u <= 0x200a
    ||| u == 0x2028
    ||| u == 0x2029
    ||| u == 0x202f
    ||| u == 0x205f
    ||| u == 0x3000
}

fn rank_from_char(c: char) -> (r: Option<u8>)
    ensures
        r == rank_of_char(c),
        r matches Some(v) ==> v < 13,
{
    let u: u32 = c as u32;
    if c == 'A' || c == 'a' {
        Some(12)
    } else if c == 'K' || c == 'k' {
        Some(11)
    } else if c == 'Q' || c == 'q' {
        Some(10)
    } else if c == 'J' || c == 'j' {
        Some(9)
    } else if c == 'T' || c == 't' {
        Some(8)
    } else if '2' as u32 <= u && u <= '9' as u32 {
        Some((u - '2' as u32) as u8)
    } else {
        None
    }
}

fn suit_from_char(c: char) -> (r: Option<u8>)
    ensures
        r == suit_of_char(c),
        r matches Some(v) ==> v < 4,
{
    if c == 'c' {
        Some(0)
    } else if c == 'd' {
        Some(1)
    } else if c == 'h' {
        Some(2)
    } else if c == 's' {
        Some(3)
    } else {
        None
    }
}

/// Reads one card from a rank character and a suit character.
pub fn card_from_chars(rank: char, suit: char) -> (r: Option<Card>)
    ensures
        r == card_of_chars(rank, suit),
        r matches Some(c) ==> is_card(c),
{
    match (rank_from_char(rank), suit_from_char(suit)) {
        (Some(r), Some(s)) => Some(4 * r + s),
        _ => None,
    }
}

/// Reads a card from its two-character text, such as `"Qc"`.
///
/// Fails with [`Error::MalformedCard`] exactly when the text is not a rank
/// character followed by a suit character.
pub fn card_from_str(s: &str) -> (r: Result<Card, Error>)
    ensures
        match parse_card(s@) {
            Some(c) => r == Ok::<Card, Error>(c) && is_card(c),
            None => r == Err::<Card, Error>(Error::MalformedCard),
        },
{
    if s.unicode_len() != 2 {
        return Err(Error::MalformedCard);
    }
    match card_from_chars(s.get_char(0), s.get_char(1)) {
        Some(c) => Ok(c),
        None => Err(Error::MalformedCard),
    }
}

/// The three cards `a`, `b`, `c` in ascending order.
pub open spec fn sorted_triple(a: Card, b: Card, c: Card) -> Seq<Card> {
    let lo = if a <= b && a <= c { a } else if b <= c { b } else { c };
    let hi = if a >= b && a >= c { a } else if b >= c { b } else { c };
    let mid = (a + b + c - lo - hi) as Card;
    seq![lo, mid, hi]
}

/// Reads a flop from its six-character text, such as `"Td9d6h"`.
///
/// Fails with [`Error::MalformedCard`] exactly when the text is not three
/// cards written one after another, and with [`Error::DuplicateCard`] exactly
/// when it is but two of them are the same card. Otherwise the three cards are
/// returned in ascending order.
pub fn flop_from_str(s: &str) -> (r: Result<[Card; 3], Error>)
    ensures
        match parse_three_cards(s@) {
            None => r == Err::<[Card; 3], Error>(Error::MalformedCard),
            Some((a, b, c)) => if a == b || b == c || a == c {
                r == Err::<[Card; 3], Error>(Error::DuplicateCard)
            } else {
                &&& r is Ok
                &&& r->Ok_0@ == sorted_triple(a, b, c)
                &&& forall|i: int| 0 <= i < 3 ==> is_card(#[trigger] r->Ok_0@[i])
            },
        },
{
    if s.unicode_len() != 6 {
        return Err(Error::MalformedCard);
    }
    let first = card_from_chars(s.get_char(0), s.get_char(1));
    let second = card_from_chars(s.get_char(2), s.get_char(3));
    let third = card_from_chars(s.get_char(4), s.get_char(5));
    match (first, second, third) {
        (Some(a), Some(b), Some(c)) => {
            if a == b || b == c || a == c {
                return Err(Error::DuplicateCard);
            }
            let (x, y) = if a < b { (a, b) } else { (b, a) };
            let flop = if c < x {
                [c, x, y]
            } else if c < y {
                [x, c, y]
            } else {
                [x, y, c]
            };
            assert(flop@ =~= sorted_triple(a, b, c));
            Ok(flop)
        },
        _ => Err(Error::MalformedCard),
    }
}

fn char_is_white_space(c: char) -> (b: bool)
    ensures
        b == is_white_space(c),
{
    let u: u32 = c as u32;
    (0x09 <= u && u <= 0x0d) || u == 0x20 || u == 0x85 || u == 0xa0 || u == 0x1680 || (0x2000 <= u
        && u <= 0x200a) || u == 0x2028 || u == 0x2029 || u == 0x202f || u == 0x205f || u == 0x3000
}

/// Whether a text consists of white space only (the empty text does).
pub fn text_is_blank(s: &str) -> (b: bool)
    ensures
        b == is_blank(s@),
{
    let n = s.unicode_len();
    let mut i: usize = 0;
    while i < n
        invariant
            n == s@.len(),
            i <= n,
            forall|j: int| 0 <= j < i ==> is_white_space(#[trigger] s@[j]),
        decreases n - i,
    {
        if !char_is_white_space(s.get_char(i)) {
            return false;
        }
        i += 1;
    }
    true
}

/// Reads the card of a street that may not have been dealt yet.
///
/// A missing text and a text of white space only stand for "not dealt" and
/// give [`NOT_DEALT`]. Any other text must be a card, read as by
/// [`card_from_str`] (surrounding white space is not stripped).
pub fn street_card_from_str(text: Option<&str>) -> (r: Result<Card, Error>)
    ensures
        match text {
            None => r == Ok::<Card, Error>(NOT_DEALT),
            Some(s) => if is_blank(s@) {
                r == Ok::<Card, Error>(NOT_DEALT)
            } else {
                match parse_card(s@) {
                    Some(c) => r == Ok::<Card, Error>(c) && is_card(c),
                    None => r == Err::<Card, Error>(Error::MalformedCard),
                }
            },
        },
{
    match text {
        None => Ok(NOT_DEALT),
        Some(s) => {
            if text_is_blank(s) {
                Ok(NOT_DEALT)
            } else {
                card_from_str(s)
            }
        },
    }
}

impl BoardState {
    /// Number of board cards on this street.
    pub open spec fn spec_num_cards(self) -> usize {
        match self {
            BoardState::Flop => 3,
            BoardState::Turn => 4,
            BoardState::River => 5,
        }
    }

    /// Number of board cards on this street.
    #[verifier::when_used_as_spec(spec_num_cards)]
    pub fn num_cards(self) -> (n: usize)
        ensures
            n == self.spec_num_cards(),
    {
        match self {
            BoardState::Flop => 3,
            BoardState::Turn => 4,
            BoardState::River => 5,
        }
    }

    /// The street of a board with `n` cards, if there is one.
    pub fn from_num_cards(n: usize) -> (r: Option<BoardState>)
        ensures
            match r {
                Some(state) => state.spec_num_cards() == n,
                None => n < 3 || n > 5,
            },
    {
        if n == 3 {
            Some(BoardState::Flop)
        } else if n == 4 {
            Some(BoardState::Turn)
        } else if n == 5 {
            Some(BoardState::River)
        } else {
            None
        }
    }
}

/// The street named by the latest card that is dealt: the river if there is a
/// river card, else the turn if there is a turn card, else the flop.
pub open spec fn latest_street(turn: Card, river: Card) -> BoardState {
    if river != NOT_DEALT {
        BoardState::River
    } else if turn != NOT_DEALT {
        BoardState::Turn
    } else {
        BoardState::Flop
    }
}

/// The street on which play starts for the given turn and river cards: the
/// street of the latest card that is dealt.
pub fn initial_state_of(turn: Card, river: Card) -> (state: BoardState)
    ensures
        state == latest_street(turn, river),
{
    if river != NOT_DEALT {
        BoardState::River
    } else if turn != NOT_DEALT {
        BoardState::Turn
    } else {
        BoardState::Flop
    }
}

} // verus!
