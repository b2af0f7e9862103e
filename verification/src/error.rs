//! Errors reported when a game is configured or walked.

use vstd::prelude::*;

verus! {

/// The broad kinds of failure.
#[derive(Clone, Copy, Debug, PartialEq, Eq, Structural)]
pub enum ErrorKind {
    /// An input (a card, a board, a range, the number of an action) is
    /// malformed.
    InputParse,
    /// The inputs are well formed one by one but contradict each other.
    ConfigConflict,
}

/// What a rejected input violated.
#[derive(Clone, Copy, Debug, PartialEq, Eq, Structural)]
pub enum Error {
    /// A card or board text does not have the expected shape.
    MalformedCard,
    /// A range does not give a weight to each of the 1326 hands.
    MalformedRange,
    /// A card is outside `[0, 52)` where a card of the deck is required, or a
    /// hand is not two different cards with the higher first.
    InvalidCard,
    /// The same card occurs twice among the board cards.
    DuplicateCard,
    /// The dealt streets do not fit together, or do not fit the street the
    /// tree starts on.
    InconsistentStreet,
    /// The starting pot or the effective stack is not usable.
    InvalidStack,
    /// A bet-size setting is out of its range.
    InvalidBetSize,
    /// A player is left without any hand once the board cards are removed.
    NoCombination,
    /// An action was asked for that the current node does not offer.
    InvalidAction,
}

impl Error {
    /// The kind of failure an error belongs to.
    pub open spec fn spec_kind(self) -> ErrorKind {
        match self {
            Error::MalformedCard | Error::MalformedRange | Error::InvalidAction => {
                ErrorKind::InputParse
            },
            _ => ErrorKind::ConfigConflict,
        }
    }

    /// The kind of failure this error belongs to.
    #[verifier::when_used_as_spec(spec_kind)]
    pub fn kind(self) -> (k: ErrorKind)
        ensures
            k == self.spec_kind(),
    {
        match self {
            Error::MalformedCard | Error::MalformedRange | Error::InvalidAction => {
                ErrorKind::InputParse
            },
            _ => ErrorKind::ConfigConflict,
        }
    }
}

} // verus!
