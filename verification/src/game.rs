//! The game: an action tree played with cards.
//!
//! A game joins the action tree with the board and the two ranges, and keeps a
//! cursor that walks the tree: at a decision node an action is played, at a
//! chance node a card is dealt. Walking changes the cursor only.

use vstd::prelude::*;
use crate::action_tree::{
    cards_dealt, initial_state, lemma_cards_dealt_step, node_ok, Action, ActionTree,
    ActionTreeNode, NodeKind,
};
use crate::card::{initial_state_of, is_card, latest_street, BoardState, Card, NOT_DEALT};
use crate::chance::{
    board_ok, chance_children, chance_children_of, dealable_cards, lemma_undealt_cards_below,
    lemma_undealt_count, suit_class, suit_isomorphism, undealt_cards, ChanceChild,
};
use crate::error::Error;
use crate::hand::{is_hand_list, Hand, NUM_HANDS};
use crate::range::{lemma_hands_below, swap_hand, swapped_positions, Range};

verus! {

/// What [`PostFlopGame::current_player`] answers at a chance node.
pub const PLAYER_CHANCE: u8 = 2;

/// What [`PostFlopGame::current_player`] answers at a terminal node.
pub const PLAYER_NONE: u8 = 3;

/// The cards of a game: the two ranges and the board.
#[derive(Debug)]
pub struct CardConfig {
    /// The ranges of the first and of the second player.
    pub range: [Range; 2],
    /// The flop.
    pub flop: [Card; 3],
    /// The turn card, or [`NOT_DEALT`].
    pub turn: Card,
    /// The river card, or [`NOT_DEALT`].
    pub river: Card,
}

/// A game, with a cursor into its tree.
#[derive(Debug)]
pub struct PostFlopGame {
    /// The action tree.
    pub tree: ActionTree,
    /// The cards the game was set up with.
    pub card_config: CardConfig,
    /// For each player, the hands of the range that hold no card of the board
    /// the game was set up with.
    pub private_cards: [Vec<Hand>; 2],
    /// The position in the tree's list of nodes of the node the cursor is at.
    pub node: usize,
    /// The turn card at the cursor, or [`NOT_DEALT`].
    pub turn: Card,
    /// The river card at the cursor, or [`NOT_DEALT`].
    pub river: Card,
    /// What was played from the root to the cursor: at a decision node the
    /// number of the action, at a chance node the number of the card among
    /// those that could be dealt.
    pub history: Vec<usize>,
}

/// The board made of a flop and of the turn and river cards that are dealt.
pub open spec fn board_of(flop: Seq<Card>, turn: Card, river: Card) -> Seq<Card> {
    flop + (if turn != NOT_DEALT {
        seq![turn]
    } else {
        Seq::empty()
    }) + (if river != NOT_DEALT {
        seq![river]
    } else {
        Seq::empty()
    })
}

impl CardConfig {
    /// The board the game is set up with.
    pub open spec fn board(&self) -> Seq<Card> {
        board_of(self.flop@, self.turn, self.river)
    }

    /// What is wrong with the cards, if anything, for a tree that starts on
    /// the street `street`. The flop is looked at first, then the turn, then
    /// the river, each for being a card and for not repeating an earlier one;
    /// then whether the streets fit together and fit the tree; then whether
    /// each player is left with a hand.
    pub open spec fn fault(&self, street: BoardState) -> Option<Error> {
        let flop = self.flop@;
        let turn = self.turn;
        let river = self.river;
        if !is_card(flop[0]) || !is_card(flop[1]) || !is_card(flop[2]) {
            Some(Error::InvalidCard)
        } else if flop[0] == flop[1] || flop[0] == flop[2] || flop[1] == flop[2] {
            Some(Error::DuplicateCard)
        } else if turn != NOT_DEALT && !is_card(turn) {
            Some(Error::InvalidCard)
        } else if turn != NOT_DEALT && flop.contains(turn) {
            Some(Error::DuplicateCard)
        } else if river != NOT_DEALT && !is_card(river) {
            Some(Error::InvalidCard)
        } else if river != NOT_DEALT && (flop.contains(river) || river == turn) {
            Some(Error::DuplicateCard)
        } else if river != NOT_DEALT && turn == NOT_DEALT {
            Some(Error::InconsistentStreet)
        } else if street != latest_street(turn, river) {
            Some(Error::InconsistentStreet)
        } else if self.range[0].spec_hands(self.board()).len() == 0 || self.range[1].spec_hands(
            self.board(),
        ).len() == 0 {
            Some(Error::NoCombination)
        } else {
            None
        }
    }
}

/// The board made of a flop and of the turn and river cards that are dealt.
pub fn make_board(flop: &[Card; 3], turn: Card, river: Card) -> (board: Vec<Card>)
    ensures
        board@ == board_of(flop@, turn, river),
{
    let mut board: Vec<Card> = Vec::new();
    board.push(flop[0]);
    board.push(flop[1]);
    board.push(flop[2]);
    assert(board@ =~= flop@);
    if turn != NOT_DEALT {
        board.push(turn);
    }
    if river != NOT_DEALT {
        board.push(river);
    }
    assert(board@ =~= board_of(flop@, turn, river));
    board
}

fn in_flop(flop: &[Card; 3], card: Card) -> (b: bool)
    ensures
        b == flop@.contains(card),
{
    let b = flop[0] == card || flop[1] == card || flop[2] == card;
    proof {
        if b {
            assert(flop@[0] == card || flop@[1] == card || flop@[2] == card);
        }
    }
    b
}

impl PostFlopGame {
    /// The board at the cursor.
    pub open spec fn spec_board(&self) -> Seq<Card> {
        board_of(self.card_config.flop@, self.turn, self.river)
    }

    /// The node the cursor is at.
    pub open spec fn spec_node(&self) -> ActionTreeNode {
        self.tree.nodes@[self.node as int]
    }

    /// Whether the game is in order: its tree and its cards are, the cursor is
    /// at a node of the tree, and the board at the cursor is made of different
    /// cards, as many as lie open at that node, the cards the game was set up
    /// with among them.
    pub open spec fn wf(&self) -> bool {
        &&& self.tree.wf()
        &&& self.card_config.fault(self.tree.config.initial_state) is None
        &&& forall|p: int|
            0 <= p < 2 ==> (#[trigger] self.private_cards[p])@
                == self.card_config.range[p].spec_hands(self.card_config.board())
        &&& self.node < self.tree.nodes@.len()
        &&& self.spec_board().len() == cards_dealt(self.spec_node().state)
        &&& board_ok(self.spec_board())
        &&& self.card_config.turn != NOT_DEALT ==> self.turn == self.card_config.turn
        &&& self.card_config.river != NOT_DEALT ==> self.river == self.card_config.river
        &&& self.river != NOT_DEALT ==> self.turn != NOT_DEALT
    }

    /// Whether the cursor is at the root, with the board the game was set up
    /// with and nothing played.
    pub open spec fn at_root(&self) -> bool {
        &&& self.node == self.tree.root_index()
        &&& self.turn == self.card_config.turn
        &&& self.river == self.card_config.river
        &&& self.history@.len() == 0
    }

    /// The actions available at the cursor: at a decision node those of the
    /// node, at a chance node the deal of each card that is not on the board,
    /// in increasing order of the cards, at a terminal node none.
    pub open spec fn spec_available_actions(&self) -> Seq<Action> {
        match self.spec_node().state.kind {
            NodeKind::Decision(_) => self.spec_node().actions@,
            NodeKind::Chance => {
                let cards = undealt_cards(self.spec_board());
                Seq::new(cards.len(), |k: int| Action::Chance(cards[k]))
            },
            NodeKind::Terminal(_) => Seq::empty(),
        }
    }

    /// Sets up a game from its cards and its action tree, with the cursor at
    /// the root.
    ///
    /// Fails exactly when something is wrong with the cards, and says what.
    pub fn with_config(card_config: CardConfig, action_tree: ActionTree) -> (r: Result<
        PostFlopGame,
        Error,
    >)
        requires
            action_tree.wf(),
        ensures
            match r {
                Ok(game) => {
                    &&& card_config.fault(action_tree.config.initial_state) is None
                    &&& game.wf()
                    &&& game.at_root()
                    &&& game.tree == action_tree
                    &&& game.card_config == card_config
                },
                Err(e) => card_config.fault(action_tree.config.initial_state) == Some(e),
            },
    {
        let turn = card_config.turn;
        let river = card_config.river;
        let f0 = card_config.flop[0];
        let f1 = card_config.flop[1];
        let f2 = card_config.flop[2];
        let ghost flop = card_config.flop@;
        assert(flop[0] == f0 && flop[1] == f1 && flop[2] == f2);
        if f0 >= 52 || f1 >= 52 || f2 >= 52 {
            return Err(Error::InvalidCard);
        }
        if f0 == f1 || f0 == f2 || f1 == f2 {
            return Err(Error::DuplicateCard);
        }
        if turn != NOT_DEALT {
            if turn >= 52 {
                return Err(Error::InvalidCard);
            }
            if in_flop(&card_config.flop, turn) {
                return Err(Error::DuplicateCard);
            }
        }
        if river != NOT_DEALT {
            if river >= 52 {
                return Err(Error::InvalidCard);
            }
            if in_flop(&card_config.flop, river) || river == turn {
                return Err(Error::DuplicateCard);
            }
            if turn == NOT_DEALT {
                return Err(Error::InconsistentStreet);
            }
        }
        if action_tree.config.initial_state != initial_state_of(turn, river) {
            return Err(Error::InconsistentStreet);
        }
        let board = make_board(&card_config.flop, turn, river);
        let oop = card_config.range[0].hands(&board);
        let ip = card_config.range[1].hands(&board);
        if oop.len() == 0 || ip.len() == 0 {
            return Err(Error::NoCombination);
        }
        let node = action_tree.root();
        let game = PostFlopGame {
            tree: action_tree,
            card_config,
            private_cards: [oop, ip],
            node,
            turn,
            river,
            history: Vec::new(),
        };
        proof {
            assert(game.spec_node().state == initial_state(&game.tree.config));
            let b = game.spec_board();
            assert(b == board@);
            assert(board_ok(b)) by {
                assert(b =~= flop + (if turn != NOT_DEALT {
                    seq![turn]
                } else {
                    Seq::empty()
                }) + (if river != NOT_DEALT {
                    seq![river]
                } else {
                    Seq::empty()
                }));
                assert(b[0] == f0 && b[1] == f1 && b[2] == f2);
                if turn != NOT_DEALT {
                    assert(b[3] == turn);
                }
                if river != NOT_DEALT {
                    assert(b[4] == river);
                }
            }
        }
        Ok(game)
    }
}

impl CardConfig {
    /// Cards without fault make a board of different cards, as many as lie
    /// open on the street the tree starts on.
    pub proof fn lemma_faultless_board(&self, street: BoardState)
        requires
            self.fault(street) is None,
        ensures
            board_ok(self.board()),
            self.board().len() == street.spec_num_cards(),
            self.river != NOT_DEALT ==> self.turn != NOT_DEALT,
    {
        let flop = self.flop@;
        let b = self.board();
        assert(b[0] == flop[0] && b[1] == flop[1] && b[2] == flop[2]);
        if self.turn != NOT_DEALT {
            assert(b[3] == self.turn);
        }
        if self.river != NOT_DEALT {
            assert(b[4] == self.river);
        }
    }
}

impl PostFlopGame {
    /// The node that playing `index` at the cursor leads to: at a decision node
    /// the child of that number, at a chance node the one child there is.
    pub open spec fn spec_child(&self, index: int) -> int {
        match self.spec_node().state.kind {
            NodeKind::Chance => self.spec_node().children@[0] as int,
            _ => self.spec_node().children@[index] as int,
        }
    }

    /// The board after playing `index` at the cursor: at a chance node the card
    /// of that number among those that can be dealt comes onto it, elsewhere it
    /// stays as it is.
    pub open spec fn spec_board_after(&self, index: int) -> Seq<Card> {
        match self.spec_node().state.kind {
            NodeKind::Chance => self.spec_board().push(undealt_cards(self.spec_board())[index]),
            _ => self.spec_board(),
        }
    }

    /// Wherever the hand is not over there is something to play: a decision
    /// node offers an action, and a chance node offers every card that is not
    /// on the board.
    pub proof fn lemma_cursor_has_actions(&self)
        requires
            self.wf(),
        ensures
            self.spec_node().state.kind is Decision ==> self.spec_available_actions().len() >= 1,
            self.spec_node().state.kind is Chance ==> self.spec_available_actions().len() == 52
                - self.spec_board().len() && self.spec_board().len() < 5,
            self.spec_node().state.kind is Terminal ==> self.spec_available_actions().len() == 0,
    {
        assert(node_ok(&self.tree.config, self.tree.nodes@, self.node as int));
        match self.spec_node().state.kind {
            NodeKind::Decision(_) => {
                self.tree.lemma_decisions_have_actions(self.node as int);
            },
            NodeKind::Chance => {
                lemma_undealt_count(self.spec_board());
            },
            NodeKind::Terminal(_) => {},
        }
    }

    /// The board at the cursor: the flop, then the turn and the river as far
    /// as they are dealt.
    pub fn current_board(&self) -> (board: Vec<Card>)
        ensures
            board@ == self.spec_board(),
    {
        make_board(&self.card_config.flop, self.turn, self.river)
    }

    /// The hands of a player, in the order in which all per-hand values of
    /// that player are listed.
    pub fn private_cards(&self, player: usize) -> (hands: &Vec<Hand>)
        requires
            player < 2,
        ensures
            *hands == self.private_cards[player as int],
    {
        &self.private_cards[player]
    }

    /// The number of hands of a player.
    pub fn num_private_hands(&self, player: usize) -> (n: usize)
        requires
            player < 2,
        ensures
            n == self.private_cards[player as int]@.len(),
    {
        self.private_cards[player].len()
    }

    /// Who is to act at the cursor: `0` or `1` for a player, [`PLAYER_CHANCE`]
    /// where a card is dealt, [`PLAYER_NONE`] where the hand is over.
    pub fn current_player(&self) -> (player: u8)
        requires
            self.wf(),
        ensures
            player == match self.spec_node().state.kind {
                NodeKind::Decision(p) => p,
                NodeKind::Chance => PLAYER_CHANCE,
                NodeKind::Terminal(_) => PLAYER_NONE,
            },
            self.spec_node().state.kind is Decision ==> player <= 1,
    {
        proof {
            assert(node_ok(&self.tree.config, self.tree.nodes@, self.node as int));
        }
        match self.tree.nodes[self.node].state.kind {
            NodeKind::Decision(p) => p,
            NodeKind::Chance => PLAYER_CHANCE,
            NodeKind::Terminal(_) => PLAYER_NONE,
        }
    }

    /// Whether the hand is over at the cursor.
    pub fn is_terminal_node(&self) -> (b: bool)
        requires
            self.wf(),
        ensures
            b == (self.spec_node().state.kind is Terminal),
    {
        matches!(self.tree.nodes[self.node].state.kind, NodeKind::Terminal(_))
    }

    /// Whether a card is dealt at the cursor.
    pub fn is_chance_node(&self) -> (b: bool)
        requires
            self.wf(),
        ensures
            b == (self.spec_node().state.kind is Chance),
    {
        matches!(self.tree.nodes[self.node].state.kind, NodeKind::Chance)
    }

    /// The actions available at the cursor.
    pub fn available_actions(&self) -> (actions: Vec<Action>)
        requires
            self.wf(),
        ensures
            actions@ == self.spec_available_actions(),
    {
        let node = &self.tree.nodes[self.node];
        let mut actions: Vec<Action> = Vec::new();
        match node.state.kind {
            NodeKind::Terminal(_) => {},
            NodeKind::Decision(_) => {
                let mut i: usize = 0;
                while i < node.actions.len()
                    invariant
                        i <= node.actions@.len(),
                        actions@ == node.actions@.take(i as int),
                    decreases node.actions@.len() - i,
                {
                    actions.push(node.actions[i]);
                    assert(node.actions@.take(i + 1) =~= node.actions@.take(i as int).push(
                        node.actions@[i as int],
                    ));
                    i += 1;
                }
                assert(node.actions@.take(i as int) =~= node.actions@);
            },
            NodeKind::Chance => {
                let board = self.current_board();
                let cards = dealable_cards(&board);
                let mut i: usize = 0;
                while i < cards.len()
                    invariant
                        i <= cards@.len(),
                        actions@.len() == i,
                        forall|j: int| 0 <= j < i ==> actions@[j] == Action::Chance(cards@[j]),
                    decreases cards@.len() - i,
                {
                    actions.push(Action::Chance(cards[i]));
                    i += 1;
                }
                assert(actions@ =~= self.spec_available_actions());
            },
        }
        actions
    }

    /// What was played from the root to the cursor.
    pub fn history(&self) -> (history: &Vec<usize>)
        ensures
            *history == self.history,
    {
        &self.history
    }

    /// Plays at the cursor: the action with the given number at a decision
    /// node, the card with the given number among those that can be dealt at a
    /// chance node. The cursor moves to the node this leads to.
    ///
    /// Fails with [`Error::InvalidAction`] exactly when the number is not that
    /// of an available action, and then leaves the game as it is.
    pub fn play(&mut self, action_index: usize) -> (r: Result<(), Error>)
        requires
            old(self).wf(),
        ensures
            final(self).wf(),
            final(self).tree == old(self).tree,
            final(self).card_config == old(self).card_config,
            final(self).private_cards == old(self).private_cards,
            match r {
                Ok(_) => {
                    &&& action_index < old(self).spec_available_actions().len()
                    &&& final(self).node == old(self).spec_child(action_index as int)
                    &&& final(self).spec_board() == old(self).spec_board_after(action_index as int)
                    &&& final(self).history@ == old(self).history@.push(action_index)
                },
                Err(e) => {
                    &&& e == Error::InvalidAction
                    &&& action_index >= old(self).spec_available_actions().len()
                    &&& *final(self) == *old(self)
                },
            },
    {
        let ghost config = &self.tree.config;
        let ghost state = self.spec_node().state;
        proof {
            assert(node_ok(config, self.tree.nodes@, self.node as int));
        }
        let kind = self.tree.nodes[self.node].state.kind;
        match kind {
            NodeKind::Terminal(_) => Err(Error::InvalidAction),
            NodeKind::Decision(_) => {
                if action_index >= self.tree.nodes[self.node].children.len() {
                    return Err(Error::InvalidAction);
                }
                let child = self.tree.nodes[self.node].children[action_index];
                proof {
                    lemma_cards_dealt_step(config, state, action_index as int);
                    assert(0 <= self.spec_node().children@[action_index as int] < self.node);
                }
                self.node = child;
                self.history.push(action_index);
                Ok(())
            },
            NodeKind::Chance => {
                let board = self.current_board();
                let cards = dealable_cards(&board);
                if action_index >= cards.len() {
                    return Err(Error::InvalidAction);
                }
                let card = cards[action_index];
                let street = self.tree.nodes[self.node].state.street;
                let child = self.tree.nodes[self.node].children[0];
                proof {
                    lemma_cards_dealt_step(config, state, 0);
                    assert(0 <= self.spec_node().children@[0] < self.node);
                    lemma_undealt_cards_below(board@, 52);
                    assert(is_card(card) && !board@.contains(card));
                }
                let ghost before = self.spec_board();
                self.node = child;
                match street {
                    BoardState::River => {
                        self.river = card;
                    },
                    _ => {
                        self.turn = card;
                    },
                }
                self.history.push(action_index);
                proof {
                    let after = self.spec_board();
                    assert(after =~= before.push(card));
                    assert(board_ok(after)) by {
                        assert forall|i: int, j: int| 0 <= i < j < after.len() implies after[i]
                            != after[j] by {
                            if j == before.len() {
                                assert(before.contains(before[i]));
                            }
                        }
                    }
                }
                Ok(())
            },
        }
    }

    /// Moves the cursor back to the root: the board is the one the game was
    /// set up with again, and nothing has been played.
    pub fn back_to_root(&mut self)
        requires
            old(self).wf(),
        ensures
            final(self).wf(),
            final(self).at_root(),
            final(self).tree == old(self).tree,
            final(self).card_config == old(self).card_config,
            final(self).private_cards == old(self).private_cards,
    {
        proof {
            self.card_config.lemma_faultless_board(self.tree.config.initial_state);
        }
        self.node = self.tree.root();
        self.turn = self.card_config.turn;
        self.river = self.card_config.river;
        self.history = Vec::new();
    }
}

/// A decision node together with the cards dealt on the way to it.
#[derive(Clone, Copy, Debug, PartialEq, Eq, Structural)]
pub struct NodeContext {
    /// The position of the node in the tree's list of nodes.
    pub node: usize,
    /// The turn card, or [`NOT_DEALT`].
    pub turn: Card,
    /// The river card, or [`NOT_DEALT`].
    pub river: Card,
}

/// For each suit the suit that stands for it on a board with two ranges.
pub open spec fn suit_classes(board: Seq<Card>, oop: Seq<u32>, ip: Seq<u32>) -> Seq<u8> {
    Seq::new(4, |s: int| suit_class(board, oop, ip, s) as u8)
}

/// The turn and river cards once a card is dealt: the card is the turn card
/// if there is none yet, the river card if there is.
pub open spec fn dealt_onto(turn: Card, river: Card, card: Card) -> (Card, Card) {
    if turn == NOT_DEALT {
        (card, river)
    } else {
        (turn, card)
    }
}

impl PostFlopGame {
    /// The decision nodes below and at a node, each with the cards dealt on
    /// the way to it, for the turn and river cards at the node. A decision node
    /// comes before the nodes below it, these in the order of its actions; at
    /// a chance node, the cards are those that are dealt in fact, in
    /// increasing order.
    pub open spec fn contexts(&self, node: int, turn: Card, river: Card) -> Seq<NodeContext>
        decreases node, 2int, 0int,
    {
        if node < 0 || node >= self.tree.nodes@.len() {
            Seq::empty()
        } else {
            match self.tree.nodes@[node].state.kind {
                NodeKind::Terminal(_) => Seq::empty(),
                NodeKind::Decision(_) => seq![NodeContext { node: node as usize, turn, river }]
                    + self.contexts_of_actions(
                    node,
                    self.tree.nodes@[node].children@.len() as int,
                    turn,
                    river,
                ),
                NodeKind::Chance => self.contexts_of_deals(
                    node,
                    self.spec_deals(turn, river).len() as int,
                    turn,
                    river,
                ),
            }
        }
    }

    /// The decision nodes below the first `k` actions of a decision node.
    pub open spec fn contexts_of_actions(&self, node: int, k: int, turn: Card, river: Card) -> Seq<
        NodeContext,
    >
        decreases node, 1int, k,
    {
        if k <= 0 || node < 0 {
            Seq::empty()
        } else {
            let child = self.tree.nodes@[node].children@[k - 1] as int;
            self.contexts_of_actions(node, k - 1, turn, river) + if child < node {
                self.contexts(child, turn, river)
            } else {
                Seq::empty()
            }
        }
    }

    /// The decision nodes below the first `d` deals of a chance node.
    pub open spec fn contexts_of_deals(&self, node: int, d: int, turn: Card, river: Card) -> Seq<
        NodeContext,
    >
        decreases node, 1int, d,
    {
        if d <= 0 || node < 0 {
            Seq::empty()
        } else {
            let child = self.tree.nodes@[node].children@[0] as int;
            let next = dealt_onto(turn, river, self.spec_deals(turn, river)[d - 1].card);
            self.contexts_of_deals(node, d - 1, turn, river) + if child < node {
                self.contexts(child, next.0, next.1)
            } else {
                Seq::empty()
            }
        }
    }

    /// The deals made in fact at a chance node, for the turn and river cards
    /// at the node.
    pub open spec fn spec_deals(&self, turn: Card, river: Card) -> Seq<ChanceChild> {
        let board = board_of(self.card_config.flop@, turn, river);
        chance_children_of(
            board,
            suit_classes(board, self.card_config.range[0]@, self.card_config.range[1]@),
        )
    }

    /// The deals made in fact at a chance node, for the turn and river cards
    /// at the node.
    pub fn deals(&self, turn: Card, river: Card) -> (deals: Vec<ChanceChild>)
        ensures
            deals@ == self.spec_deals(turn, river),
    {
        let board = make_board(&self.card_config.flop, turn, river);
        let classes = suit_isomorphism(&board, &self.card_config.range[0], &self.card_config.range[1]);
        assert(classes@ =~= suit_classes(
            board@,
            self.card_config.range[0]@,
            self.card_config.range[1]@,
        ));
        chance_children(&board, &classes)
    }

    /// For each hand of a player, the position among the player's hands of the
    /// hand with the suits `s1` and `s2` exchanged, if the player has it: where
    /// the deal of a card stands for the deal of the card of the same rank in
    /// another suit, the values of the hands are those of their twins.
    pub fn twin_positions(&self, player: usize, s1: u8, s2: u8) -> (positions: Vec<Option<usize>>)
        requires
            self.wf(),
            player < 2,
            s1 < 4,
            s2 < 4,
        ensures
            positions@.len() == self.private_cards[player as int]@.len(),
            forall|i: int|
                0 <= i < positions@.len() ==> match #[trigger] positions@[i] {
                    Some(k) => k < positions@.len() && self.private_cards[player as int]@[k as int]
                        == swap_hand(self.private_cards[player as int]@[i], s1, s2),
                    None => !self.private_cards[player as int]@.contains(
                        swap_hand(self.private_cards[player as int]@[i], s1, s2),
                    ),
                },
    {
        proof {
            lemma_hands_below(
                self.card_config.range[player as int]@,
                self.card_config.board(),
                NUM_HANDS as int,
            );
            assert(self.private_cards[player as int]@ == self.card_config.range[player as int].spec_hands(
                self.card_config.board(),
            ));
            assert(is_hand_list(self.private_cards[player as int]@));
        }
        swapped_positions(&self.private_cards[player], s1, s2)
    }

    /// All decision nodes of the game, each with the cards dealt on the way to
    /// it: what buffers are needed for.
    pub fn decision_contexts(&self) -> (list: Vec<NodeContext>)
        requires
            self.wf(),
        ensures
            list@ == self.contexts(
                self.tree.root_index(),
                self.card_config.turn,
                self.card_config.river,
            ),
    {
        let mut list: Vec<NodeContext> = Vec::new();
        let root = self.tree.root();
        self.collect_contexts(root, self.card_config.turn, self.card_config.river, &mut list);
        list
    }

    fn collect_contexts(&self, node: usize, turn: Card, river: Card, list: &mut Vec<NodeContext>)
        requires
            self.tree.wf(),
            node < self.tree.nodes@.len(),
        ensures
            final(list)@ == old(list)@ + self.contexts(node as int, turn, river),
        decreases node,
    {
        let ghost entry = list@;
        proof {
            assert(node_ok(&self.tree.config, self.tree.nodes@, node as int));
        }
        let tree_node = &self.tree.nodes[node];
        match tree_node.state.kind {
            NodeKind::Terminal(_) => {
                assert(list@ =~= entry + self.contexts(node as int, turn, river));
            },
            NodeKind::Decision(_) => {
                list.push(NodeContext { node, turn, river });
                let ghost head = list@;
                let mut k: usize = 0;
                while k < tree_node.children.len()
                    invariant
                        k <= tree_node.children@.len(),
                        self.tree.wf(),
                        node < self.tree.nodes@.len(),
                        *tree_node == self.tree.nodes@[node as int],
                        node_ok(&self.tree.config, self.tree.nodes@, node as int),
                        list@ == head + self.contexts_of_actions(node as int, k as int, turn, river),
                    decreases tree_node.children@.len() - k,
                {
                    let child = tree_node.children[k];
                    assert(0 <= tree_node.children@[k as int] < node);
                    self.collect_contexts(child, turn, river, list);
                    assert(list@ =~= head + self.contexts_of_actions(
                        node as int,
                        k + 1,
                        turn,
                        river,
                    ));
                    k += 1;
                }
                assert(list@ =~= entry + self.contexts(node as int, turn, river));
            },
            NodeKind::Chance => {
                let deals = self.deals(turn, river);
                let child = tree_node.children[0];
                assert(0 <= tree_node.children@[0] < node);
                let mut d: usize = 0;
                while d < deals.len()
                    invariant
                        d <= deals@.len(),
                        self.tree.wf(),
                        node < self.tree.nodes@.len(),
                        child < node,
                        child == self.tree.nodes@[node as int].children@[0],
                        deals@ == self.spec_deals(turn, river),
                        list@ == entry + self.contexts_of_deals(node as int, d as int, turn, river),
                    decreases deals@.len() - d,
                {
                    let card = deals[d].card;
                    let (next_turn, next_river) = if turn == NOT_DEALT {
                        (card, river)
                    } else {
                        (turn, card)
                    };
                    self.collect_contexts(child, next_turn, next_river, list);
                    assert(list@ =~= entry + self.contexts_of_deals(
                        node as int,
                        d + 1,
                        turn,
                        river,
                    ));
                    d += 1;
                }
            },
        }
    }
}

} // verus!
