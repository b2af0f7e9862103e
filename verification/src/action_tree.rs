//! The action tree: the betting skeleton of a game, independent of the cards.
//!
//! A node of the tree is a betting state. What can be done in a state and
//! which state an action leads to are given by two functions,
//! [`legal_actions`] and [`next_state`]; the tree is what unfolds from the
//! initial state under them. Amounts of bets are chips put in on the current
//! street: `Raise(30)` raises *to* 30.

use vstd::prelude::*;
use crate::bet_size::{
    bet_size_ok, bet_sizes_ok, lemma_resolved_amounts, resolve, resolved_all_in, resolved_amounts,
    BetSize, BetSizeOptions, Sizing,
};
use crate::card::{BoardState, Card, NOT_DEALT};
use crate::error::Error;

verus! {

/// The player who acts first on every street.
pub const PLAYER_OOP: u8 = 0;

/// The player who acts last on every street.
pub const PLAYER_IP: u8 = 1;

/// What a player, or chance, does at a node.
#[derive(Clone, Copy, Debug, PartialEq, Eq, Structural)]
pub enum Action {
    Fold,
    Check,
    Call,
    /// A bet to the given amount.
    Bet(i32),
    /// A raise to the given amount.
    Raise(i32),
    /// A bet or raise of the whole stack, to the given amount.
    AllIn(i32),
    /// A card is dealt. In the tree the card is a placeholder, [`NOT_DEALT`].
    Chance(Card),
}

/// How a hand ends.
#[derive(Clone, Copy, Debug, PartialEq, Eq, Structural)]
pub enum TerminalKind {
    /// The given player folded.
    Fold(u8),
    /// The hands are shown down.
    Showdown,
}

/// What happens at a node.
#[derive(Clone, Copy, Debug, PartialEq, Eq, Structural)]
pub enum NodeKind {
    /// The given player acts.
    Decision(u8),
    /// The card of the node's street is dealt.
    Chance,
    /// The hand is over.
    Terminal(TerminalKind),
}

/// The state of the betting at a node.
#[derive(Clone, Copy, Debug, PartialEq, Eq, Structural)]
pub struct BettingState {
    pub kind: NodeKind,
    /// The street being played; at a chance node, the street whose card is
    /// dealt.
    pub street: BoardState,
    /// Chips each player had put in when the current street began.
    pub matched: i32,
    /// Chips the first player has put in so far.
    pub committed_oop: i32,
    /// Chips the second player has put in so far.
    pub committed_ip: i32,
    /// Raises made on the current street.
    pub raises: u32,
    /// Whether the previous street ended with the first player calling.
    pub oop_called: bool,
}

/// The settings a tree is built from.
#[derive(Debug)]
pub struct TreeConfig {
    /// The street on which play starts.
    pub initial_state: BoardState,
    /// Chips in the pot when play starts.
    pub starting_pot: i32,
    /// Chips each player can still put in when play starts.
    pub effective_stack: i32,
    /// Bet sizes on the flop, of the first and of the second player.
    pub flop_bet_sizes: [BetSizeOptions; 2],
    /// Bet sizes on the turn, of the first and of the second player.
    pub turn_bet_sizes: [BetSizeOptions; 2],
    /// Bet sizes on the river, of the first and of the second player.
    pub river_bet_sizes: [BetSizeOptions; 2],
    /// All in is not added on its own account once the smallest sized bet is
    /// this fraction of the pot or more (in thousandths; `0` never adds it).
    pub add_allin_threshold: u32,
    /// Bets that leave at most this fraction of the pot behind become all in
    /// (in thousandths).
    pub force_allin_threshold: u32,
    /// Sized bets closer to each other than this fraction of the pot are merged
    /// (in thousandths).
    pub merging_threshold: u32,
    /// Whether the first player may bet into the player who bet or raised last
    /// on the previous street.
    pub donk_option: bool,
    /// The most raises made on one street.
    pub raise_cap: u32,
}

impl Default for TreeConfig {
    /// Play starts on the flop with nothing in the pot and nothing behind, no
    /// bet sizes, thresholds of zero, leading out permitted, and at most four
    /// raises on a street.
    fn default() -> (r: Self)
        ensures
            r.initial_state == BoardState::Flop,
            r.starting_pot == 0,
            r.effective_stack == 0,
            forall|p: int|
                0 <= p < 2 ==> {
                    &&& (#[trigger] r.flop_bet_sizes[p]).bet@.len() == 0
                    &&& r.flop_bet_sizes[p].raise@.len() == 0
                    &&& (#[trigger] r.turn_bet_sizes[p]).bet@.len() == 0
                    &&& r.turn_bet_sizes[p].raise@.len() == 0
                    &&& (#[trigger] r.river_bet_sizes[p]).bet@.len() == 0
                    &&& r.river_bet_sizes[p].raise@.len() == 0
                },
            r.add_allin_threshold == 0,
            r.force_allin_threshold == 0,
            r.merging_threshold == 0,
            r.donk_option,
            r.raise_cap == 4,
    {
        TreeConfig {
            initial_state: BoardState::Flop,
            starting_pot: 0,
            effective_stack: 0,
            flop_bet_sizes: [BetSizeOptions::default(), BetSizeOptions::default()],
            turn_bet_sizes: [BetSizeOptions::default(), BetSizeOptions::default()],
            river_bet_sizes: [BetSizeOptions::default(), BetSizeOptions::default()],
            add_allin_threshold: 0,
            force_allin_threshold: 0,
            merging_threshold: 0,
            donk_option: true,
            raise_cap: 4,
        }
    }
}

/// The street after `street`; the river is the last.
pub open spec fn next_street(street: BoardState) -> BoardState {
    match street {
        BoardState::Flop => BoardState::Turn,
        _ => BoardState::River,
    }
}

/// Streets still to be played from `street` on, itself included.
pub open spec fn streets_left(street: BoardState) -> int {
    match street {
        BoardState::Flop => 3,
        BoardState::Turn => 2,
        BoardState::River => 1,
    }
}

/// Whether both bet-size lists of both players are usable.
pub open spec fn options_ok(options: [BetSizeOptions; 2]) -> bool {
    forall|p: int|
        0 <= p < 2 ==> bet_sizes_ok((#[trigger] options[p]).bet@) && bet_sizes_ok(
            options[p].raise@,
        )
}

impl TreeConfig {
    /// Whether the pot and the stack are usable: there is a pot to play for,
    /// and the stack is not negative.
    pub open spec fn stack_ok(&self) -> bool {
        self.starting_pot > 0 && self.effective_stack >= 0
    }

    /// Whether every bet size is usable.
    pub open spec fn sizes_ok(&self) -> bool {
        &&& options_ok(self.flop_bet_sizes)
        &&& options_ok(self.turn_bet_sizes)
        &&& options_ok(self.river_bet_sizes)
    }

    /// Whether a tree can be built from these settings.
    pub open spec fn valid(&self) -> bool {
        self.stack_ok() && self.sizes_ok()
    }

    /// The bet sizes of a player on a street.
    pub open spec fn sizes(&self, street: BoardState, player: u8) -> BetSizeOptions {
        match street {
            BoardState::Flop => self.flop_bet_sizes[player as int],
            BoardState::Turn => self.turn_bet_sizes[player as int],
            BoardState::River => self.river_bet_sizes[player as int],
        }
    }
}

impl BettingState {
    /// Chips a player has put in so far.
    pub open spec fn committed(self, player: u8) -> int {
        if player == PLAYER_OOP {
            self.committed_oop as int
        } else {
            self.committed_ip as int
        }
    }

    /// Chips a player has put in on the current street.
    pub open spec fn own(self, player: u8) -> int {
        self.committed(player) - self.matched
    }

    /// Chips the opponent of a player has put in on the current street: the
    /// bet that the player faces.
    pub open spec fn prior(self, player: u8) -> int {
        self.committed((1 - player) as u8) - self.matched
    }

    /// Whether a player faces a bet.
    pub open spec fn facing(self, player: u8) -> bool {
        self.prior(player) > self.own(player)
    }

    /// This state with the chips of a player set to `chips`.
    pub open spec fn with_committed(self, player: u8, chips: int) -> BettingState {
        if player == PLAYER_OOP {
            BettingState { committed_oop: chips as i32, ..self }
        } else {
            BettingState { committed_ip: chips as i32, ..self }
        }
    }

    /// Whether the state can occur in a game with the given stack.
    pub open spec fn wf(self, config: &TreeConfig) -> bool {
        &&& 0 <= self.matched <= self.committed_oop <= config.effective_stack
        &&& self.matched <= self.committed_ip <= config.effective_stack
        &&& match self.kind {
            NodeKind::Decision(p) => {
                &&& p <= 1
                &&& self.own(p) <= self.prior(p)
                &&& self.own(p) == self.prior(p) ==> self.prior(p) == 0
            },
            NodeKind::Chance => {
                &&& self.street != BoardState::Flop
                &&& self.committed_oop == self.matched
                &&& self.committed_ip == self.matched
            },
            NodeKind::Terminal(TerminalKind::Showdown) => {
                &&& self.street == BoardState::River
                &&& self.committed_oop == self.matched
                &&& self.committed_ip == self.matched
            },
            NodeKind::Terminal(TerminalKind::Fold(p)) => {
                &&& p <= 1
                &&& self.committed(p) < self.committed((1 - p) as u8)
            },
        }
    }
}

/// The state in which play starts: the first player acts, nothing has been
/// put in.
pub open spec fn initial_state(config: &TreeConfig) -> BettingState {
    BettingState {
        kind: NodeKind::Decision(PLAYER_OOP),
        street: config.initial_state,
        matched: 0,
        committed_oop: 0,
        committed_ip: 0,
        raises: 0,
        oop_called: false,
    }
}

/// What sizing needs to know when `player` acts in state `s`.
///
/// The smallest raise repeats the raise that is faced (and is one chip where
/// there is none), as far as the stack allows.
pub open spec fn sizing(config: &TreeConfig, s: BettingState, player: u8) -> Sizing {
    let prior = s.prior(player);
    let max = config.effective_stack - s.matched;
    let step = if prior - s.own(player) > 1 {
        prior - s.own(player)
    } else {
        1
    };
    Sizing {
        pot: (config.starting_pot + 2 * (s.matched + prior)) as i64,
        prior: prior as i32,
        min: (if prior + step < max {
            prior + step
        } else {
            max
        }) as i32,
        max: max as i32,
        streets_left: streets_left(s.street) as u32,
        force_allin_threshold: config.force_allin_threshold,
    }
}

/// The actions that sized bets and all in stand for: the sized bets in
/// increasing order, as raises when a bet is faced, then all in.
pub open spec fn sized_actions(amounts: Seq<i32>, all_in: bool, max: i32, raise: bool) -> Seq<
    Action,
> {
    Seq::new(
        amounts.len() + if all_in { 1nat } else { 0nat },
        |k: int|
            if k < amounts.len() {
                if raise {
                    Action::Raise(amounts[k])
                } else {
                    Action::Bet(amounts[k])
                }
            } else {
                Action::AllIn(max)
            },
    )
}

/// Whether `player` may bet or raise in state `s`: there must be chips left
/// beyond the call, the raises on this street must be short of the cap, and
/// the first player may lead into the previous street's aggressor only where
/// the settings permit it.
pub open spec fn may_wager(config: &TreeConfig, s: BettingState, player: u8) -> bool {
    &&& s.prior(player) < config.effective_stack - s.matched
    &&& s.facing(player) ==> s.raises < config.raise_cap
    &&& !s.facing(player) ==> !(player == PLAYER_OOP && s.oop_called && !config.donk_option)
}

/// The bets or raises offered to `player` in state `s`.
pub open spec fn wagers(config: &TreeConfig, s: BettingState, player: u8) -> Seq<Action> {
    let ctx = sizing(config, s, player);
    let options = config.sizes(s.street, player);
    let sizes = if s.facing(player) {
        options.raise@
    } else {
        options.bet@
    };
    sized_actions(
        resolved_amounts(sizes, ctx, config.merging_threshold),
        resolved_all_in(sizes, ctx, config.merging_threshold, config.add_allin_threshold),
        ctx.max,
        s.facing(player),
    )
}

/// The actions available in a state, in the order in which they are offered.
///
/// A player who faces a bet may fold or call, a player who does not may check;
/// then come the bets or raises, smallest first and all in last. At a chance
/// node the one action is the deal; a terminal node has none.
pub open spec fn legal_actions(config: &TreeConfig, s: BettingState) -> Seq<Action> {
    match s.kind {
        NodeKind::Terminal(_) => Seq::empty(),
        NodeKind::Chance => seq![Action::Chance(NOT_DEALT)],
        NodeKind::Decision(p) => {
            let head = if s.facing(p) {
                seq![Action::Fold, Action::Call]
            } else {
                seq![Action::Check]
            };
            if may_wager(config, s, p) {
                head + wagers(config, s, p)
            } else {
                head
            }
        },
    }
}

/// The state after a betting round in which both players have put in the same:
/// a showdown on the river, the deal of the next street before it.
pub open spec fn round_closed(s: BettingState, oop_called: bool) -> BettingState {
    BettingState {
        kind: if s.street == BoardState::River {
            NodeKind::Terminal(TerminalKind::Showdown)
        } else {
            NodeKind::Chance
        },
        street: next_street(s.street),
        matched: s.committed_oop,
        committed_oop: s.committed_oop,
        committed_ip: s.committed_oop,
        raises: 0,
        oop_called,
    }
}

/// The state after a card is dealt: the first player acts, unless no chips are
/// left to bet, in which case the remaining cards are dealt and the hands
/// shown down.
pub open spec fn dealt(config: &TreeConfig, s: BettingState) -> BettingState {
    if s.matched < config.effective_stack {
        BettingState { kind: NodeKind::Decision(PLAYER_OOP), ..s }
    } else if s.street == BoardState::River {
        BettingState { kind: NodeKind::Terminal(TerminalKind::Showdown), ..s }
    } else {
        BettingState { street: next_street(s.street), ..s }
    }
}

/// The state that an action leads to.
pub open spec fn next_state(config: &TreeConfig, s: BettingState, action: Action) -> BettingState {
    match s.kind {
        NodeKind::Terminal(_) => s,
        NodeKind::Chance => dealt(config, s),
        NodeKind::Decision(p) => match action {
            Action::Fold => BettingState { kind: NodeKind::Terminal(TerminalKind::Fold(p)), ..s },
            Action::Check => if p == PLAYER_OOP {
                BettingState { kind: NodeKind::Decision(PLAYER_IP), ..s }
            } else {
                round_closed(s, false)
            },
            Action::Call => round_closed(
                s.with_committed(p, s.committed((1 - p) as u8)),
                p == PLAYER_OOP,
            ),
            Action::Bet(x) | Action::Raise(x) | Action::AllIn(x) => BettingState {
                kind: NodeKind::Decision((1 - p) as u8),
                raises: if s.facing(p) {
                    (s.raises + 1) as u32
                } else {
                    s.raises
                },
                ..s
            }.with_committed(p, s.matched + x),
            Action::Chance(_) => s,
        },
    }
}

/// How far a state is from the end of the hand, as a triple that every action
/// makes smaller in lexicographic order: the streets left, the chips that can
/// still be added to the largest bet, and the position within the round.
pub open spec fn distance(config: &TreeConfig, s: BettingState) -> (int, int, int) {
    (
        streets_left(s.street),
        config.effective_stack - if s.committed_oop >= s.committed_ip {
            s.committed_oop
        } else {
            s.committed_ip
        },
        match s.kind {
            NodeKind::Chance => 3,
            NodeKind::Decision(p) => if p == PLAYER_OOP {
                2
            } else {
                1
            },
            NodeKind::Terminal(_) => 0,
        },
    )
}

/// Whether triple `a` comes before triple `b` in lexicographic order.
pub open spec fn closer(a: (int, int, int), b: (int, int, int)) -> bool {
    a.0 < b.0 || (a.0 == b.0 && (a.1 < b.1 || (a.1 == b.1 && a.2 < b.2)))
}

/// When a player may bet or raise, the sizing of the decision is in order.
pub proof fn lemma_sizing_wf(config: &TreeConfig, s: BettingState, player: u8)
    requires
        config.stack_ok(),
        s.wf(config),
        s.kind == NodeKind::Decision(player),
        s.prior(player) < config.effective_stack - s.matched,
    ensures
        sizing(config, s, player).wf(),
        sizing(config, s, player).prior == s.prior(player),
        sizing(config, s, player).max == config.effective_stack - s.matched,
{
}

/// A bet or raise that is offered is to more than the bet that is faced, and
/// to no more than the stack.
pub proof fn lemma_wager_range(config: &TreeConfig, s: BettingState, player: u8, k: int)
    requires
        config.stack_ok(),
        s.wf(config),
        s.kind == NodeKind::Decision(player),
        may_wager(config, s, player),
        0 <= k < wagers(config, s, player).len(),
    ensures
        match wagers(config, s, player)[k] {
            Action::Bet(x) => !s.facing(player) && s.prior(player) < x < config.effective_stack
                - s.matched,
            Action::Raise(x) => s.facing(player) && s.prior(player) < x < config.effective_stack
                - s.matched,
            Action::AllIn(x) => x == config.effective_stack - s.matched,
            _ => false,
        },
{
    let ctx = sizing(config, s, player);
    let options = config.sizes(s.street, player);
    let sizes = if s.facing(player) {
        options.raise@
    } else {
        options.bet@
    };
    lemma_sizing_wf(config, s, player);
    lemma_resolved_amounts(sizes, ctx, config.merging_threshold);
    let amounts = resolved_amounts(sizes, ctx, config.merging_threshold);
    if k < amounts.len() {
        assert(ctx.min <= amounts[k] < ctx.max);
    }
}

/// Every action that is offered leads to a state that can occur, and brings
/// the hand closer to its end.
pub proof fn lemma_step(config: &TreeConfig, s: BettingState, k: int)
    requires
        config.stack_ok(),
        s.wf(config),
        0 <= k < legal_actions(config, s).len(),
    ensures
        next_state(config, s, legal_actions(config, s)[k]).wf(config),
        closer(
            distance(config, next_state(config, s, legal_actions(config, s)[k])),
            distance(config, s),
        ),
{
    match s.kind {
        NodeKind::Decision(p) => {
            let head: int = if s.facing(p) {
                2
            } else {
                1
            };
            if k >= head {
                lemma_wager_range(config, s, p, k - head);
                assert(legal_actions(config, s)[k] == wagers(config, s, p)[k - head]);
            }
        },
        _ => {},
    }
}

fn sizing_of(config: &TreeConfig, s: &BettingState, player: u8) -> (ctx: Sizing)
    requires
        config.stack_ok(),
        s.wf(config),
        s.kind == NodeKind::Decision(player),
        s.prior(player) < config.effective_stack - s.matched,
    ensures
        ctx == sizing(config, *s, player),
        ctx.wf(),
{
    let (own, prior) = if player == PLAYER_OOP {
        (s.committed_oop - s.matched, s.committed_ip - s.matched)
    } else {
        (s.committed_ip - s.matched, s.committed_oop - s.matched)
    };
    let max = config.effective_stack - s.matched;
    let step = if prior - own > 1 {
        prior - own
    } else {
        1
    };
    let streets_left: u32 = match s.street {
        BoardState::Flop => 3,
        BoardState::Turn => 2,
        BoardState::River => 1,
    };
    Sizing {
        pot: config.starting_pot as i64 + 2 * (s.matched as i64 + prior as i64),
        prior,
        min: if (prior as i64) + (step as i64) < max as i64 {
            prior + step
        } else {
            max
        },
        max,
        streets_left,
        force_allin_threshold: config.force_allin_threshold,
    }
}

fn wagers_at(config: &TreeConfig, s: &BettingState, player: u8) -> (actions: Vec<Action>)
    requires
        config.valid(),
        s.wf(config),
        s.kind == NodeKind::Decision(player),
        may_wager(config, *s, player),
    ensures
        actions@ == wagers(config, *s, player),
{
    let facing = if player == PLAYER_OOP {
        s.committed_ip > s.committed_oop
    } else {
        s.committed_oop > s.committed_ip
    };
    let ctx = sizing_of(config, s, player);
    let options = match s.street {
        BoardState::Flop => &config.flop_bet_sizes[player as usize],
        BoardState::Turn => &config.turn_bet_sizes[player as usize],
        BoardState::River => &config.river_bet_sizes[player as usize],
    };
    assert(options == config.sizes(s.street, player));
    let sizes = if facing {
        &options.raise
    } else {
        &options.bet
    };
    let resolved = resolve(sizes, &ctx, config.merging_threshold, config.add_allin_threshold);
    let mut actions: Vec<Action> = Vec::new();
    let n = resolved.amounts.len();
    let mut i: usize = 0;
    while i < n
        invariant
            i <= n,
            n == resolved.amounts@.len(),
            actions@.len() == i,
            forall|j: int|
                0 <= j < i ==> actions@[j] == if facing {
                    Action::Raise(resolved.amounts@[j])
                } else {
                    Action::Bet(resolved.amounts@[j])
                },
        decreases n - i,
    {
        let amount = resolved.amounts[i];
        actions.push(
            if facing {
                Action::Raise(amount)
            } else {
                Action::Bet(amount)
            },
        );
        i += 1;
    }
    if resolved.all_in {
        actions.push(Action::AllIn(ctx.max));
    }
    assert(actions@ =~= sized_actions(resolved.amounts@, resolved.all_in, ctx.max, facing));
    actions
}

/// The actions available in a state, in the order in which they are offered.
pub fn actions_at(config: &TreeConfig, s: &BettingState) -> (actions: Vec<Action>)
    requires
        config.valid(),
        s.wf(config),
    ensures
        actions@ == legal_actions(config, *s),
{
    let mut actions: Vec<Action> = Vec::new();
    match s.kind {
        NodeKind::Terminal(_) => {},
        NodeKind::Chance => {
            actions.push(Action::Chance(NOT_DEALT));
        },
        NodeKind::Decision(p) => {
            let (own, prior) = if p == PLAYER_OOP {
                (s.committed_oop, s.committed_ip)
            } else {
                (s.committed_ip, s.committed_oop)
            };
            let facing = prior > own;
            if facing {
                actions.push(Action::Fold);
                actions.push(Action::Call);
            } else {
                actions.push(Action::Check);
            }
            let may = prior < config.effective_stack && (if facing {
                s.raises < config.raise_cap
            } else {
                !(p == PLAYER_OOP && s.oop_called && !config.donk_option)
            });
            if may {
                let mut more = wagers_at(config, s, p);
                actions.append(&mut more);
            }
        },
    }
    assert(actions@ =~= legal_actions(config, *s));
    actions
}

/// The state that an action leads to.
pub fn state_after(config: &TreeConfig, s: &BettingState, action: Action) -> (t: BettingState)
    requires
        config.valid(),
        s.wf(config),
        legal_actions(config, *s).contains(action),
    ensures
        t == next_state(config, *s, action),
        t.wf(config),
        closer(distance(config, t), distance(config, *s)),
{
    let ghost k = choose|k: int|
        0 <= k < legal_actions(config, *s).len() && legal_actions(config, *s)[k] == action;
    proof {
        lemma_step(config, *s, k);
    }
    match s.kind {
        NodeKind::Terminal(_) => *s,
        NodeKind::Chance => {
            if s.matched < config.effective_stack {
                BettingState { kind: NodeKind::Decision(PLAYER_OOP), ..*s }
            } else if matches!(s.street, BoardState::River) {
                BettingState { kind: NodeKind::Terminal(TerminalKind::Showdown), ..*s }
            } else {
                BettingState { street: BoardState::River, ..*s }
            }
        },
        NodeKind::Decision(p) => {
            let (own, prior) = if p == PLAYER_OOP {
                (s.committed_oop, s.committed_ip)
            } else {
                (s.committed_ip, s.committed_oop)
            };
            match action {
                Action::Fold => BettingState {
                    kind: NodeKind::Terminal(TerminalKind::Fold(p)),
                    ..*s
                },
                Action::Check => {
                    if p == PLAYER_OOP {
                        BettingState { kind: NodeKind::Decision(PLAYER_IP), ..*s }
                    } else {
                        close_round(s, s.committed_oop, false)
                    }
                },
                Action::Call => close_round(s, prior, p == PLAYER_OOP),
                Action::Bet(x) | Action::Raise(x) | Action::AllIn(x) => {
                    proof {
                        let head: int = if s.facing(p) {
                            2
                        } else {
                            1
                        };
                        lemma_wager_range(config, *s, p, k - head);
                        assert(legal_actions(config, *s)[k] == wagers(config, *s, p)[k - head]);
                    }
                    let raises = if prior > own {
                        s.raises + 1
                    } else {
                        s.raises
                    };
                    if p == PLAYER_OOP {
                        BettingState {
                            kind: NodeKind::Decision(PLAYER_IP),
                            raises,
                            committed_oop: s.matched + x,
                            ..*s
                        }
                    } else {
                        BettingState {
                            kind: NodeKind::Decision(PLAYER_OOP),
                            raises,
                            committed_ip: s.matched + x,
                            ..*s
                        }
                    }
                },
                Action::Chance(_) => *s,
            }
        },
    }
}

fn close_round(s: &BettingState, chips: i32, oop_called: bool) -> (t: BettingState)
    ensures
        t == round_closed(
            BettingState { committed_oop: chips, committed_ip: chips, ..*s },
            oop_called,
        ),
{
    let (kind, street) = match s.street {
        BoardState::Flop => (NodeKind::Chance, BoardState::Turn),
        BoardState::Turn => (NodeKind::Chance, BoardState::River),
        BoardState::River => (NodeKind::Terminal(TerminalKind::Showdown), BoardState::River),
    };
    BettingState {
        kind,
        street,
        matched: chips,
        committed_oop: chips,
        committed_ip: chips,
        raises: 0,
        oop_called,
    }
}

/// A node of the action tree.
#[derive(Debug)]
pub struct ActionTreeNode {
    /// The state of the betting at this node.
    pub state: BettingState,
    /// The actions available at this node, in the order in which they are
    /// offered.
    pub actions: Vec<Action>,
    /// For each action, the position in the tree's list of nodes of the node
    /// that it leads to.
    pub children: Vec<usize>,
}

/// The action tree of a game.
///
/// The nodes are held in one list in which every node comes after all nodes
/// below it; the root is the last.
#[derive(Debug)]
pub struct ActionTree {
    /// The settings the tree was built from.
    pub config: TreeConfig,
    /// The nodes, children before parents.
    pub nodes: Vec<ActionTreeNode>,
}

/// Whether the node at position `i` is what unfolds from its state: it offers
/// exactly the actions that are legal in its state, and each action leads to an
/// earlier node whose state is the one that follows.
pub open spec fn node_ok(config: &TreeConfig, nodes: Seq<ActionTreeNode>, i: int) -> bool {
    let node = nodes[i];
    &&& node.state.wf(config)
    &&& node.actions@ == legal_actions(config, node.state)
    &&& node.children@.len() == node.actions@.len()
    &&& forall|k: int|
        0 <= k < node.children@.len() ==> {
            &&& 0 <= (#[trigger] node.children@[k]) < i
            &&& nodes[node.children@[k] as int].state == next_state(
                config,
                node.state,
                node.actions@[k],
            )
        }
}

/// Whether every node of a list is what unfolds from its state.
pub open spec fn nodes_ok(config: &TreeConfig, nodes: Seq<ActionTreeNode>) -> bool {
    forall|i: int| 0 <= i < nodes.len() ==> node_ok(config, nodes, i)
}

proof fn lemma_nodes_ok_push(config: &TreeConfig, nodes: Seq<ActionTreeNode>, node: ActionTreeNode)
    requires
        nodes_ok(config, nodes),
        node_ok(config, nodes.push(node), nodes.len() as int),
    ensures
        nodes_ok(config, nodes.push(node)),
{
    let after = nodes.push(node);
    assert forall|i: int| 0 <= i < after.len() implies node_ok(config, after, i) by {
        if i < nodes.len() {
            assert(node_ok(config, nodes, i));
            assert(after[i] == nodes[i]);
            assert forall|k: int| 0 <= k < after[i].children@.len() implies {
                &&& 0 <= (#[trigger] after[i].children@[k]) < i
                &&& after[after[i].children@[k] as int].state == next_state(
                    config,
                    after[i].state,
                    after[i].actions@[k],
                )
            } by {
                let c = nodes[i].children@[k];
                assert(after[c as int] == nodes[c as int]);
            }
        }
    }
}

impl TreeConfig {
    /// What is wrong with the settings, if anything: first the pot and the
    /// stack are looked at, then the bet sizes.
    pub open spec fn fault(&self) -> Option<Error> {
        if !self.stack_ok() {
            Some(Error::InvalidStack)
        } else if !self.sizes_ok() {
            Some(Error::InvalidBetSize)
        } else {
            None
        }
    }

    /// Checks the settings.
    pub fn validate(&self) -> (r: Result<(), Error>)
        ensures
            match r {
                Ok(_) => self.fault() is None && self.valid(),
                Err(e) => self.fault() == Some(e),
            },
    {
        if self.starting_pot <= 0 || self.effective_stack < 0 {
            return Err(Error::InvalidStack);
        }
        if check_options(&self.flop_bet_sizes) && check_options(&self.turn_bet_sizes)
            && check_options(&self.river_bet_sizes) {
            Ok(())
        } else {
            Err(Error::InvalidBetSize)
        }
    }
}

fn check_sizes(sizes: &Vec<BetSize>) -> (ok: bool)
    ensures
        ok == bet_sizes_ok(sizes@),
{
    let mut i: usize = 0;
    while i < sizes.len()
        invariant
            i <= sizes.len(),
            forall|j: int| 0 <= j < i ==> bet_size_ok(#[trigger] sizes@[j]),
        decreases sizes.len() - i,
    {
        match sizes[i] {
            BetSize::Geometric(n, _) => {
                if n > 3 {
                    return false;
                }
            },
            _ => {},
        }
        i += 1;
    }
    true
}

fn check_options(options: &[BetSizeOptions; 2]) -> (ok: bool)
    ensures
        ok == options_ok(*options),
{
    let ok = check_sizes(&options[0].bet) && check_sizes(&options[0].raise) && check_sizes(
        &options[1].bet,
    ) && check_sizes(&options[1].raise);
    proof {
        if !ok {
            assert(!(bet_sizes_ok(options[0].bet@) && bet_sizes_ok(options[0].raise@))
                || !(bet_sizes_ok(options[1].bet@) && bet_sizes_ok(options[1].raise@)));
        }
    }
    ok
}

/// Builds the subtree of a state at the end of the list of nodes, and returns
/// the position of its root, which is the last node then.
fn build(config: &TreeConfig, state: BettingState, nodes: &mut Vec<ActionTreeNode>) -> (idx: usize)
    requires
        config.valid(),
        state.wf(config),
        nodes_ok(config, old(nodes)@),
    ensures
        idx == final(nodes)@.len() - 1,
        old(nodes)@.len() <= idx,
        forall|i: int| 0 <= i < old(nodes)@.len() ==> final(nodes)@[i] == old(nodes)@[i],
        final(nodes)@[idx as int].state == state,
        nodes_ok(config, final(nodes)@),
    decreases distance(config, state).0, distance(config, state).1, distance(config, state).2,
{
    let ghost entry = nodes@;
    let actions = actions_at(config, &state);
    let mut children: Vec<usize> = Vec::new();
    let mut k: usize = 0;
    while k < actions.len()
        invariant
            config.valid(),
            state.wf(config),
            actions@ == legal_actions(config, state),
            k <= actions.len(),
            children@.len() == k,
            nodes_ok(config, nodes@),
            entry.len() <= nodes@.len(),
            forall|i: int| 0 <= i < entry.len() ==> nodes@[i] == entry[i],
            forall|j: int|
                0 <= j < k ==> {
                    &&& 0 <= (#[trigger] children@[j]) < nodes@.len()
                    &&& nodes@[children@[j] as int].state == next_state(config, state, actions@[j])
                },
        decreases actions.len() - k,
    {
        assert(legal_actions(config, state)[k as int] == actions@[k as int]);
        let child_state = state_after(config, &state, actions[k]);
        let child = build(config, child_state, nodes);
        children.push(child);
        k += 1;
    }
    let ghost before = nodes@;
    let node = ActionTreeNode { state, actions, children };
    nodes.push(node);
    proof {
        let after = nodes@;
        let i = before.len() as int;
        assert(after[i] == node);
        assert forall|j: int| 0 <= j < node.children@.len() implies {
            &&& 0 <= (#[trigger] node.children@[j]) < i
            &&& after[node.children@[j] as int].state == next_state(
                config,
                node.state,
                node.actions@[j],
            )
        } by {
            assert(after[node.children@[j] as int] == before[node.children@[j] as int]);
        }
        lemma_nodes_ok_push(config, before, node);
    }
    nodes.len() - 1
}

impl ActionTree {
    /// Whether the tree is the one that unfolds from the initial state of its
    /// settings.
    pub open spec fn wf(&self) -> bool {
        &&& self.config.valid()
        &&& self.nodes@.len() > 0
        &&& self.nodes@.last().state == initial_state(&self.config)
        &&& nodes_ok(&self.config, self.nodes@)
    }

    /// The position of the root in the list of nodes.
    pub open spec fn root_index(&self) -> int {
        self.nodes@.len() - 1
    }

    /// Builds the action tree of the given settings.
    ///
    /// Fails exactly when something is wrong with the settings, and says what.
    pub fn new(config: TreeConfig) -> (r: Result<ActionTree, Error>)
        ensures
            match r {
                Ok(tree) => config.fault() is None && tree.wf() && tree.config == config,
                Err(e) => config.fault() == Some(e),
            },
    {
        match config.validate() {
            Err(e) => Err(e),
            Ok(_) => {
                let mut nodes: Vec<ActionTreeNode> = Vec::new();
                let root = BettingState {
                    kind: NodeKind::Decision(PLAYER_OOP),
                    street: config.initial_state,
                    matched: 0,
                    committed_oop: 0,
                    committed_ip: 0,
                    raises: 0,
                    oop_called: false,
                };
                let _ = build(&config, root, &mut nodes);
                Ok(ActionTree { config, nodes })
            },
        }
    }

    /// The position of the root in the list of nodes.
    pub fn root(&self) -> (i: usize)
        requires
            self.wf(),
        ensures
            i == self.root_index(),
    {
        self.nodes.len() - 1
    }
}

/// A player who is to act always has an action: folding or checking comes
/// first, and calling is open to a player who can fold.
pub proof fn lemma_decision_offers_action(config: &TreeConfig, s: BettingState)
    requires
        s.kind is Decision,
    ensures
        legal_actions(config, s).len() >= 1,
        legal_actions(config, s)[0] == if s.facing(s.kind->Decision_0) {
            Action::Fold
        } else {
            Action::Check
        },
        s.facing(s.kind->Decision_0) ==> legal_actions(config, s).len() >= 2 && legal_actions(
            config,
            s,
        )[1] == Action::Call,
{
}

/// Streets are played in order and none is skipped. An action either stays on
/// its street or leads to the deal of the next one; and where a betting round
/// is closed before the river, by a call or by the second player checking
/// behind, the deal of the next street follows. Hands are shown down on the
/// river only.
pub proof fn lemma_streets_in_order(config: &TreeConfig, s: BettingState, k: int)
    requires
        config.stack_ok(),
        s.wf(config),
        0 <= k < legal_actions(config, s).len(),
    ensures
        ({
            let action = legal_actions(config, s)[k];
            let t = next_state(config, s, action);
            &&& t.street == s.street || (t.street == next_street(s.street) && t.kind
                == NodeKind::Chance)
            &&& t.kind == NodeKind::Terminal(TerminalKind::Showdown) ==> t.street
                == BoardState::River
            &&& (s.street != BoardState::River && (action == Action::Call || (action
                == Action::Check && s.kind == NodeKind::Decision(PLAYER_IP)))) ==> t.kind
                == NodeKind::Chance && t.street == next_street(s.street)
            &&& (s.kind == NodeKind::Chance && s.matched < config.effective_stack) ==> t.kind
                == NodeKind::Decision(PLAYER_OOP) && t.street == s.street
        }),
{
    lemma_step(config, s, k);
    match s.kind {
        NodeKind::Decision(p) => {
            let head: int = if s.facing(p) {
                2
            } else {
                1
            };
            if k >= head {
                lemma_wager_range(config, s, p, k - head);
                assert(legal_actions(config, s)[k] == wagers(config, s, p)[k - head]);
            }
        },
        _ => {},
    }
}

/// The number of board cards that lie open in a state: those of its street,
/// less the one that a chance node is about to deal.
pub open spec fn cards_dealt(s: BettingState) -> int {
    s.street.spec_num_cards() - if s.kind == NodeKind::Chance {
        1int
    } else {
        0int
    }
}

/// Cards come onto the board at chance nodes, one at each, and nowhere else.
pub proof fn lemma_cards_dealt_step(config: &TreeConfig, s: BettingState, k: int)
    requires
        config.stack_ok(),
        s.wf(config),
        0 <= k < legal_actions(config, s).len(),
    ensures
        cards_dealt(next_state(config, s, legal_actions(config, s)[k])) == cards_dealt(s) + if s.kind
            == NodeKind::Chance {
            1int
        } else {
            0int
        },
{
    lemma_streets_in_order(config, s, k);
    match s.kind {
        NodeKind::Decision(p) => {
            let head: int = if s.facing(p) {
                2
            } else {
                1
            };
            if k >= head {
                lemma_wager_range(config, s, p, k - head);
                assert(legal_actions(config, s)[k] == wagers(config, s, p)[k - head]);
            }
        },
        _ => {},
    }
}

impl ActionTree {
    /// No decision node of a tree is without an action: the node offers what
    /// is legal in its state, beginning with fold or check.
    pub proof fn lemma_decisions_have_actions(&self, i: int)
        requires
            self.wf(),
            0 <= i < self.nodes@.len(),
            self.nodes@[i].state.kind is Decision,
        ensures
            self.nodes@[i].actions@.len() >= 1,
            self.nodes@[i].children@.len() == self.nodes@[i].actions@.len(),
            self.nodes@[i].actions@ == legal_actions(&self.config, self.nodes@[i].state),
            self.nodes@[i].actions@[0] == Action::Fold || self.nodes@[i].actions@[0]
                == Action::Check,
    {
        assert(node_ok(&self.config, self.nodes@, i));
        lemma_decision_offers_action(&self.config, self.nodes@[i].state);
    }

    /// In a tree, a node where the hands are shown down is on the river.
    pub proof fn lemma_showdown_on_river(&self, i: int)
        requires
            self.wf(),
            0 <= i < self.nodes@.len(),
            self.nodes@[i].state.kind == NodeKind::Terminal(TerminalKind::Showdown),
        ensures
            self.nodes@[i].state.street == BoardState::River,
    {
        assert(node_ok(&self.config, self.nodes@, i));
    }

    /// Before the river, checking through leads to the deal of the next
    /// street: where the first player is to act without facing a bet and both
    /// players check, the node reached is the chance node of the next street.
    /// At the root the first player is in that position.
    pub proof fn lemma_check_through_is_dealt(&self, i: int)
        requires
            self.wf(),
            0 <= i < self.nodes@.len(),
            self.nodes@[i].state.kind == NodeKind::Decision(PLAYER_OOP),
            !self.nodes@[i].state.facing(PLAYER_OOP),
            self.nodes@[i].state.street != BoardState::River,
        ensures
            ({
                let first = self.nodes@[i];
                let second = self.nodes@[first.children@[0] as int];
                let third = self.nodes@[second.children@[0] as int];
                &&& first.actions@.len() >= 1 && first.actions@[0] == Action::Check
                &&& second.state.kind == NodeKind::Decision(PLAYER_IP)
                &&& second.actions@.len() >= 1 && second.actions@[0] == Action::Check
                &&& third.state.kind == NodeKind::Chance
                &&& third.state.street == next_street(first.state.street)
                &&& third.actions@ == seq![Action::Chance(NOT_DEALT)]
            }),
            i == self.nodes@.len() - 1 ==> self.nodes@[i].state == initial_state(&self.config),
    {
        let config = &self.config;
        let first = self.nodes@[i];
        assert(node_ok(config, self.nodes@, i));
        lemma_decision_offers_action(config, first.state);
        let c = first.children@[0];
        let second = self.nodes@[c as int];
        assert(node_ok(config, self.nodes@, c as int));
        lemma_decision_offers_action(config, second.state);
        let d = second.children@[0];
        assert(node_ok(config, self.nodes@, d as int));
    }

    /// After a deal play goes on with the first player on the street that was
    /// dealt. Only where no chips are left to bet is the next card dealt at
    /// once, or the hands shown down after the river card.
    pub proof fn lemma_deal_leads_on(&self, i: int)
        requires
            self.wf(),
            0 <= i < self.nodes@.len(),
            self.nodes@[i].state.kind == NodeKind::Chance,
        ensures
            ({
                let node = self.nodes@[i];
                let child = self.nodes@[node.children@[0] as int];
                &&& node.children@.len() == 1
                &&& node.state.matched < self.config.effective_stack ==> {
                    &&& child.state.kind == NodeKind::Decision(PLAYER_OOP)
                    &&& child.state.street == node.state.street
                    &&& !child.state.facing(PLAYER_OOP)
                }
                &&& (node.state.matched == self.config.effective_stack && node.state.street
                    == BoardState::Turn) ==> {
                    &&& child.state.kind == NodeKind::Chance
                    &&& child.state.street == BoardState::River
                }
                &&& (node.state.matched == self.config.effective_stack && node.state.street
                    == BoardState::River) ==> child.state.kind == NodeKind::Terminal(
                    TerminalKind::Showdown,
                )
            }),
    {
        let config = &self.config;
        let node = self.nodes@[i];
        assert(node_ok(config, self.nodes@, i));
        let c = node.children@[0];
        assert(node_ok(config, self.nodes@, c as int));
    }
}

} // verus!
