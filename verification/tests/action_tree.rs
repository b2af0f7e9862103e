use postflop_solver::action_tree::{
    actions_at, state_after, Action, ActionTree, ActionTreeNode, BettingState, NodeKind,
    TerminalKind, TreeConfig, PLAYER_IP, PLAYER_OOP,
};
use postflop_solver::bet_size::{BetSize, BetSizeOptions};
use postflop_solver::card::{BoardState, NOT_DEALT};
use postflop_solver::error::{Error, ErrorKind};

fn options(bet: Vec<BetSize>, raise: Vec<BetSize>) -> [BetSizeOptions; 2] {
    [
        BetSizeOptions { bet: bet.clone(), raise: raise.clone() },
        BetSizeOptions { bet, raise },
    ]
}

fn example_sizes() -> [BetSizeOptions; 2] {
    options(
        vec![BetSize::PotRelative(600), BetSize::Geometric(0, u32::MAX), BetSize::AllIn],
        vec![BetSize::PrevBetRelative(2500)],
    )
}

fn example_config(initial_state: BoardState) -> TreeConfig {
    TreeConfig {
        initial_state,
        starting_pot: 200,
        effective_stack: 900,
        flop_bet_sizes: example_sizes(),
        turn_bet_sizes: example_sizes(),
        river_bet_sizes: example_sizes(),
        ..Default::default()
    }
}

fn check_only_config(initial_state: BoardState, starting_pot: i32, stack: i32) -> TreeConfig {
    TreeConfig { initial_state, starting_pot, effective_stack: stack, ..Default::default() }
}

fn root(tree: &ActionTree) -> &ActionTreeNode {
    tree.nodes.last().unwrap()
}

fn child<'a>(tree: &'a ActionTree, node: &ActionTreeNode, action: Action) -> &'a ActionTreeNode {
    let k = node.actions.iter().position(|a| *a == action).unwrap();
    &tree.nodes[node.children[k]]
}

#[test]
fn default_settings() {
    let config = TreeConfig::default();
    assert_eq!(config.initial_state, BoardState::Flop);
    assert_eq!(config.starting_pot, 0);
    assert_eq!(config.effective_stack, 0);
    assert_eq!(config.add_allin_threshold, 0);
    assert_eq!(config.force_allin_threshold, 0);
    assert_eq!(config.merging_threshold, 0);
    assert!(config.donk_option);
    assert_eq!(config.raise_cap, 4);
    assert!(config.flop_bet_sizes[0].bet.is_empty());
    assert!(config.river_bet_sizes[1].raise.is_empty());
}

#[test]
fn settings_without_a_pot_are_rejected() {
    assert_eq!(ActionTree::new(TreeConfig::default()).err(), Some(Error::InvalidStack));
    let config = check_only_config(BoardState::Turn, 0, 100);
    assert_eq!(ActionTree::new(config).err(), Some(Error::InvalidStack));
    let config = check_only_config(BoardState::Turn, -5, 100);
    assert_eq!(ActionTree::new(config).err(), Some(Error::InvalidStack));
    let config = check_only_config(BoardState::Turn, 10, -1);
    assert_eq!(ActionTree::new(config).err(), Some(Error::InvalidStack));
    assert_eq!(Error::InvalidStack.kind(), ErrorKind::ConfigConflict);
}

#[test]
fn geometric_size_over_too_many_streets_is_rejected() {
    let mut config = example_config(BoardState::Turn);
    config.river_bet_sizes[1].raise.push(BetSize::Geometric(4, 1000));
    assert_eq!(config.validate(), Err(Error::InvalidBetSize));
    assert_eq!(ActionTree::new(config).err(), Some(Error::InvalidBetSize));
    let mut config = example_config(BoardState::Turn);
    config.river_bet_sizes[1].raise.push(BetSize::Geometric(3, 1000));
    assert_eq!(config.validate(), Ok(()));
    // the pot is looked at before the sizes
    let mut config = check_only_config(BoardState::Turn, 0, 100);
    config.flop_bet_sizes[0].bet.push(BetSize::Geometric(9, 1000));
    assert_eq!(ActionTree::new(config).err(), Some(Error::InvalidStack));
}

#[test]
fn stack_of_zero_is_accepted() {
    let tree = ActionTree::new(check_only_config(BoardState::Turn, 2, 0)).unwrap();
    assert_eq!(root(&tree).actions, vec![Action::Check]);
}

#[test]
fn root_is_the_first_player_on_the_initial_street() {
    for street in [BoardState::Flop, BoardState::Turn, BoardState::River] {
        let tree = ActionTree::new(check_only_config(street, 10, 100)).unwrap();
        let state = root(&tree).state;
        assert_eq!(state.kind, NodeKind::Decision(PLAYER_OOP));
        assert_eq!(state.street, street);
        assert_eq!((state.matched, state.committed_oop, state.committed_ip), (0, 0, 0));
    }
}

#[test]
fn turn_example_root_actions() {
    let tree = ActionTree::new(example_config(BoardState::Turn)).unwrap();
    let root = root(&tree);
    assert_eq!(
        root.actions,
        vec![Action::Check, Action::Bet(120), Action::Bet(216), Action::AllIn(900)]
    );
    let after_bet = child(&tree, root, Action::Bet(120));
    assert_eq!(after_bet.state.kind, NodeKind::Decision(PLAYER_IP));
    assert_eq!(after_bet.state.committed_oop, 120);
    assert_eq!(after_bet.actions, vec![Action::Fold, Action::Call, Action::Raise(300)]);
    let after_raise = child(&tree, after_bet, Action::Raise(300));
    assert_eq!(after_raise.state.kind, NodeKind::Decision(PLAYER_OOP));
    assert_eq!(after_raise.state.raises, 1);
    assert_eq!(after_raise.actions, vec![Action::Fold, Action::Call, Action::Raise(750)]);
    // a raise to 2.5 times 750 is more than the stack: all in
    let after_reraise = child(&tree, after_raise, Action::Raise(750));
    assert_eq!(after_reraise.actions, vec![Action::Fold, Action::Call, Action::AllIn(900)]);
    let all_in = child(&tree, after_reraise, Action::AllIn(900));
    assert_eq!(all_in.actions, vec![Action::Fold, Action::Call]);
}

#[test]
fn fold_ends_the_hand_with_the_chips_put_in() {
    let tree = ActionTree::new(example_config(BoardState::Turn)).unwrap();
    let after_bet = child(&tree, root(&tree), Action::Bet(120));
    let folded = child(&tree, after_bet, Action::Fold);
    assert_eq!(folded.state.kind, NodeKind::Terminal(TerminalKind::Fold(PLAYER_IP)));
    assert_eq!((folded.state.committed_oop, folded.state.committed_ip), (120, 0));
    assert!(folded.actions.is_empty());
    assert!(folded.children.is_empty());
    let raised = child(&tree, after_bet, Action::Raise(300));
    let folded = child(&tree, raised, Action::Fold);
    assert_eq!(folded.state.kind, NodeKind::Terminal(TerminalKind::Fold(PLAYER_OOP)));
    assert_eq!((folded.state.committed_oop, folded.state.committed_ip), (120, 300));
}

#[test]
fn call_before_the_river_leads_to_the_deal() {
    let tree = ActionTree::new(example_config(BoardState::Turn)).unwrap();
    let after_bet = child(&tree, root(&tree), Action::Bet(120));
    let called = child(&tree, after_bet, Action::Call);
    assert_eq!(called.state.kind, NodeKind::Chance);
    assert_eq!(called.state.street, BoardState::River);
    assert_eq!(called.state.matched, 120);
    assert_eq!(called.actions, vec![Action::Chance(NOT_DEALT)]);
    let river = &tree.nodes[called.children[0]];
    assert_eq!(river.state.kind, NodeKind::Decision(PLAYER_OOP));
    assert_eq!(river.state.street, BoardState::River);
    // the pot is 440 and 780 are left: 60% is 264, one street left makes the
    // geometric bet all in
    assert_eq!(river.actions, vec![Action::Check, Action::Bet(264), Action::AllIn(780)]);
}

#[test]
fn call_on_the_river_leads_to_showdown() {
    let tree = ActionTree::new(example_config(BoardState::River)).unwrap();
    let after_bet = child(&tree, root(&tree), Action::Bet(120));
    let called = child(&tree, after_bet, Action::Call);
    assert_eq!(called.state.kind, NodeKind::Terminal(TerminalKind::Showdown));
    assert_eq!((called.state.committed_oop, called.state.committed_ip), (120, 120));
    let checked = child(&tree, child(&tree, root(&tree), Action::Check), Action::Check);
    assert_eq!(checked.state.kind, NodeKind::Terminal(TerminalKind::Showdown));
    assert_eq!((checked.state.committed_oop, checked.state.committed_ip), (0, 0));
}

#[test]
fn all_in_and_call_deals_the_rest_of_the_board() {
    let tree = ActionTree::new(example_config(BoardState::Flop)).unwrap();
    let shoved = child(&tree, root(&tree), Action::AllIn(900));
    assert_eq!(shoved.actions, vec![Action::Fold, Action::Call]);
    let turn = child(&tree, shoved, Action::Call);
    assert_eq!((turn.state.kind, turn.state.street), (NodeKind::Chance, BoardState::Turn));
    let river = &tree.nodes[turn.children[0]];
    assert_eq!((river.state.kind, river.state.street), (NodeKind::Chance, BoardState::River));
    let end = &tree.nodes[river.children[0]];
    assert_eq!(end.state.kind, NodeKind::Terminal(TerminalKind::Showdown));
    assert_eq!(end.state.street, BoardState::River);
    assert_eq!((end.state.committed_oop, end.state.committed_ip), (900, 900));
}

fn walk(tree: &ActionTree, index: usize, seen: &mut Vec<bool>) {
    seen[index] = true;
    let node = &tree.nodes[index];
    assert_eq!(node.actions.len(), node.children.len());
    assert_eq!(node.actions, actions_at(&tree.config, &node.state));
    match node.state.kind {
        NodeKind::Decision(player) => {
            assert!(player <= 1);
            assert!(!node.actions.is_empty(), "decision node without action");
            assert!(matches!(node.actions[0], Action::Fold | Action::Check));
        }
        NodeKind::Chance => {
            assert_eq!(node.actions, vec![Action::Chance(NOT_DEALT)]);
            assert_ne!(node.state.street, BoardState::Flop);
        }
        NodeKind::Terminal(kind) => {
            assert!(node.actions.is_empty());
            if kind == TerminalKind::Showdown {
                assert_eq!(node.state.street, BoardState::River);
                assert_eq!(node.state.committed_oop, node.state.committed_ip);
            }
        }
    }
    for (k, &c) in node.children.iter().enumerate() {
        assert!(c < index);
        let next = state_after(&tree.config, &node.state, node.actions[k]);
        assert_eq!(tree.nodes[c].state, next);
        let same_street = tree.nodes[c].state.street == node.state.street;
        assert!(same_street || tree.nodes[c].state.kind == NodeKind::Chance);
        walk(tree, c, seen);
    }
}

#[test]
fn every_node_unfolds_from_its_state() {
    for street in [BoardState::Flop, BoardState::Turn, BoardState::River] {
        let tree = ActionTree::new(example_config(street)).unwrap();
        let mut seen = vec![false; tree.nodes.len()];
        walk(&tree, tree.nodes.len() - 1, &mut seen);
        assert!(seen.iter().all(|&s| s));
    }
}

#[test]
fn later_streets_are_dealt() {
    let count = |street: BoardState, dealt: BoardState| {
        let tree = ActionTree::new(example_config(street)).unwrap();
        tree.nodes
            .iter()
            .filter(|n| n.state.kind == NodeKind::Chance && n.state.street == dealt)
            .count()
    };
    assert!(count(BoardState::Flop, BoardState::Turn) > 0);
    assert!(count(BoardState::Flop, BoardState::River) > 0);
    assert_eq!(count(BoardState::Turn, BoardState::Turn), 0);
    assert!(count(BoardState::Turn, BoardState::River) > 0);
    assert_eq!(count(BoardState::River, BoardState::Turn), 0);
    assert_eq!(count(BoardState::River, BoardState::River), 0);
}

#[test]
fn check_only_tree() {
    let tree = ActionTree::new(check_only_config(BoardState::Turn, 200, 900)).unwrap();
    // check, check, deal, check, check, showdown
    assert_eq!(tree.nodes.len(), 6);
    let kinds: Vec<NodeKind> = tree.nodes.iter().rev().map(|n| n.state.kind).collect();
    assert_eq!(
        kinds,
        vec![
            NodeKind::Decision(PLAYER_OOP),
            NodeKind::Decision(PLAYER_IP),
            NodeKind::Chance,
            NodeKind::Decision(PLAYER_OOP),
            NodeKind::Decision(PLAYER_IP),
            NodeKind::Terminal(TerminalKind::Showdown),
        ]
    );
    // with nothing behind, the river is dealt and the hands are shown down
    let tree = ActionTree::new(check_only_config(BoardState::Turn, 2, 0)).unwrap();
    let kinds: Vec<NodeKind> = tree.nodes.iter().rev().map(|n| n.state.kind).collect();
    assert_eq!(
        kinds,
        vec![
            NodeKind::Decision(PLAYER_OOP),
            NodeKind::Decision(PLAYER_IP),
            NodeKind::Chance,
            NodeKind::Terminal(TerminalKind::Showdown),
        ]
    );
}

#[test]
fn raises_are_capped() {
    let sizes = || options(vec![BetSize::Fixed(10)], vec![BetSize::Fixed(10)]);
    let mut config = check_only_config(BoardState::River, 100, 1000);
    config.river_bet_sizes = sizes();
    config.raise_cap = 2;
    let tree = ActionTree::new(config).unwrap();
    let bet = child(&tree, root(&tree), Action::Bet(10));
    assert_eq!(bet.actions, vec![Action::Fold, Action::Call, Action::Raise(20)]);
    let raise = child(&tree, bet, Action::Raise(20));
    assert_eq!(raise.actions, vec![Action::Fold, Action::Call, Action::Raise(30)]);
    let reraise = child(&tree, raise, Action::Raise(30));
    assert_eq!(reraise.state.raises, 2);
    assert_eq!(reraise.actions, vec![Action::Fold, Action::Call]);
    // four raises where nothing else is set
    let mut config = check_only_config(BoardState::River, 100, 1000);
    config.river_bet_sizes = sizes();
    let tree = ActionTree::new(config).unwrap();
    let most = tree.nodes.iter().map(|n| n.state.raises).max();
    assert_eq!(most, Some(4));
}

#[test]
fn raise_is_at_least_the_raise_before() {
    let mut config = check_only_config(BoardState::River, 100, 1000);
    config.river_bet_sizes = options(vec![BetSize::Fixed(50)], vec![BetSize::Fixed(1)]);
    let tree = ActionTree::new(config).unwrap();
    let bet = child(&tree, root(&tree), Action::Bet(50));
    // a raise by one chip is made a raise by the 50 of the bet
    assert_eq!(bet.actions, vec![Action::Fold, Action::Call, Action::Raise(100)]);
    let raise = child(&tree, bet, Action::Raise(100));
    assert_eq!(raise.actions, vec![Action::Fold, Action::Call, Action::Raise(150)]);
}

#[test]
fn leading_out_can_be_forbidden() {
    let build = |donk_option: bool| {
        let mut config = example_config(BoardState::Turn);
        config.donk_option = donk_option;
        ActionTree::new(config).unwrap()
    };
    for donk_option in [true, false] {
        let tree = build(donk_option);
        // the second player bets, the first calls: the first is to act on the
        // river after calling
        let checked = child(&tree, root(&tree), Action::Check);
        let bet = child(&tree, checked, Action::Bet(120));
        let deal = child(&tree, bet, Action::Call);
        assert!(deal.state.oop_called);
        let river = &tree.nodes[deal.children[0]];
        assert_eq!(river.actions.len() > 1, donk_option);
        assert_eq!(river.actions[0], Action::Check);
        // after a check the second player may bet either way
        let second = child(&tree, river, Action::Check);
        assert!(second.actions.len() > 1);
        // the first player bets, the second calls: no lead to forbid
        let bet = child(&tree, root(&tree), Action::Bet(120));
        let deal = child(&tree, bet, Action::Call);
        assert!(!deal.state.oop_called);
        assert!(tree.nodes[deal.children[0]].actions.len() > 1);
    }
}

#[test]
fn actions_of_a_state_given_by_hand() {
    let config = example_config(BoardState::Turn);
    let state = BettingState {
        kind: NodeKind::Decision(PLAYER_IP),
        street: BoardState::Turn,
        matched: 0,
        committed_oop: 216,
        committed_ip: 0,
        raises: 0,
        oop_called: false,
    };
    let actions = actions_at(&config, &state);
    assert_eq!(actions, vec![Action::Fold, Action::Call, Action::Raise(540)]);
    let next = state_after(&config, &state, actions[2]);
    assert_eq!(next.kind, NodeKind::Decision(PLAYER_OOP));
    assert_eq!((next.committed_oop, next.committed_ip, next.raises), (216, 540, 1));
    let next = state_after(&config, &state, actions[1]);
    assert_eq!(next.kind, NodeKind::Chance);
    assert_eq!((next.matched, next.street, next.oop_called), (216, BoardState::River, false));
}
