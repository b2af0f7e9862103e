use postflop_solver::action_tree::{Action, ActionTree, NodeKind, TerminalKind, TreeConfig};
use postflop_solver::bet_size::{BetSize, BetSizeOptions};
use postflop_solver::card::{card_from_str, flop_from_str, BoardState, Card, NOT_DEALT};
use postflop_solver::error::{Error, ErrorKind};
use postflop_solver::game::{
    make_board, CardConfig, NodeContext, PostFlopGame, PLAYER_CHANCE, PLAYER_NONE,
};
use postflop_solver::hand::{Hand, NUM_HANDS};
use postflop_solver::range::Range;

fn full_range() -> Range {
    Range::from_codes(vec![1; NUM_HANDS]).unwrap()
}

fn range_of(hands: &[&str]) -> Range {
    let mut range = Range::new();
    for text in hands {
        let a = card_from_str(&text[..2]).unwrap();
        let b = card_from_str(&text[2..]).unwrap();
        range.set_weight((a.max(b), a.min(b)), 1);
    }
    range
}

fn sizes() -> [BetSizeOptions; 2] {
    let make = || BetSizeOptions {
        bet: vec![BetSize::PotRelative(600), BetSize::Geometric(0, u32::MAX), BetSize::AllIn],
        raise: vec![BetSize::PrevBetRelative(2500)],
    };
    [make(), make()]
}

fn tree(initial_state: BoardState) -> ActionTree {
    ActionTree::new(TreeConfig {
        initial_state,
        starting_pot: 200,
        effective_stack: 900,
        flop_bet_sizes: sizes(),
        turn_bet_sizes: sizes(),
        river_bet_sizes: sizes(),
        ..Default::default()
    })
    .unwrap()
}

fn cards(flop: &str, turn: Card, river: Card) -> CardConfig {
    CardConfig {
        range: [full_range(), full_range()],
        flop: flop_from_str(flop).unwrap(),
        turn,
        river,
    }
}

fn example_game() -> PostFlopGame {
    let turn = card_from_str("Qc").unwrap();
    PostFlopGame::with_config(cards("Td9d6h", turn, NOT_DEALT), tree(BoardState::Turn)).unwrap()
}

fn fault(config: CardConfig, initial_state: BoardState) -> Option<Error> {
    PostFlopGame::with_config(config, tree(initial_state)).err()
}

#[test]
fn board_is_flop_then_turn_then_river() {
    assert_eq!(make_board(&[18, 29, 33], NOT_DEALT, NOT_DEALT), vec![18, 29, 33]);
    assert_eq!(make_board(&[18, 29, 33], 40, NOT_DEALT), vec![18, 29, 33, 40]);
    assert_eq!(make_board(&[18, 29, 33], 40, 3), vec![18, 29, 33, 40, 3]);
}

#[test]
fn game_starts_at_the_root() {
    let game = example_game();
    assert_eq!(game.node, game.tree.nodes.len() - 1);
    assert_eq!(game.current_board(), vec![18, 29, 33, 40]);
    assert_eq!(game.current_player(), 0);
    assert!(game.history().is_empty());
    assert!(!game.is_terminal_node());
    assert!(!game.is_chance_node());
    assert_eq!(
        game.available_actions(),
        vec![Action::Check, Action::Bet(120), Action::Bet(216), Action::AllIn(900)]
    );
    // 48 cards are left for the hands
    assert_eq!(game.num_private_hands(0), 48 * 47 / 2);
    assert_eq!(game.private_cards(1).len(), 48 * 47 / 2);
    assert!(game.private_cards(0).iter().all(|h| ![18, 29, 33, 40].contains(&h.0)
        && ![18, 29, 33, 40].contains(&h.1)));
}

#[test]
fn invalid_cards_are_rejected() {
    let mut config = cards("Td9d6h", NOT_DEALT, NOT_DEALT);
    config.flop[1] = 52;
    assert_eq!(fault(config, BoardState::Flop), Some(Error::InvalidCard));
    let mut config = cards("Td9d6h", NOT_DEALT, NOT_DEALT);
    config.flop[2] = NOT_DEALT;
    assert_eq!(fault(config, BoardState::Flop), Some(Error::InvalidCard));
    assert_eq!(fault(cards("Td9d6h", 52, NOT_DEALT), BoardState::Turn), Some(Error::InvalidCard));
    assert_eq!(fault(cards("Td9d6h", 40, 200), BoardState::River), Some(Error::InvalidCard));
    assert_eq!(Error::InvalidCard.kind(), ErrorKind::ConfigConflict);
}

#[test]
fn repeated_cards_are_rejected() {
    let mut config = cards("Td9d6h", NOT_DEALT, NOT_DEALT);
    config.flop[0] = config.flop[2];
    assert_eq!(fault(config, BoardState::Flop), Some(Error::DuplicateCard));
    assert_eq!(fault(cards("Td9d6h", 33, NOT_DEALT), BoardState::Turn), Some(Error::DuplicateCard));
    assert_eq!(fault(cards("Td9d6h", 40, 18), BoardState::River), Some(Error::DuplicateCard));
    assert_eq!(fault(cards("Td9d6h", 40, 40), BoardState::River), Some(Error::DuplicateCard));
}

#[test]
fn streets_must_fit_together() {
    // a river without a turn
    assert_eq!(
        fault(cards("Td9d6h", NOT_DEALT, 3), BoardState::River),
        Some(Error::InconsistentStreet)
    );
    assert_eq!(
        fault(cards("Td9d6h", NOT_DEALT, 3), BoardState::Flop),
        Some(Error::InconsistentStreet)
    );
    // a tree for another street than the cards
    assert_eq!(
        fault(cards("Td9d6h", 40, NOT_DEALT), BoardState::Flop),
        Some(Error::InconsistentStreet)
    );
    assert_eq!(
        fault(cards("Td9d6h", 40, NOT_DEALT), BoardState::River),
        Some(Error::InconsistentStreet)
    );
    assert_eq!(
        fault(cards("Td9d6h", NOT_DEALT, NOT_DEALT), BoardState::Turn),
        Some(Error::InconsistentStreet)
    );
    assert_eq!(fault(cards("Td9d6h", 40, 3), BoardState::Turn), Some(Error::InconsistentStreet));
    assert_eq!(fault(cards("Td9d6h", 40, 3), BoardState::River), None);
    assert_eq!(fault(cards("Td9d6h", 40, NOT_DEALT), BoardState::Turn), None);
    assert_eq!(fault(cards("Td9d6h", NOT_DEALT, NOT_DEALT), BoardState::Flop), None);
    assert_eq!(Error::InconsistentStreet.kind(), ErrorKind::ConfigConflict);
}

#[test]
fn a_player_without_a_hand_is_rejected() {
    let mut config = cards("Td9d6h", 40, NOT_DEALT);
    config.range[1] = Range::new();
    assert_eq!(fault(config, BoardState::Turn), Some(Error::NoCombination));
    // the one hand of the range holds the turn card
    let mut config = cards("Td9d6h", 40, NOT_DEALT);
    config.range[0] = range_of(&["QcQd"]);
    assert_eq!(fault(config, BoardState::Turn), Some(Error::NoCombination));
    let mut config = cards("Td9d6h", 40, NOT_DEALT);
    config.range[0] = range_of(&["QhQd"]);
    assert_eq!(fault(config, BoardState::Turn), None);
    assert_eq!(Error::NoCombination.kind(), ErrorKind::ConfigConflict);
}

#[test]
fn private_cards_are_the_hands_off_the_board() {
    let range = || range_of(&["AsAh", "KsKh", "QsQh"]);
    let config = CardConfig {
        range: [range(), range()],
        flop: flop_from_str("2c2d2h").unwrap(),
        turn: card_from_str("3c").unwrap(),
        river: NOT_DEALT,
    };
    let game = PostFlopGame::with_config(
        config,
        ActionTree::new(TreeConfig {
            initial_state: BoardState::Turn,
            starting_pot: 2,
            effective_stack: 0,
            ..Default::default()
        })
        .unwrap(),
    )
    .unwrap();
    let expected: Vec<Hand> = vec![(43, 42), (47, 46), (51, 50)];
    assert_eq!(game.private_cards(0), &expected);
    assert_eq!(game.private_cards(1), &expected);
    assert_eq!(game.available_actions(), vec![Action::Check]);
}

#[test]
fn play_out_of_range_is_an_error() {
    let mut game = example_game();
    let node = game.node;
    assert_eq!(game.play(4), Err(Error::InvalidAction));
    assert_eq!(game.play(usize::MAX), Err(Error::InvalidAction));
    assert_eq!(game.node, node);
    assert!(game.history().is_empty());
    assert_eq!(game.current_board(), vec![18, 29, 33, 40]);
    assert_eq!(Error::InvalidAction.kind(), ErrorKind::InputParse);
    // at a chance node there are as many actions as cards to deal
    assert_eq!(game.play(0), Ok(()));
    assert_eq!(game.play(0), Ok(()));
    assert!(game.is_chance_node());
    assert_eq!(game.play(48), Err(Error::InvalidAction));
    assert_eq!(game.play(47), Ok(()));
    // at a terminal node there is none
    game.back_to_root();
    assert_eq!(game.play(1), Ok(()));
    assert_eq!(game.play(0), Ok(()));
    assert!(game.is_terminal_node());
    assert_eq!(game.play(0), Err(Error::InvalidAction));
    assert_eq!(game.history(), &vec![1, 0]);
}

#[test]
fn play_descends_and_deals() {
    let mut game = example_game();
    assert_eq!(game.play(1), Ok(()));
    assert_eq!(game.current_player(), 1);
    assert_eq!(
        game.available_actions(),
        vec![Action::Fold, Action::Call, Action::Raise(300)]
    );
    assert_eq!(game.play(1), Ok(()));
    assert_eq!(game.current_player(), PLAYER_CHANCE);
    assert!(game.is_chance_node());
    let actions = game.available_actions();
    assert_eq!(actions.len(), 48);
    assert_eq!(actions[0], Action::Chance(0));
    assert_eq!(actions[47], Action::Chance(51));
    assert!(!actions.contains(&Action::Chance(40)));
    // the card with number 3 among those left is the deuce of spades
    assert_eq!(game.play(3), Ok(()));
    assert_eq!(game.current_board(), vec![18, 29, 33, 40, 3]);
    assert_eq!(game.current_player(), 0);
    assert_eq!(game.history(), &vec![1, 1, 3]);
    assert_eq!(
        game.available_actions(),
        vec![Action::Check, Action::Bet(264), Action::AllIn(780)]
    );
    assert_eq!(game.play(0), Ok(()));
    assert_eq!(game.play(0), Ok(()));
    assert!(game.is_terminal_node());
    assert_eq!(game.current_player(), PLAYER_NONE);
    assert_eq!(
        game.tree.nodes[game.node].state.kind,
        NodeKind::Terminal(TerminalKind::Showdown)
    );
    assert!(game.available_actions().is_empty());
}

#[test]
fn back_to_root_from_any_cursor() {
    let paths: [&[usize]; 5] = [&[], &[0], &[1, 1], &[1, 1, 7, 0, 0], &[3, 0]];
    for path in paths {
        let mut game = example_game();
        let root = game.node;
        for &k in path {
            assert_eq!(game.play(k), Ok(()));
        }
        assert_eq!(game.history().len(), path.len());
        game.back_to_root();
        assert_eq!(game.node, root);
        assert!(game.history().is_empty());
        assert_eq!(game.current_board(), vec![18, 29, 33, 40]);
        assert_eq!(game.current_player(), 0);
        assert_eq!(game.available_actions().len(), 4);
    }
}

#[test]
fn flop_game_deals_turn_and_river() {
    let mut game = PostFlopGame::with_config(
        cards("Td9d6h", NOT_DEALT, NOT_DEALT),
        tree(BoardState::Flop),
    )
    .unwrap();
    assert_eq!(game.current_board(), vec![18, 29, 33]);
    assert_eq!(game.play(0), Ok(()));
    assert_eq!(game.play(0), Ok(()));
    assert!(game.is_chance_node());
    assert_eq!(game.available_actions().len(), 49);
    assert_eq!(game.play(0), Ok(()));
    assert_eq!(game.current_board(), vec![18, 29, 33, 0]);
    assert_eq!(game.play(0), Ok(()));
    assert_eq!(game.play(0), Ok(()));
    assert!(game.is_chance_node());
    assert_eq!(game.available_actions().len(), 48);
    assert_eq!(game.play(0), Ok(()));
    assert_eq!(game.current_board(), vec![18, 29, 33, 0, 1]);
    assert_eq!(game.play(0), Ok(()));
    assert_eq!(game.play(0), Ok(()));
    assert!(game.is_terminal_node());
    game.back_to_root();
    assert_eq!(game.current_board(), vec![18, 29, 33]);
}

#[test]
fn all_in_on_the_flop_runs_the_board_out() {
    let mut game = PostFlopGame::with_config(
        cards("Td9d6h", NOT_DEALT, NOT_DEALT),
        tree(BoardState::Flop),
    )
    .unwrap();
    let all_in = game.available_actions().len() - 1;
    assert_eq!(game.available_actions()[all_in], Action::AllIn(900));
    assert_eq!(game.play(all_in), Ok(()));
    assert_eq!(game.play(1), Ok(()));
    assert!(game.is_chance_node());
    assert_eq!(game.play(10), Ok(()));
    assert!(game.is_chance_node());
    assert_eq!(game.play(10), Ok(()));
    assert!(game.is_terminal_node());
    assert_eq!(game.current_board().len(), 5);
}

fn check_only_tree(initial_state: BoardState) -> ActionTree {
    ActionTree::new(TreeConfig {
        initial_state,
        starting_pot: 100,
        effective_stack: 100,
        ..Default::default()
    })
    .unwrap()
}

#[test]
fn decision_nodes_with_the_cards_on_the_way() {
    // on this board no two suits are alike: 48 river cards are dealt
    let game = PostFlopGame::with_config(
        cards("Td9d6h", card_from_str("Qc").unwrap(), NOT_DEALT),
        check_only_tree(BoardState::Turn),
    )
    .unwrap();
    let contexts = game.decision_contexts();
    assert_eq!(contexts.len(), 2 + 48 * 2);
    let root = game.tree.nodes.len() - 1;
    assert_eq!(contexts[0], NodeContext { node: root, turn: 40, river: NOT_DEALT });
    assert_eq!(contexts[1].river, NOT_DEALT);
    assert_eq!(contexts[2].river, 0);
    assert_eq!(contexts[3].river, 0);
    assert_eq!(contexts[4].river, 1);
    assert!(contexts
        .iter()
        .all(|c| matches!(game.tree.nodes[c.node].state.kind, NodeKind::Decision(_))));
    assert!(contexts.iter().all(|c| c.turn == 40));
    let mut keys: Vec<_> = contexts.iter().map(|c| (c.node, c.turn, c.river)).collect();
    keys.sort();
    keys.dedup();
    assert_eq!(keys.len(), contexts.len());
}

#[test]
fn alike_suits_are_dealt_once() {
    // after AdKdQd the clubs stand for hearts and spades on the turn
    let game = PostFlopGame::with_config(
        cards("AdKdQd", NOT_DEALT, NOT_DEALT),
        check_only_tree(BoardState::Flop),
    )
    .unwrap();
    let turns = game.deals(NOT_DEALT, NOT_DEALT);
    assert_eq!(turns.len(), 23);
    assert_eq!(turns.iter().map(|d| d.multiplicity as usize).sum::<usize>(), 49);
    // after a diamond on the turn the three suits are still alike; after a
    // club, hearts and spades are
    let after_diamond = game.deals(1, NOT_DEALT);
    assert_eq!(after_diamond.len(), 9 + 13);
    let after_club = game.deals(0, NOT_DEALT);
    assert_eq!(after_club.len(), 10 + 12 + 13);
    assert_eq!(after_club.iter().map(|d| d.multiplicity as usize).sum::<usize>(), 48);
    let contexts = game.decision_contexts();
    let rivers: usize = turns.iter().map(|t| game.deals(t.card, NOT_DEALT).len()).sum();
    assert_eq!(contexts.len(), 2 + 2 * turns.len() + 2 * rivers);
    // a game on the river has its two decisions only
    let game = PostFlopGame::with_config(cards("AdKdQd", 0, 4), check_only_tree(BoardState::River))
        .unwrap();
    assert_eq!(game.decision_contexts().len(), 2);
}

#[test]
fn twins_of_hands_under_an_exchange_of_suits() {
    let mut config = cards("AdKdQd", NOT_DEALT, NOT_DEALT);
    config.range[0] = range_of(&["7c6c", "7h6h", "7s6s", "AsAh", "AcAh", "AsAc", "9c9s"]);
    let game = PostFlopGame::with_config(config, check_only_tree(BoardState::Flop)).unwrap();
    let hands = game.private_cards(0).clone();
    // in the order of the hands' numbers
    assert_eq!(
        hands,
        vec![(20, 16), (22, 18), (23, 19), (31, 28), (50, 48), (51, 48), (51, 50)]
    );
    // clubs and spades exchanged: 7c6c and 7s6s, AcAh and AsAh change places
    assert_eq!(
        game.twin_positions(0, 0, 3),
        vec![Some(2), Some(1), Some(0), Some(3), Some(6), Some(5), Some(4)]
    );
    // clubs and hearts exchanged: the nines with a heart are not in the range
    assert_eq!(
        game.twin_positions(0, 0, 2),
        vec![Some(1), Some(0), Some(2), None, Some(4), Some(6), Some(5)]
    );
    assert_eq!(game.twin_positions(0, 1, 1), (0..7).map(Some).collect::<Vec<_>>());
    assert_eq!(game.twin_positions(1, 2, 3).len(), game.num_private_hands(1));
}
