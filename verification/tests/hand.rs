use postflop_solver::hand::{
    hand_to_index, index_to_hand, is_blocked, unblocked_positions, NUM_HANDS,
};

#[test]
fn hands_are_numbered_by_high_card_then_low_card() {
    assert_eq!(hand_to_index(1, 0), 0);
    assert_eq!(hand_to_index(2, 0), 1);
    assert_eq!(hand_to_index(2, 1), 2);
    assert_eq!(hand_to_index(3, 0), 3);
    assert_eq!(hand_to_index(51, 0), 1275);
    assert_eq!(hand_to_index(51, 50), 1325);
    assert_eq!(index_to_hand(0), (1, 0));
    assert_eq!(index_to_hand(2), (2, 1));
    assert_eq!(index_to_hand(1325), (51, 50));
}

#[test]
fn numbering_is_one_to_one() {
    let mut next = 0;
    for high in 1u8..52 {
        for low in 0..high {
            assert_eq!(hand_to_index(high, low), next);
            assert_eq!(index_to_hand(next), (high, low));
            next += 1;
        }
    }
    assert_eq!(next, NUM_HANDS);
}

#[test]
fn a_hand_is_blocked_by_a_board_card_it_holds() {
    let board = vec![18, 29, 33, 40];
    assert!(is_blocked((33, 2), &board));
    assert!(is_blocked((50, 18), &board));
    assert!(is_blocked((40, 29), &board));
    assert!(!is_blocked((51, 50), &board));
    assert!(!is_blocked((51, 50), &vec![]));
}

#[test]
fn hands_left_after_a_deal() {
    let hands = vec![(5, 1), (7, 5), (9, 8), (40, 5), (51, 50)];
    assert_eq!(unblocked_positions(&hands, 5), vec![2, 4]);
    assert_eq!(unblocked_positions(&hands, 50), vec![0, 1, 2, 3]);
    // no hand holds the card: every hand is left, in place
    assert_eq!(unblocked_positions(&hands, 30), vec![0, 1, 2, 3, 4]);
    assert_eq!(unblocked_positions(&vec![], 30), Vec::<usize>::new());
    let all: Vec<_> = (0..NUM_HANDS).map(index_to_hand).collect();
    assert_eq!(unblocked_positions(&all, 17).len(), 51 * 50 / 2);
}
