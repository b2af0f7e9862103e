use postflop_solver::error::{Error, ErrorKind};
use postflop_solver::hand::{hand_to_index, NUM_HANDS};
use postflop_solver::range::Range;

fn card(rank: u8, suit: u8) -> u8 {
    4 * rank + suit
}

#[test]
fn new_range_is_empty() {
    let range = Range::new();
    assert!(range.is_empty());
    assert_eq!(range.weight((51, 50)), 0);
    assert_eq!(range.hands(&vec![]), vec![]);
}

#[test]
fn range_needs_a_code_for_each_hand() {
    assert_eq!(Range::from_codes(vec![1; NUM_HANDS - 1]).err(), Some(Error::MalformedRange));
    assert_eq!(Range::from_codes(vec![1; NUM_HANDS + 1]).err(), Some(Error::MalformedRange));
    assert_eq!(Range::from_codes(vec![]).err(), Some(Error::MalformedRange));
    assert_eq!(Error::MalformedRange.kind(), ErrorKind::InputParse);
    let mut codes = vec![0; NUM_HANDS];
    codes[hand_to_index(51, 50)] = 7;
    let range = Range::from_codes(codes).unwrap();
    assert_eq!(range.weight((51, 50)), 7);
    assert_eq!(range.weight((51, 49)), 0);
    assert!(!range.is_empty());
}

#[test]
fn set_weight_changes_one_hand() {
    let mut range = Range::new();
    range.set_weight((40, 3), 9);
    assert_eq!(range.weight((40, 3)), 9);
    assert_eq!(range.weight((40, 2)), 0);
    assert_eq!(range.weight((41, 3)), 0);
    range.set_weight((40, 3), 0);
    assert!(range.is_empty());
}

#[test]
fn hands_exclude_board_cards_and_keep_order() {
    let full = Range::from_codes(vec![1; NUM_HANDS]).unwrap();
    assert_eq!(full.hands(&vec![]).len(), 1326);
    // 49 cards are left: 49 * 48 / 2 hands
    let hands = full.hands(&vec![0, 1, 2]);
    assert_eq!(hands.len(), 1176);
    assert!(hands.iter().all(|h| h.0 > h.1 && h.1 >= 3));
    assert!(hands.windows(2).all(|w| hand_to_index(w[0].0, w[0].1) < hand_to_index(w[1].0, w[1].1)));
    assert_eq!(full.hands(&vec![0, 1, 2, 4]).len(), 1128);
    assert_eq!(full.hands(&vec![0, 1, 2, 4, 8]).len(), 1081);
    let mut range = Range::new();
    range.set_weight((51, 48), 1);
    range.set_weight((45, 44), 1);
    range.set_weight((41, 40), 1);
    assert_eq!(range.hands(&vec![0, 1, 2]), vec![(41, 40), (45, 44), (51, 48)]);
    assert_eq!(range.hands(&vec![0, 1, 44]), vec![(41, 40), (51, 48)]);
}

#[test]
fn full_range_is_symmetric_in_all_suits() {
    let full = Range::from_codes(vec![1; NUM_HANDS]).unwrap();
    for a in 0..4 {
        for b in 0..4 {
            assert!(full.is_suit_symmetric(a, b));
        }
    }
    assert!(Range::new().is_suit_symmetric(0, 3));
}

#[test]
fn suited_hands_of_one_suit_break_the_symmetry() {
    // ace-king of spades only
    let mut range = Range::new();
    range.set_weight((card(12, 3), card(11, 3)), 1);
    assert!(range.is_suit_symmetric(0, 1));
    assert!(range.is_suit_symmetric(1, 2));
    assert!(!range.is_suit_symmetric(0, 3));
    assert!(!range.is_suit_symmetric(3, 2));
    assert!(range.is_suit_symmetric(3, 3));
    // with ace-king of hearts at the same weight, hearts and spades are alike
    range.set_weight((card(12, 2), card(11, 2)), 1);
    assert!(range.is_suit_symmetric(2, 3));
    assert!(!range.is_suit_symmetric(1, 3));
    // but not at another weight
    range.set_weight((card(12, 2), card(11, 2)), 2);
    assert!(!range.is_suit_symmetric(2, 3));
}

#[test]
fn pairs_are_symmetric_when_all_six_weigh_the_same() {
    let mut range = Range::new();
    for a in 0..4u8 {
        for b in 0..a {
            range.set_weight((card(12, a), card(12, b)), 5);
        }
    }
    assert!(range.is_suit_symmetric(0, 3));
    assert!(range.is_suit_symmetric(1, 2));
    range.set_weight((card(12, 3), card(12, 2)), 0);
    // aces of spades and hearts are gone: clubs and diamonds are still alike
    assert!(range.is_suit_symmetric(0, 1));
    assert!(range.is_suit_symmetric(2, 3));
    assert!(!range.is_suit_symmetric(0, 2));
}
