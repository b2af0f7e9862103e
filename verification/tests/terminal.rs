use postflop_solver::card::card_from_str;
use postflop_solver::error::Error;
use postflop_solver::hand::{index_to_hand, Hand, NUM_HANDS};
use postflop_solver::terminal::{
    evaluate_fold, evaluate_showdown, strength_on, strength_order, HandTable,
};

fn board(text: &str) -> [u8; 5] {
    let mut out = [0u8; 5];
    for k in 0..5 {
        out[k] = card_from_str(&text[2 * k..2 * k + 2]).unwrap();
    }
    out
}

fn hand(text: &str) -> Hand {
    let a = card_from_str(&text[..2]).unwrap();
    let b = card_from_str(&text[2..]).unwrap();
    (a.max(b), a.min(b))
}

fn overlap(a: Hand, b: Hand) -> bool {
    a.0 == b.0 || a.0 == b.1 || a.1 == b.0 || a.1 == b.1
}

fn brute_force(amount: i64, ours: &HandTable, theirs: &HandTable, reach: &[i32]) -> Vec<i128> {
    ours.hands
        .iter()
        .zip(&ours.strengths)
        .map(|(&h, &s)| {
            let mut sum: i128 = 0;
            for j in 0..theirs.hands.len() {
                let t = theirs.strengths[j];
                if s == 0 || t == 0 || overlap(h, theirs.hands[j]) {
                    continue;
                }
                if t < s {
                    sum += reach[j] as i128;
                } else if t > s {
                    sum -= reach[j] as i128;
                }
            }
            amount as i128 * sum
        })
        .collect()
}

#[test]
fn strengths_are_zero_for_hands_on_the_board() {
    let b = board("2c2d2h3c4d");
    assert_eq!(strength_on(&b, hand("AsAh")), 1 + 6 * 371293 + 12 * 2197);
    assert_eq!(strength_on(&b, hand("As2c")), 0);
    assert_eq!(strength_on(&b, hand("4d3s")), 0);
    assert!(strength_on(&b, hand("7s5s")) > 0);
}

#[test]
fn order_is_by_strength_and_leaves_out_zeros() {
    assert_eq!(strength_order(&vec![5, 0, 3, 5, 1, 0, 3]), vec![4, 2, 6, 0, 3]);
    assert_eq!(strength_order(&vec![]), Vec::<usize>::new());
    assert_eq!(strength_order(&vec![0, 0]), Vec::<usize>::new());
}

#[test]
fn table_rejects_what_is_no_hand() {
    let b = board("2c2d2h3c4d");
    assert_eq!(HandTable::new(b, vec![(51, 51)]).err(), Some(Error::InvalidCard));
    assert_eq!(HandTable::new(b, vec![(50, 51)]).err(), Some(Error::InvalidCard));
    assert_eq!(HandTable::new(b, vec![(52, 51)]).err(), Some(Error::InvalidCard));
    let mut bad = b;
    bad[4] = 52;
    assert_eq!(HandTable::new(bad, vec![(51, 50)]).err(), Some(Error::InvalidCard));
    assert_eq!(
        HandTable::new(b, vec![(51, 50); NUM_HANDS + 1]).err(),
        Some(Error::MalformedRange)
    );
    let table = HandTable::new(b, vec![(51, 50); NUM_HANDS]).unwrap();
    assert_eq!(table.order.len(), NUM_HANDS);
    assert!(HandTable::new(b, vec![]).unwrap().order.is_empty());
}

#[test]
fn aces_kings_and_queens_at_showdown() {
    let b = board("2c2d2h3c4d");
    let hands = vec![hand("QsQh"), hand("KsKh"), hand("AsAh")];
    let ours = HandTable::new(b, hands.clone()).unwrap();
    let theirs = HandTable::new(b, hands).unwrap();
    assert_eq!(ours.order, vec![0, 1, 2]);
    // the pot is 2: a hand wins or loses 1 from each hand it meets
    let values = evaluate_showdown(1, &ours, &theirs, &vec![1, 1, 1]);
    // each hand meets the two others, so the values per opponent hand are
    // -1 for the queens, 0 for the kings, +1 for the aces
    assert_eq!(values, vec![-2, 0, 2]);
    let met = 2;
    assert_eq!(values.iter().map(|v| v / met).collect::<Vec<_>>(), vec![-1, 0, 1]);
    // reach weighs the opponent's hands
    assert_eq!(evaluate_showdown(1, &ours, &theirs, &vec![3, 5, 7]), vec![-12, -4, 8]);
    assert_eq!(evaluate_showdown(10, &ours, &theirs, &vec![3, 5, 7]), vec![-120, -40, 80]);
    assert_eq!(evaluate_showdown(-1, &ours, &theirs, &vec![3, 5, 7]), vec![12, 4, -8]);
    assert_eq!(evaluate_showdown(1, &ours, &theirs, &vec![0, 0, 0]), vec![0, 0, 0]);
}

#[test]
fn hands_that_share_a_card_do_not_meet() {
    let b = board("2c2d2h3c4d");
    let ours = HandTable::new(b, vec![hand("AsAh"), hand("KsKh")]).unwrap();
    let theirs =
        HandTable::new(b, vec![hand("AsKs"), hand("AdAc"), hand("QsQh"), hand("KhQd")]).unwrap();
    let values = evaluate_showdown(1, &ours, &theirs, &vec![1, 10, 100, 1000]);
    // the aces chop with the other aces, do not meet ace-king, and beat the rest
    assert_eq!(values[0], 1100);
    // the kings lose to the aces, beat the queens, and do not meet the two
    // hands with a king of theirs
    assert_eq!(values[1], 90);
}

#[test]
fn showdown_agrees_with_going_through_all_pairs() {
    let b = board("Td9d6hQc2s");
    let all: Vec<Hand> = (0..NUM_HANDS).map(index_to_hand).collect();
    let mut seed: u32 = 99;
    let mut next = move || {
        seed = seed.wrapping_mul(1664525).wrapping_add(1013904223);
        seed >> 8
    };
    let ours_hands: Vec<Hand> = all.iter().copied().filter(|_| next() % 3 != 0).collect();
    let theirs_hands: Vec<Hand> = all.iter().copied().filter(|_| next() % 4 != 0).collect();
    let reach: Vec<i32> =
        theirs_hands.iter().map(|_| (next() % 2001) as i32 - 500).collect();
    let ours = HandTable::new(b, ours_hands).unwrap();
    let theirs = HandTable::new(b, theirs_hands).unwrap();
    assert!(ours.strengths.iter().any(|&s| s == 0));
    let values = evaluate_showdown(317, &ours, &theirs, &reach);
    assert_eq!(values, brute_force(317, &ours, &theirs, &reach));
    assert!(values.iter().any(|&v| v != 0));
    // the reach of the two players against each other sums to zero
    let our_reach: Vec<i32> = ours.hands.iter().map(|_| (next() % 1000) as i32).collect();
    let back = evaluate_showdown(317, &theirs, &ours, &our_reach);
    let a: i128 = values.iter().zip(&our_reach).map(|(v, &r)| v * r as i128).sum();
    let c: i128 = back.iter().zip(&reach).map(|(v, &r)| v * r as i128).sum();
    assert_eq!(a + c, 0);
    assert_ne!(a, 0);
}

#[test]
fn largest_reach_does_not_overflow() {
    let b = board("Td9d6hQc2s");
    let all: Vec<Hand> = (0..NUM_HANDS).map(index_to_hand).collect();
    let ours = HandTable::new(b, all.clone()).unwrap();
    let theirs = HandTable::new(b, all).unwrap();
    let reach = vec![i32::MAX; NUM_HANDS];
    let values = evaluate_showdown(i64::MAX, &ours, &theirs, &reach);
    assert_eq!(values, brute_force(i64::MAX, &ours, &theirs, &reach));
    let reach = vec![i32::MIN; NUM_HANDS];
    let values = evaluate_showdown(i64::MIN, &ours, &theirs, &reach);
    assert_eq!(values, brute_force(i64::MIN, &ours, &theirs, &reach));
}

#[test]
fn fold_pays_the_reach_of_the_hands_met() {
    let ours = vec![hand("AsKs"), hand("7c6c")];
    let theirs = vec![hand("AsKs"), hand("7c6c"), hand("As7c"), hand("QdQh")];
    let reach = vec![1, 10, 100, 1000];
    // ace-king meets 7c6c and the queens; 7c6c meets ace-king and the queens
    assert_eq!(evaluate_fold(1, &ours, &theirs, &reach), vec![1010, 1001]);
    assert_eq!(evaluate_fold(3, &ours, &theirs, &reach), vec![3030, 3003]);
    // the player who folded loses the same
    assert_eq!(evaluate_fold(-3, &ours, &theirs, &reach), vec![-3030, -3003]);
    assert_eq!(evaluate_fold(3, &ours, &vec![], &vec![]), vec![0, 0]);
    assert_eq!(evaluate_fold(3, &vec![], &theirs, &reach), Vec::<i128>::new());
}

#[test]
fn fold_agrees_with_going_through_all_pairs() {
    let all: Vec<Hand> = (0..NUM_HANDS).map(index_to_hand).collect();
    let mut seed: u32 = 4242;
    let mut next = move || {
        seed = seed.wrapping_mul(1664525).wrapping_add(1013904223);
        seed >> 8
    };
    let ours: Vec<Hand> = all.iter().copied().filter(|_| next() % 2 == 0).collect();
    // the opponent's list holds some hands twice
    let mut theirs: Vec<Hand> = all.iter().copied().filter(|_| next() % 3 != 0).collect();
    theirs.extend(all.iter().copied().filter(|_| next() % 7 == 0));
    let reach: Vec<i32> = theirs.iter().map(|_| (next() % 3001) as i32 - 1000).collect();
    let values = evaluate_fold(250, &ours, &theirs, &reach);
    let expected: Vec<i128> = ours
        .iter()
        .map(|&h| {
            let sum: i128 = theirs
                .iter()
                .zip(&reach)
                .filter(|(&t, _)| !overlap(h, t))
                .map(|(_, &r)| r as i128)
                .sum();
            250 * sum
        })
        .collect();
    assert_eq!(values, expected);
    // what the one wins the other loses
    let our_reach: Vec<i32> = ours.iter().map(|_| (next() % 1000) as i32).collect();
    let back = evaluate_fold(-250, &theirs, &ours, &our_reach);
    let a: i128 = values.iter().zip(&our_reach).map(|(v, &r)| v * r as i128).sum();
    let c: i128 = back.iter().zip(&reach).map(|(v, &r)| v * r as i128).sum();
    assert_eq!(a + c, 0);
    assert_ne!(a, 0);
}

#[test]
fn fold_through() {
    // both players hold ace-king of spades or seven-six of clubs
    let hands = vec![hand("7c6c"), hand("AsKs")];
    let reach = vec![1, 1];
    // a hand meets the other hand only: each wins what the other loses
    let stay = evaluate_fold(1, &hands, &hands, &reach);
    let fold = evaluate_fold(-1, &hands, &hands, &reach);
    assert_eq!(stay, vec![1, 1]);
    assert_eq!(fold, vec![-1, -1]);
    assert_eq!(stay.iter().sum::<i128>() + fold.iter().sum::<i128>(), 0);
}
