use postflop_solver::solver::{
    cell_index, next_step, regret_matching_compressed, resets_strategy, Step,
};

#[test]
fn cells_are_laid_out_action_by_action() {
    assert_eq!(cell_index(0, 0, 3, 5), Some(0));
    assert_eq!(cell_index(0, 4, 3, 5), Some(4));
    assert_eq!(cell_index(1, 0, 3, 5), Some(5));
    assert_eq!(cell_index(2, 4, 3, 5), Some(14));
    assert_eq!(cell_index(3, 0, 3, 5), None);
    assert_eq!(cell_index(0, 5, 3, 5), None);
    assert_eq!(cell_index(0, 0, 0, 5), None);
    assert_eq!(cell_index(0, 0, 5, 0), None);
    assert_eq!(cell_index(1, 1, usize::MAX, 2), None);
    let mut seen = vec![false; 4 * 7];
    for a in 0..4 {
        for i in 0..7 {
            let k = cell_index(a, i, 4, 7).unwrap();
            assert_eq!(k, a * 7 + i);
            assert!(!seen[k]);
            seen[k] = true;
        }
    }
    assert!(seen.iter().all(|&s| s));
}

#[test]
fn regret_matching_weighs_by_positive_regret() {
    // three actions, two hands
    let cells: Vec<i16> = vec![5, -3, 0, 0, 15, -1];
    let strategy = regret_matching_compressed(&cells, 3);
    assert_eq!(strategy.totals, vec![20, 3]);
    assert_eq!(strategy.weights, vec![5, 1, 0, 1, 15, 1]);
}

#[test]
fn regret_matching_is_uniform_without_positive_regret() {
    let strategy = regret_matching_compressed(&vec![0, -1, -2, i16::MIN], 4);
    assert_eq!(strategy.totals, vec![4]);
    assert_eq!(strategy.weights, vec![1, 1, 1, 1]);
    let strategy = regret_matching_compressed(&vec![0, 0, 0, 0], 2);
    assert_eq!(strategy.totals, vec![2, 2]);
    assert_eq!(strategy.weights, vec![1, 1, 1, 1]);
}

#[test]
fn regret_matching_with_one_action() {
    let strategy = regret_matching_compressed(&vec![7, -7, 0], 1);
    assert_eq!(strategy.totals, vec![7, 1, 1]);
    assert_eq!(strategy.weights, vec![7, 1, 1]);
    let strategy = regret_matching_compressed(&vec![], 3);
    assert!(strategy.totals.is_empty() && strategy.weights.is_empty());
    // cells that do not fill a row are left out
    let strategy = regret_matching_compressed(&vec![1, 2, 3, 4, 5], 2);
    assert_eq!(strategy.totals, vec![4, 6]);
    assert_eq!(strategy.weights, vec![1, 2, 3, 4]);
}

#[test]
fn strategy_of_every_hand_sums_to_one() {
    let mut seed: u32 = 2024;
    let mut next = move || {
        seed = seed.wrapping_mul(1664525).wrapping_add(1013904223);
        (seed >> 16) as i16
    };
    for num_actions in 1..6usize {
        let num_hands = 37;
        let cells: Vec<i16> = (0..num_actions * num_hands)
            .map(|k| if k % 5 == 0 { -next().abs().max(1) } else { next() })
            .collect();
        let strategy = regret_matching_compressed(&cells, num_actions);
        assert_eq!(strategy.totals.len(), num_hands);
        assert_eq!(strategy.weights.len(), num_actions * num_hands);
        for i in 0..num_hands {
            let sum: u64 =
                (0..num_actions).map(|a| strategy.weights[a * num_hands + i] as u64).sum();
            assert_eq!(sum, strategy.totals[i]);
            assert!(strategy.totals[i] > 0);
            let probability: f64 = (0..num_actions)
                .map(|a| strategy.weights[a * num_hands + i] as f64 / strategy.totals[i] as f64)
                .sum();
            assert!((probability - 1.0).abs() < 1e-12);
        }
    }
    // the largest regrets in every cell
    let strategy = regret_matching_compressed(&vec![i16::MAX; 12], 4);
    assert_eq!(strategy.totals, vec![4 * 32767; 3]);
}

#[test]
fn average_starts_anew_at_powers_of_four() {
    for t in [1u32, 4, 16, 64, 256, 1024, 1 << 20, 1 << 30] {
        assert!(resets_strategy(t), "iteration {}", t);
    }
    for t in [0u32, 2, 3, 5, 8, 15, 17, 32, 63, 65, 128, 1 << 31, u32::MAX, (1 << 30) + 1] {
        assert!(!resets_strategy(t), "iteration {}", t);
    }
    let resets: Vec<u32> = (0..=100).filter(|&t| resets_strategy(t)).collect();
    assert_eq!(resets, vec![1, 4, 16, 64]);
}

#[test]
fn loop_stops_at_the_target_or_at_the_last_iteration() {
    assert_eq!(next_step(0, 100, 10, true), Step::Stop);
    assert_eq!(next_step(50, 100, 10, true), Step::Stop);
    assert_eq!(next_step(100, 100, 10, false), Step::Stop);
    assert_eq!(next_step(101, 100, 10, false), Step::Stop);
    assert_eq!(next_step(0, 0, 10, false), Step::Stop);
    assert_eq!(next_step(u32::MAX, u32::MAX, 10, false), Step::Stop);
}

#[test]
fn exploitability_is_measured_at_intervals_and_at_the_end() {
    assert_eq!(next_step(0, 100, 10, false), Step::Iterate { measure: false });
    assert_eq!(next_step(8, 100, 10, false), Step::Iterate { measure: false });
    assert_eq!(next_step(9, 100, 10, false), Step::Iterate { measure: true });
    assert_eq!(next_step(10, 100, 10, false), Step::Iterate { measure: false });
    assert_eq!(next_step(99, 100, 10, false), Step::Iterate { measure: true });
    assert_eq!(next_step(94, 95, 10, false), Step::Iterate { measure: true });
    assert_eq!(next_step(3, 95, 0, false), Step::Iterate { measure: false });
    assert_eq!(next_step(94, 95, 0, false), Step::Iterate { measure: true });
    assert_eq!(next_step(3, 95, 1, false), Step::Iterate { measure: true });
    assert_eq!(
        next_step(u32::MAX - 1, u32::MAX, 10, false),
        Step::Iterate { measure: true }
    );
    // a run of 100 iterations measures ten times
    let mut done = 0;
    let mut measured = 0;
    while let Step::Iterate { measure } = next_step(done, 100, 10, false) {
        done += 1;
        if measure {
            measured += 1;
        }
    }
    assert_eq!((done, measured), (100, 10));
}
