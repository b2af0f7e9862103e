use postflop_solver::bet_size::{resolve, BetSize, BetSizeOptions, Sizing};

fn opening(pot: i64, max: i32, streets_left: u32) -> Sizing {
    Sizing { pot, prior: 0, min: 1, max, streets_left, force_allin_threshold: 0 }
}

#[test]
fn pot_relative_bet_is_a_fraction_of_the_pot() {
    let ctx = opening(200, 900, 2);
    assert_eq!(ctx.resolve_one(BetSize::PotRelative(600)), Some(120));
    assert_eq!(ctx.resolve_one(BetSize::PotRelative(1000)), Some(200));
    assert_eq!(ctx.resolve_one(BetSize::PotRelative(333)), Some(67));
    // 2.5 chips round up, 2.4 chips round down
    assert_eq!(opening(5, 900, 2).resolve_one(BetSize::PotRelative(500)), Some(3));
    assert_eq!(opening(5, 900, 2).resolve_one(BetSize::PotRelative(480)), Some(2));
}

#[test]
fn amounts_are_clamped_to_what_is_legal() {
    let ctx = opening(200, 900, 2);
    assert_eq!(ctx.resolve_one(BetSize::PotRelative(0)), Some(1));
    assert_eq!(ctx.resolve_one(BetSize::PotRelative(10_000)), Some(900));
    assert_eq!(ctx.resolve_one(BetSize::PotRelative(u32::MAX)), Some(900));
    assert_eq!(ctx.resolve_one(BetSize::Fixed(u32::MAX)), Some(900));
    assert_eq!(ctx.resolve_one(BetSize::AllIn), Some(900));
}

#[test]
fn previous_bet_relative_applies_to_raises_only() {
    let ctx = opening(200, 900, 2);
    assert_eq!(ctx.resolve_one(BetSize::PrevBetRelative(2500)), None);
    let facing = Sizing {
        pot: 440,
        prior: 120,
        min: 240,
        max: 900,
        streets_left: 2,
        force_allin_threshold: 0,
    };
    assert_eq!(facing.resolve_one(BetSize::PrevBetRelative(2500)), Some(300));
    assert_eq!(facing.resolve_one(BetSize::PrevBetRelative(1500)), Some(240));
    assert_eq!(facing.resolve_one(BetSize::PotRelative(500)), Some(340));
    assert_eq!(facing.resolve_one(BetSize::Fixed(200)), Some(320));
}

#[test]
fn geometric_bet_puts_the_stack_in_over_the_streets() {
    // one street: the whole stack
    assert_eq!(opening(200, 900, 1).resolve_one(BetSize::Geometric(0, u32::MAX)), Some(900));
    // two streets: (200 + 2 b)^2 <= 200 * 2000, so b = 216
    assert_eq!(opening(200, 900, 2).resolve_one(BetSize::Geometric(0, u32::MAX)), Some(216));
    assert_eq!(opening(200, 900, 3).resolve_one(BetSize::Geometric(2, u32::MAX)), Some(216));
    // three streets: (200 + 2 b)^3 <= 200^2 * 2000, so b = 115
    assert_eq!(opening(200, 900, 3).resolve_one(BetSize::Geometric(0, u32::MAX)), Some(115));
    // exact fit: pot 100, stack 400: (100 + 2 b)^2 <= 100 * 900 gives b = 100
    assert_eq!(opening(100, 400, 2).resolve_one(BetSize::Geometric(0, u32::MAX)), Some(100));
    // capped at half the pot
    assert_eq!(opening(200, 900, 2).resolve_one(BetSize::Geometric(0, 500)), Some(100));
}

#[test]
fn bets_near_all_in_become_all_in() {
    let ctx = Sizing {
        pot: 100,
        prior: 0,
        min: 1,
        max: 120,
        streets_left: 1,
        force_allin_threshold: 150,
    };
    // a bet of 100 makes the pot 300; 15% of it is 45 >= the 20 left behind
    assert_eq!(ctx.resolve_one(BetSize::PotRelative(1000)), Some(120));
    // a bet of 50 makes the pot 200; 15% of it is 30 < the 70 left behind
    assert_eq!(ctx.resolve_one(BetSize::PotRelative(500)), Some(50));
}

#[test]
fn resolved_bets_are_ordered_and_deduplicated() {
    let ctx = opening(200, 900, 2);
    let sizes = vec![
        BetSize::PotRelative(1000),
        BetSize::PotRelative(600),
        BetSize::Fixed(120),
        BetSize::PotRelative(300),
        BetSize::PotRelative(600),
    ];
    let resolved = resolve(&sizes, &ctx, 0, 0);
    assert_eq!(resolved.amounts, vec![60, 120, 200]);
    assert!(!resolved.all_in);
}

#[test]
fn turn_example_sizes() {
    let ctx = opening(200, 900, 2);
    let sizes = vec![BetSize::PotRelative(600), BetSize::Geometric(0, u32::MAX), BetSize::AllIn];
    let resolved = resolve(&sizes, &ctx, 0, 0);
    assert_eq!(resolved.amounts, vec![120, 216]);
    assert!(resolved.all_in);
}

#[test]
fn close_bets_are_merged() {
    let ctx = opening(200, 900, 2);
    let sizes = vec![
        BetSize::Fixed(100),
        BetSize::Fixed(110),
        BetSize::Fixed(119),
        BetSize::Fixed(120),
        BetSize::Fixed(139),
        BetSize::Fixed(140),
    ];
    // 10% of the pot is 20 chips
    assert_eq!(resolve(&sizes, &ctx, 100, 0).amounts, vec![100, 120, 140]);
    assert_eq!(resolve(&sizes, &ctx, 0, 0).amounts, vec![100, 110, 119, 120, 139, 140]);
    assert_eq!(resolve(&sizes, &ctx, 1000, 0).amounts, vec![100]);
}

#[test]
fn all_in_is_added_next_to_a_large_bet() {
    let ctx = opening(200, 300, 1);
    let sizes = vec![BetSize::PotRelative(1000)];
    // 300 <= 1.5 * 200, and the bet of 200 is below 1.5 * pot = 300
    assert!(resolve(&sizes, &ctx, 0, 1500).all_in);
    // with a threshold of zero all in is never added
    assert!(!resolve(&sizes, &ctx, 0, 0).all_in);
    // the smallest bet is the pot: a threshold of one pot keeps all in out
    assert!(!resolve(&sizes, &ctx, 0, 1000).all_in);
    assert!(resolve(&sizes, &ctx, 0, 1005).all_in);
    // the stack is more than 1.5 times the largest bet
    assert!(!resolve(&sizes, &opening(200, 301, 1), 0, 1500).all_in);
    // nothing to go with: no sized bet, no all in
    assert!(!resolve(&vec![], &ctx, 0, 1500).all_in);
    assert_eq!(resolve(&vec![], &ctx, 0, 1500).amounts, Vec::<i32>::new());
}

#[test]
fn default_options_hold_no_size() {
    let options = BetSizeOptions::default();
    assert!(options.bet.is_empty());
    assert!(options.raise.is_empty());
}
