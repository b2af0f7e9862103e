//! The parts of the solver that are exact: the layout of a node's cells,
//! regret matching on cells that hold sixteen-bit numbers, the iterations at
//! which the average strategy starts anew, and the control of the iteration
//! loop.
//!
//! A buffer of a decision node holds one cell for each action and hand, the
//! cells of one action side by side: the cell of action `a` and hand `i` is at
//! `a * num_hands + i`. In compressed storage a cell is a sixteen-bit number
//! that stands for the cell's value divided by a positive scale common to the
//! buffer; the strategy that regret matching gives does not depend on the
//! scale, and comes out of the cells as exact fractions.

use vstd::prelude::*;
use crate::sums::{lemma_sum_bound, lemma_sum_same, sum_all};

verus! {

/// The position of the cell of an action and a hand in a buffer, if there is
/// such a cell.
pub open spec fn cell_position(
    action: int,
    hand: int,
    num_actions: int,
    num_hands: int,
) -> Option<int> {
    if 0 <= action < num_actions && 0 <= hand < num_hands {
        Some(action * num_hands + hand)
    } else {
        None
    }
}

proof fn lemma_position_in_range(action: int, hand: int, num_actions: int, num_hands: int)
    requires
        0 <= action < num_actions,
        0 <= hand < num_hands,
    ensures
        0 <= action * num_hands + hand < num_actions * num_hands,
        (action + 1) * num_hands == action * num_hands + num_hands,
{
    assert(action * num_hands + num_hands <= num_actions * num_hands) by (nonlinear_arith)
        requires
            0 <= action < num_actions,
            0 <= num_hands,
    ;
    assert(0 <= action * num_hands) by (nonlinear_arith)
        requires
            0 <= action,
            0 <= num_hands,
    ;
    assert((action + 1) * num_hands == action * num_hands + num_hands) by (nonlinear_arith);
}

/// Different cells have different positions, all below the number of cells.
pub proof fn lemma_cell_positions(
    action: int,
    hand: int,
    other_action: int,
    other_hand: int,
    num_actions: int,
    num_hands: int,
)
    requires
        cell_position(action, hand, num_actions, num_hands) is Some,
        cell_position(other_action, other_hand, num_actions, num_hands) is Some,
    ensures
        0 <= cell_position(action, hand, num_actions, num_hands)->Some_0 < num_actions * num_hands,
        cell_position(action, hand, num_actions, num_hands) == cell_position(
            other_action,
            other_hand,
            num_actions,
            num_hands,
        ) ==> action == other_action && hand == other_hand,
{
    lemma_position_in_range(action, hand, num_actions, num_hands);
    if action < other_action {
        assert((action + 1) * num_hands <= other_action * num_hands) by (nonlinear_arith)
            requires
                action + 1 <= other_action,
                0 <= num_hands,
        ;
        lemma_position_in_range(action, hand, num_actions, num_hands);
    } else if other_action < action {
        assert((other_action + 1) * num_hands <= action * num_hands) by (nonlinear_arith)
            requires
                other_action + 1 <= action,
                0 <= num_hands,
        ;
        lemma_position_in_range(other_action, other_hand, num_actions, num_hands);
    }
}

/// The position of the cell of an action and a hand in a buffer of
/// `num_actions` times `num_hands` cells; `None` if there is no such cell or
/// the number of cells is beyond what can be counted.
pub fn cell_index(action: usize, hand: usize, num_actions: usize, num_hands: usize) -> (r: Option<
    usize,
>)
    ensures
        match r {
            Some(k) => cell_position(action as int, hand as int, num_actions as int, num_hands as int)
                == Some(k as int) && k < num_actions * num_hands <= usize::MAX,
            None => cell_position(action as int, hand as int, num_actions as int, num_hands as int)
                is None || num_actions * num_hands > usize::MAX,
        },
{
    if action >= num_actions || hand >= num_hands {
        return None;
    }
    match num_actions.checked_mul(num_hands) {
        None => None,
        Some(_) => {
            proof {
                lemma_position_in_range(
                    action as int,
                    hand as int,
                    num_actions as int,
                    num_hands as int,
                );
            }
            Some(action * num_hands + hand)
        },
    }
}

/// A cell's regret as far as it is positive.
pub open spec fn positive_part(cell: i16) -> int {
    if cell > 0 {
        cell as int
    } else {
        0
    }
}

/// The positive regret of the actions below `num_actions` for a hand, summed.
pub open spec fn positive_sum(cells: Seq<i16>, num_hands: int, hand: int, num_actions: int) -> int {
    sum_all(|a: int| positive_part(cells[a * num_hands + hand]), num_actions)
}

/// The weight that regret matching gives an action for a hand: the positive
/// part of its regret, or one for every action where no action has positive
/// regret.
pub open spec fn matched_weight(
    cells: Seq<i16>,
    num_hands: int,
    num_actions: int,
    action: int,
    hand: int,
) -> int {
    if positive_sum(cells, num_hands, hand, num_actions) > 0 {
        positive_part(cells[action * num_hands + hand])
    } else {
        1
    }
}

/// The sum of the weights that regret matching gives the actions for a hand.
pub open spec fn matched_total(cells: Seq<i16>, num_hands: int, num_actions: int, hand: int) -> int {
    if positive_sum(cells, num_hands, hand, num_actions) > 0 {
        positive_sum(cells, num_hands, hand, num_actions)
    } else {
        num_actions
    }
}

/// A strategy as exact fractions: the probability that a hand takes an action
/// is the action's weight for the hand over the hand's total.
#[derive(Debug)]
pub struct MatchedStrategy {
    /// The weights, one for each action and hand, laid out as the cells are.
    pub weights: Vec<u16>,
    /// The totals, one for each hand.
    pub totals: Vec<u64>,
}

/// The probabilities that regret matching gives the actions for a hand add up
/// to one: the weights of the actions add up to the hand's total, and the total
/// is not zero.
pub proof fn lemma_matched_weights_sum(
    cells: Seq<i16>,
    num_hands: int,
    num_actions: int,
    hand: int,
)
    requires
        num_actions > 0,
    ensures
        sum_all(
            |a: int| matched_weight(cells, num_hands, num_actions, a, hand),
            num_actions,
        ) == matched_total(cells, num_hands, num_actions, hand),
        matched_total(cells, num_hands, num_actions, hand) > 0,
{
    let weights = |a: int| matched_weight(cells, num_hands, num_actions, a, hand);
    if positive_sum(cells, num_hands, hand, num_actions) > 0 {
        lemma_sum_same(
            weights,
            |a: int| positive_part(cells[a * num_hands + hand]),
            num_actions,
        );
    } else {
        lemma_sum_same(weights, |a: int| 1int, num_actions);
        lemma_sum_ones(num_actions);
    }
}

proof fn lemma_sum_ones(n: int)
    requires
        0 <= n,
    ensures
        sum_all(|a: int| 1int, n) == n,
    decreases n,
{
    if n > 0 {
        lemma_sum_ones(n - 1);
    }
}

proof fn lemma_positive_sum_bound(cells: Seq<i16>, num_hands: int, hand: int, num_actions: int)
    requires
        0 <= num_actions,
    ensures
        0 <= positive_sum(cells, num_hands, hand, num_actions) <= num_actions * 32767,
{
    lemma_sum_bound(|a: int| positive_part(cells[a * num_hands + hand]), num_actions, 32767);
    lemma_sum_nonnegative(cells, num_hands, hand, num_actions);
}

proof fn lemma_sum_nonnegative(cells: Seq<i16>, num_hands: int, hand: int, n: int)
    ensures
        0 <= sum_all(|a: int| positive_part(cells[a * num_hands + hand]), n),
    decreases n,
{
    if n > 0 {
        lemma_sum_nonnegative(cells, num_hands, hand, n - 1);
    }
}

/// Regret matching on the cells of a buffer in compressed storage.
///
/// The buffer holds `num_actions` rows of as many cells as there are hands.
/// For each hand, an action's weight is the positive part of its regret and the
/// total is the sum of the weights; where no action has positive regret, every
/// action has weight one.
pub fn regret_matching_compressed(cells: &Vec<i16>, num_actions: usize) -> (strategy:
    MatchedStrategy)
    requires
        num_actions > 0,
        cells@.len() <= 0x1_0000_0000_0000,
    ensures
        strategy.totals@.len() == cells@.len() / num_actions as nat,
        strategy.weights@.len() == num_actions * strategy.totals@.len(),
        forall|i: int|
            0 <= i < strategy.totals@.len() ==> #[trigger] strategy.totals@[i] == matched_total(
                cells@,
                strategy.totals@.len() as int,
                num_actions as int,
                i,
            ),
        forall|a: int, i: int|
            0 <= a < num_actions && 0 <= i < strategy.totals@.len()
                ==> #[trigger] strategy.weights@[a * strategy.totals@.len() + i] == matched_weight(
                cells@,
                strategy.totals@.len() as int,
                num_actions as int,
                a,
                i,
            ),
{
    let num_hands = cells.len() / num_actions;
    let ghost nh = num_hands as int;
    let ghost na = num_actions as int;
    assert(na * nh <= cells@.len()) by (nonlinear_arith)
        requires
            nh == cells@.len() as int / na,
            na > 0,
    ;
    let mut totals: Vec<u64> = Vec::new();
    let mut i: usize = 0;
    while i < num_hands
        invariant
            i <= num_hands,
            totals@.len() == i,
            forall|k: int| 0 <= k < i ==> #[trigger] totals@[k] == 0,
        decreases num_hands - i,
    {
        totals.push(0);
        i += 1;
    }
    let mut a: usize = 0;
    let mut k: usize = 0;
    while a < num_actions
        invariant
            a <= num_actions,
            nh == num_hands,
            na == num_actions,
            na * nh <= cells@.len() <= 0x1_0000_0000_0000,
            cells@.len() <= usize::MAX,
            k == a * nh,
            totals@.len() == num_hands,
            forall|i: int|
                0 <= i < nh ==> #[trigger] totals@[i] == positive_sum(cells@, nh, i, a as int),
        decreases num_actions - a,
    {
        let mut i: usize = 0;
        while i < num_hands
            invariant
                i <= num_hands,
                a < num_actions,
                nh == num_hands,
                na == num_actions,
                na * nh <= cells@.len() <= 0x1_0000_0000_0000,
                cells@.len() <= usize::MAX,
            cells@.len() <= usize::MAX,
                k == a * nh + i,
                totals@.len() == num_hands,
                forall|j: int|
                    0 <= j < i ==> #[trigger] totals@[j] == positive_sum(cells@, nh, j, a + 1),
                forall|j: int|
                    i <= j < nh ==> #[trigger] totals@[j] == positive_sum(cells@, nh, j, a as int),
            decreases num_hands - i,
        {
            proof {
                lemma_position_in_range(a as int, i as int, na, nh);
                lemma_positive_sum_bound(cells@, nh, i as int, a as int);
                assert(na <= cells@.len()) by (nonlinear_arith)
                    requires
                        na * nh <= cells@.len(),
                        nh >= 1,
                        na >= 0,
                ;
                assert(a * 32767 <= 0x1_0000_0000_0000 * 32767) by (nonlinear_arith)
                    requires
                        a <= 0x1_0000_0000_0000,
                ;
                assert(k + 1 <= na * nh);
            }
            let cell = cells[k];
            if cell > 0 {
                totals[i] = totals[i] + cell as u64;
            }
            i += 1;
            k += 1;
        }
        proof {
            lemma_position_in_range(a as int, 0, na, nh + 1);
            assert((a + 1) * nh == a * nh + nh) by (nonlinear_arith);
        }
        a += 1;
    }
    let mut weights: Vec<u16> = Vec::new();
    let mut a: usize = 0;
    let mut k: usize = 0;
    while a < num_actions
        invariant
            a <= num_actions,
            nh == num_hands,
            na == num_actions,
            na * nh <= cells@.len() <= usize::MAX,
            k == a * nh,
            totals@.len() == num_hands,
            forall|i: int|
                0 <= i < nh ==> #[trigger] totals@[i] == positive_sum(cells@, nh, i, na),
            weights@.len() == a * nh,
            forall|b: int, i: int|
                0 <= b < a && 0 <= i < nh ==> #[trigger] weights@[b * nh + i] == matched_weight(
                    cells@,
                    nh,
                    na,
                    b,
                    i,
                ),
        decreases num_actions - a,
    {
        let mut i: usize = 0;
        while i < num_hands
            invariant
                i <= num_hands,
                a < num_actions,
                nh == num_hands,
                na == num_actions,
                na * nh <= cells@.len() <= usize::MAX,
                k == a * nh + i,
                totals@.len() == num_hands,
                forall|j: int|
                    0 <= j < nh ==> #[trigger] totals@[j] == positive_sum(cells@, nh, j, na),
                weights@.len() == a * nh + i,
                forall|b: int, j: int|
                    0 <= b < a && 0 <= j < nh ==> #[trigger] weights@[b * nh + j] == matched_weight(
                        cells@,
                        nh,
                        na,
                        b,
                        j,
                    ),
                forall|j: int|
                    0 <= j < i ==> #[trigger] weights@[a * nh + j] == matched_weight(
                        cells@,
                        nh,
                        na,
                        a as int,
                        j,
                    ),
            decreases num_hands - i,
        {
            proof {
                lemma_position_in_range(a as int, i as int, na, nh);
            }
            let ghost before = weights@;
            assert(k + 1 <= na * nh);
            let cell = cells[k];
            let weight: u16 = if totals[i] == 0 {
                1
            } else if cell > 0 {
                cell as u16
            } else {
                0
            };
            weights.push(weight);
            proof {
                assert forall|b: int, j: int| 0 <= b < a && 0 <= j < nh implies #[trigger] weights@[b
                    * nh + j] == matched_weight(cells@, nh, na, b, j) by {
                    lemma_position_in_range(b, j, a as int, nh);
                    assert(weights@[b * nh + j] == before[b * nh + j]);
                }
                assert forall|j: int| 0 <= j < i + 1 implies #[trigger] weights@[a * nh + j]
                    == matched_weight(cells@, nh, na, a as int, j) by {
                    if j < i {
                        assert(weights@[a * nh + j] == before[a * nh + j]);
                    }
                }
            }
            i += 1;
            k += 1;
        }
        proof {
            assert((a + 1) * nh == a * nh + nh) by (nonlinear_arith);
        }
        a += 1;
    }
    let mut i: usize = 0;
    while i < num_hands
        invariant
            i <= num_hands,
            nh == num_hands,
            na == num_actions,
            totals@.len() == num_hands,
            forall|j: int|
                0 <= j < i ==> #[trigger] totals@[j] == matched_total(cells@, nh, na, j),
            forall|j: int|
                i <= j < nh ==> #[trigger] totals@[j] == positive_sum(cells@, nh, j, na),
        decreases num_hands - i,
    {
        if totals[i] == 0 {
            totals[i] = num_actions as u64;
        }
        i += 1;
    }
    MatchedStrategy { weights, totals }
}

/// The power of four with exponent `k`.
pub open spec fn power_of_4(k: nat) -> int
    decreases k,
{
    if k == 0 {
        1
    } else {
        4 * power_of_4((k - 1) as nat)
    }
}

/// Whether the average strategy starts anew at iteration `t`: it does when
/// `t` is a power of four.
pub open spec fn is_reset(t: int) -> bool {
    exists|k: nat| t == #[trigger] power_of_4(k)
}

proof fn lemma_power_of_4_grows(k: nat)
    ensures
        power_of_4(k) >= 1,
        power_of_4(k) >= k + 1,
    decreases k,
{
    if k > 0 {
        lemma_power_of_4_grows((k - 1) as nat);
    }
}

/// Whether the average strategy starts anew at iteration `t`.
pub fn resets_strategy(t: u32) -> (b: bool)
    ensures
        b == is_reset(t as int),
{
    let mut power: u64 = 1;
    let ghost mut k: nat = 0;
    while power < t as u64
        invariant
            power == power_of_4(k),
            1 <= power <= 0x4_0000_0000,
            forall|j: nat| j < k ==> #[trigger] power_of_4(j) < t,
        decreases 0x10_0000_0000 - power,
    {
        proof {
            assert forall|j: nat| j < k + 1 implies #[trigger] power_of_4(j) < t by {
                if j < k {
                } else {
                    assert(j == k);
                }
            }
            k = k + 1;
        }
        power = power * 4;
    }
    proof {
        if power == t as u64 {
            assert(t == power_of_4(k));
        } else {
            assert forall|j: nat| t != #[trigger] power_of_4(j) by {
                if j >= k {
                    lemma_power_of_4_monotone(k, j);
                }
            }
        }
    }
    power == t as u64
}

proof fn lemma_power_of_4_monotone(a: nat, b: nat)
    requires
        a <= b,
    ensures
        power_of_4(a) <= power_of_4(b),
    decreases b,
{
    lemma_power_of_4_grows(a);
    if a < b {
        lemma_power_of_4_monotone(a, (b - 1) as nat);
        lemma_power_of_4_grows((b - 1) as nat);
    }
}

/// What the iteration loop does next.
#[derive(Clone, Copy, Debug, PartialEq, Eq, Structural)]
pub enum Step {
    /// The loop ends.
    Stop,
    /// One more iteration is run; `measure` says whether exploitability is
    /// measured after it.
    Iterate { measure: bool },
}

/// What the iteration loop does after `done` iterations.
///
/// The loop ends when the last measurement is at or below the target or when
/// `max_iterations` iterations are done. Exploitability is measured after
/// every `interval` iterations and after the last one.
pub open spec fn step_after(
    done: u32,
    max_iterations: u32,
    interval: u32,
    target_reached: bool,
) -> Step {
    if target_reached || done >= max_iterations {
        Step::Stop
    } else {
        Step::Iterate {
            measure: (interval > 0 && (done + 1) % (interval as int) == 0) || done + 1
                == max_iterations,
        }
    }
}

/// What the iteration loop does after `done` iterations.
pub fn next_step(done: u32, max_iterations: u32, interval: u32, target_reached: bool) -> (step:
    Step)
    ensures
        step == step_after(done, max_iterations, interval, target_reached),
{
    if target_reached || done >= max_iterations {
        Step::Stop
    } else {
        let next = done + 1;
        Step::Iterate { measure: (interval > 0 && next % interval == 0) || next == max_iterations }
    }
}

} // verus!
