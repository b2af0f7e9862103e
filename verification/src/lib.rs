//! The exact core of a postflop solver for heads-up no-limit hold'em.
//!
//! Everything here is integer arithmetic and data structure, and all of it is
//! verified: what is kept in floating point (the weights of the ranges, the
//! regrets and strategies of an iteration) is outside this crate, which gives
//! it what it rests on.
//!
//! - [`card`], [`hand`], [`range`]: cards and boards with their text form, the
//!   1326 hands, and ranges as far as they say which hands weigh the same.
//! - [`bet_size`], [`action_tree`]: bet sizes resolved to chips, and the tree
//!   of actions that unfolds from them.
//! - [`chance`], [`game`]: the cards dealt at chance nodes, with like suits
//!   dealt once, and the game with its cursor.
//! - [`evaluator`], [`terminal`]: the strength of hands, and the values of
//!   hands at showdowns and folds for reach counted in integers.
//! - [`solver`]: the layout of a node's cells, regret matching on sixteen-bit
//!   cells, and the control of the iteration loop.
//! - [`mutex_like`]: a mutex-shaped wrapper that never locks.
//! - [`sums`], [`error`]: finite sums, and the errors.

pub mod action_tree;
pub mod bet_size;
pub mod card;
pub mod chance;
pub mod error;
pub mod evaluator;
pub mod game;
pub mod hand;
pub mod mutex_like;
pub mod range;
pub mod solver;
pub mod sums;
pub mod terminal;
