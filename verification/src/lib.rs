//! Core of a cooperative model checker for transition systems over
//! first-order terms.
//!
//! Several verification techniques — bounded checking, k-induction,
//! invariant generation, invariant pruning — run side by side, share
//! discovered facts, and together prove or refute safety properties.
//! This crate holds the substrate and the decisions they share:
//!
//! - [`base`]: trace offsets, two-state offset pairs, and the offset
//!   tags of expressions read back from the solver;
//! - [`term`]: the hash-consed universe of symbols, constants and terms,
//!   with current-to-next bumping;
//! - [`eval`]: solver models and term evaluation against them;
//! - [`sys`]: state terms, properties, and the transition system;
//! - [`event`]: the supervisor/worker message bus;
//! - [`unroll`]: the solver session as a state machine over commands;
//! - [`graph`], [`domain`], [`split`], [`tig`]: the invariant-generation
//!   engine — equivalence classes of candidate terms, ordered by a value
//!   domain and refined by model-driven splits;
//! - [`pruner`]: the machine that strips candidate invariants the others
//!   imply under one step.
//!
//! Everything that talks to the outside — the solver process, the
//! threads, the clock — stays out; these modules take the outside's
//! answers as arguments and are verified for every value of them.

pub mod base;
pub mod term;
pub mod eval;
pub mod sys;
pub mod event;
pub mod graph;
pub mod domain;
pub mod split;
pub mod unroll;
pub mod pruner;
pub mod tig;
