//! Exhaustive solver for the numbers round of Countdown.
//!
//! Given a handful of positive integers and a target, the solver enumerates
//! every arithmetic expression over a subset of the numbers that evaluates to
//! the target, using addition, subtraction, multiplication and division, with
//! every intermediate result a positive integer.
//!
//! When an operator is applied to two terms, only the order from the larger
//! value to the smaller is considered (`5 - 3`, never `3 - 5`). Nothing is lost:
//! addition and multiplication commute, and the other order of a subtraction
//! or a division would leave the positive integers.
//!
//! The modules: `term` holds the expression trees, `search` says what a
//! search finds, `solver` carries it out, `bounds` says which numbers fit
//! the machine, `theory` and `complete` prove what holds of every search,
//! `guarantees` says it of a solver and its numbers, and `puzzle` draws a
//! puzzle at random.
pub mod bounds;
pub mod complete;
pub mod guarantees;
pub mod puzzle;
pub mod search;
pub mod solver;
pub mod term;
pub mod theory;
