//! A solver for the card game 24: every way of combining a list of numbers
//! with binary operators, in every order and every bracketing, that reaches
//! a target value.
//!
//! The library is generic in the type of the numbers and in the functions
//! that stand behind the operators and the comparison with the target, so
//! what is proved holds whatever arithmetic the caller brings:
//!
//! - [`util`] generates the tuples of a Cartesian product and the orderings
//!   of a range of indices, each exactly once ([`heap`] holds the proof for
//!   the orderings);
//! - [`shapes`] reduces a row of expressions to one expression in every way,
//!   and no bracketing is missing among its results;
//! - [`boundop`] evaluates an expression, writes it in three notations and
//!   explains it step by step;
//! - [`card`] searches the expressions over the numbers of a puzzle and hands
//!   out, one at a time and in a fixed order, those that reach the target;
//! - [`input`] reads a number from what a player has typed.

pub mod boundop;
pub use boundop::{BoundOp, Notation};

pub mod card;
pub use card::{Card, Solutions};

pub mod heap;

pub mod input;
pub use input::{digits_value, parse_val};

pub mod op;
pub use op::{Op, Ops};

pub mod shapes;

pub mod util;
