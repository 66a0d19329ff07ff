//! A verified dice-notation library.
//!
//! A token such as `2d6+3` names a roll of two six-sided dice with three
//! added to the sum. The [`grammar`] module defines the notation as spec
//! functions over byte sequences, [`parse`] turns tokens into structured
//! roll descriptors, and [`simulate`] draws the dice and adds the totals.

pub mod grammar;
pub mod parse;
pub mod simulate;
