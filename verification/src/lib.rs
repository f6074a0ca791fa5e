//! Drawing lots by decimal tails.
//!
//! Given a pool of tickets numbered `1..=total` and a wanted number of
//! winners, a draw picks a small set of decimal tails (suffix patterns) such
//! that exactly the wanted number of tickets ends in one of them. No ticket
//! list is ever built or shuffled; whether a ticket wins is read off its
//! serial.
//!
//! - `digits`, `rate`: powers of ten, digit counts, the win rate and its
//!   digits.
//! - `tails`, `tail_set`: what a tail matches, how many serials it matches,
//!   and when a set of tails is a partition.
//! - `ledger`, `course`, `soundness`: the draw as mathematics, as a function
//!   of its inputs and of the values that the random source hands out, with
//!   the proof that every successful draw is exact.
//! - `random_number`: the random sources.
//! - `draw_lots`: the draw itself.
//! - `winners`: the membership test.
pub mod course;
pub mod digits;
pub mod draw_lots;
pub mod error;
pub mod ledger;
pub mod random_number;
pub mod rate;
pub mod soundness;
pub mod tail_set;
pub mod tails;
pub mod winners;
