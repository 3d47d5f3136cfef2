//! Turn-based duel game: the rules of scoring, poisons and round
//! resolution, with their contracts. The terminal, the clock, the threads
//! of the counter and the command line stay with the program that uses the
//! library.

pub mod args;
pub mod counter;
pub mod input;
pub mod mechanics;
pub mod player;
pub mod round;
