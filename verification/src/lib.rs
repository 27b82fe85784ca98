//! Verified solutions to a series of daily text puzzles.
//!
//! Every puzzle reads a small text, parses it and computes one or two
//! numbers, which it writes in base ten. The modules `day01` to `day05`
//! hold one puzzle each. A puzzle offers each of its parts twice: `part_1`
//! and `part_2` demand a text that has an answer, `try_part_1` and
//! `try_part_2` take any text and say whether it has one.
//!
//! `text` holds the string handling that the puzzles share, `seqs` what
//! they need to know of sums and of sequences of results, and `aoc` the
//! entry point that a program uses to run a puzzle.
pub mod aoc;
pub mod day01;
pub mod day02;
pub mod day03;
pub mod day04;
pub mod day05;
pub mod seqs;
pub mod text;
