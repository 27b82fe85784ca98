//! Running a puzzle: where its input lies, and how its answers are
//! reported. Reading the input and printing the report are left to the
//! program that implements `Solver`.
use crate::text::{decimal, to_decimal};
use vstd::prelude::*;
use vstd::string::*;

verus! {

/// A puzzle with `N` parts that can be run: it finds its input, solves
/// each part and reports the answers.
pub trait Solver<const N: usize> {
    /// Runs the puzzle.
    fn solve(&self);
}

/// The path of the input file `name`.
pub open spec fn spec_input_path(name: Seq<char>) -> Seq<char> {
    "src/input/"@ + name
}

/// The line that reports `answer` as the answer of part `number`.
pub open spec fn spec_report(number: nat, answer: Seq<char>) -> Seq<char> {
    "part "@ + decimal(number) + ": "@ + answer
}

/// Makes the path of the input file `name`.
pub fn input_path(name: &str) -> (path: String)
    ensures
        path@ == spec_input_path(name@),
{
    String::from_str("src/input/").concat(name)
}

/// Makes the line that reports `answer` as the answer of part `number`.
pub fn report(number: usize, answer: &str) -> (line: String)
    ensures
        line@ == spec_report(number as nat, answer@),
{
    let digits = to_decimal(number);
    String::from_str("part ").concat(digits.as_str()).concat(": ").concat(answer)
}

} // verus!
