//! Grading of a free-text answer against a card.
use vstd::prelude::*;
use crate::direction::Direction;
use crate::text::{lower_of, lowercase, same_text, trim_str, trimmed};

verus! {

/// The outcome of one answer.
#[derive(Debug, Clone, Copy, PartialEq, Eq, Structural)]
pub enum Verdict {
    /// The answer was the cancel word: the session stops here.
    Exit,
    Correct,
    Incorrect,
}

/// The side of the card that the user is asked to give.
pub open spec fn expected_side(d: Direction, term: Seq<char>, definition: Seq<char>) -> Seq<char> {
    match d {
        Direction::TermToDefinition => definition,
        Direction::DefinitionToTerm => term,
    }
}

/// The side of the card that the prompt shows.
pub open spec fn shown_side(d: Direction, term: Seq<char>, definition: Seq<char>) -> Seq<char> {
    match d {
        Direction::TermToDefinition => term,
        Direction::DefinitionToTerm => definition,
    }
}

/// The verdict on an answer and an expected side, both already trimmed and
/// lower-cased as needed.
pub open spec fn verdict_of(folded_answer: Seq<char>, folded_expected: Seq<char>) -> Verdict {
    if folded_answer == "exit"@ {
        Verdict::Exit
    } else if folded_answer == folded_expected {
        Verdict::Correct
    } else {
        Verdict::Incorrect
    }
}

/// The verdict on a raw answer: trimmed, then compared without regard to case.
pub open spec fn grade_spec(
    d: Direction,
    term: Seq<char>,
    definition: Seq<char>,
    answer: Seq<char>,
) -> Verdict {
    verdict_of(lower_of(trimmed(answer)), lower_of(expected_side(d, term, definition)))
}

/// Judges an answer once both sides have been folded.
pub fn judge(folded_answer: &str, folded_expected: &str) -> (r: Verdict)
    ensures
        r == verdict_of(folded_answer@, folded_expected@),
{
    if same_text(folded_answer, "exit") {
        Verdict::Exit
    } else if same_text(folded_answer, folded_expected) {
        Verdict::Correct
    } else {
        Verdict::Incorrect
    }
}

/// The side that the user must give for a card in direction `d`.
pub fn expected_answer<'a>(d: Direction, term: &'a str, definition: &'a str) -> (r: &'a str)
    ensures
        r@ == expected_side(d, term@, definition@),
{
    match d {
        Direction::TermToDefinition => definition,
        Direction::DefinitionToTerm => term,
    }
}

/// The side that the prompt shows for a card in direction `d`.
pub fn shown_text<'a>(d: Direction, term: &'a str, definition: &'a str) -> (r: &'a str)
    ensures
        r@ == shown_side(d, term@, definition@),
{
    match d {
        Direction::TermToDefinition => term,
        Direction::DefinitionToTerm => definition,
    }
}

/// Grades `answer` for the card `(term, definition)` in direction `d`.
pub fn grade(d: Direction, term: &str, definition: &str, answer: &str) -> (r: Verdict)
    ensures
        r == grade_spec(d, term@, definition@, answer@),
{
    let folded_answer = lowercase(trim_str(answer));
    let folded_expected = lowercase(expected_answer(d, term, definition));
    judge(folded_answer.as_str(), folded_expected.as_str())
}

} // verus!
