//! Decoding of the user's menu and set choices.
use vstd::prelude::*;
use crate::direction::Direction;
use crate::text::{same_text, trim_str, trimmed};

verus! {

/// Whether every character of `s` is an ASCII digit.
pub open spec fn all_digits(s: Seq<char>) -> bool {
    forall|i: int| 0 <= i < s.len() ==> '0' <= #[trigger] s[i] && s[i] <= '9'
}

/// The value of a string of ASCII digits.
pub open spec fn decimal_value(s: Seq<char>) -> nat
    decreases s.len(),
{
    if s.len() == 0 {
        0
    } else {
        decimal_value(s.drop_last()) * 10 + ((s.last() as u32) - ('0' as u32)) as nat
    }
}

/// What `usize::from_str` reads from `s`: an optional `+` and one or more
/// ASCII digits whose value fits in a `usize`.
pub open spec fn parsed_usize(s: Seq<char>) -> Option<usize> {
    let d = if s.len() > 0 && s[0] == '+' {
        s.drop_first()
    } else {
        s
    };
    if d.len() > 0 && all_digits(d) && decimal_value(d) <= usize::MAX {
        Some(decimal_value(d) as usize)
    } else {
        None
    }
}

/// Relies on `usize::from_str`: an optional `+` followed by decimal digits,
/// refused when empty, holding any other character, or too large.
#[verifier::external_body]
fn parse_usize(s: &str) -> (r: Option<usize>)
    ensures
        r == parsed_usize(s@),
{
    s.parse::<usize>().ok()
}

/// Why a set could not be chosen.
#[derive(Debug, Clone, Copy, PartialEq, Eq, Structural)]
pub enum SelectionError {
    /// No set has been imported.
    NoSets,
    /// The input is not a number.
    NotANumber,
    /// The number names no listed set.
    OutOfRange,
}

/// The set that `input` picks from the listed `sets`, counting from 1.
pub open spec fn selection(sets: Seq<(i64, String)>, input: Seq<char>) -> Result<i64, SelectionError> {
    if sets.len() == 0 {
        Err(SelectionError::NoSets)
    } else {
        match parsed_usize(trimmed(input)) {
            None => Err(SelectionError::NotANumber),
            Some(n) => if 1 <= n <= sets.len() {
                Ok(sets[n - 1].0)
            } else {
                Err(SelectionError::OutOfRange)
            },
        }
    }
}

/// Picks a set from the numbered list `sets` by the user's `input`.
pub fn select_set(sets: &Vec<(i64, String)>, input: &str) -> (r: Result<i64, SelectionError>)
    ensures
        r == selection(sets@, input@),
{
    if sets.len() == 0 {
        return Err(SelectionError::NoSets);
    }
    match parse_usize(trim_str(input)) {
        None => Err(SelectionError::NotANumber),
        Some(n) => {
            if n < 1 || n > sets.len() {
                Err(SelectionError::OutOfRange)
            } else {
                Ok(sets[n - 1].0)
            }
        },
    }
}

/// The entries of the main menu.
#[derive(Debug, Clone, Copy, PartialEq, Eq, Structural)]
pub enum MenuChoice {
    ImportSet,
    LearnSet,
    Statistics,
    SetDirection,
    Quit,
}

/// The menu entry that the trimmed input names, by its number.
pub open spec fn menu_choice_of(input: Seq<char>) -> Option<MenuChoice> {
    let t = trimmed(input);
    if t == "1"@ {
        Some(MenuChoice::ImportSet)
    } else if t == "2"@ {
        Some(MenuChoice::LearnSet)
    } else if t == "3"@ {
        Some(MenuChoice::Statistics)
    } else if t == "4"@ {
        Some(MenuChoice::SetDirection)
    } else if t == "5"@ {
        Some(MenuChoice::Quit)
    } else {
        None
    }
}

/// Reads a main-menu choice; `None` for anything but the numbers 1 to 5.
pub fn menu_choice(input: &str) -> (r: Option<MenuChoice>)
    ensures
        r == menu_choice_of(input@),
{
    let t = trim_str(input);
    if same_text(t, "1") {
        Some(MenuChoice::ImportSet)
    } else if same_text(t, "2") {
        Some(MenuChoice::LearnSet)
    } else if same_text(t, "3") {
        Some(MenuChoice::Statistics)
    } else if same_text(t, "4") {
        Some(MenuChoice::SetDirection)
    } else if same_text(t, "5") {
        Some(MenuChoice::Quit)
    } else {
        None
    }
}

/// The direction that the trimmed input names: 1 shows terms, 2 shows
/// definitions.
pub open spec fn direction_choice_of(input: Seq<char>) -> Option<Direction> {
    let t = trimmed(input);
    if t == "1"@ {
        Some(Direction::TermToDefinition)
    } else if t == "2"@ {
        Some(Direction::DefinitionToTerm)
    } else {
        None
    }
}

/// Reads a learning-direction choice; `None` for anything but 1 or 2.
pub fn direction_choice(input: &str) -> (r: Option<Direction>)
    ensures
        r == direction_choice_of(input@),
{
    let t = trim_str(input);
    if same_text(t, "1") {
        Some(Direction::TermToDefinition)
    } else if same_text(t, "2") {
        Some(Direction::DefinitionToTerm)
    } else {
        None
    }
}

} // verus!
