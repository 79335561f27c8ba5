//! The learning direction, persisted as a setting string.
use vstd::prelude::*;
use crate::text::same_text;

verus! {

/// Which side of a card is shown; the other side is the expected answer.
#[derive(Debug, Clone, Copy, PartialEq, Eq, Structural)]
pub enum Direction {
    TermToDefinition,
    DefinitionToTerm,
}

/// The stored text of each direction.
pub open spec fn setting_text(d: Direction) -> Seq<char> {
    match d {
        Direction::TermToDefinition => "term_to_definition"@,
        Direction::DefinitionToTerm => "definition_to_term"@,
    }
}

/// Decoding of a stored setting: an unset or unrecognised value falls back
/// to `TermToDefinition`.
pub open spec fn decoded(value: Option<Seq<char>>) -> Direction {
    match value {
        Some(v) => if v == setting_text(Direction::DefinitionToTerm) {
            Direction::DefinitionToTerm
        } else {
            Direction::TermToDefinition
        },
        None => Direction::TermToDefinition,
    }
}

impl Direction {
    /// The text under which this direction is stored.
    pub fn setting_value(self) -> (r: &'static str)
        ensures
            r@ == setting_text(self),
    {
        match self {
            Direction::TermToDefinition => "term_to_definition",
            Direction::DefinitionToTerm => "definition_to_term",
        }
    }

    /// Decodes a stored setting, falling back to the default.
    pub fn from_setting(value: Option<&str>) -> (r: Direction)
        ensures
            r == decoded(match value {
                Some(v) => Some(v@),
                None => None,
            }),
    {
        match value {
            Some(v) => {
                if same_text(v, "definition_to_term") {
                    Direction::DefinitionToTerm
                } else {
                    Direction::TermToDefinition
                }
            },
            None => Direction::TermToDefinition,
        }
    }
}

/// Decoding the stored text of a direction gives that direction back.
pub proof fn lemma_decode_encode(d: Direction)
    ensures
        decoded(Some(setting_text(d))) == d,
{
    reveal_strlit("term_to_definition");
    reveal_strlit("definition_to_term");
    if d == Direction::TermToDefinition {
        assert(setting_text(d)[0] != setting_text(Direction::DefinitionToTerm)[0]);
    }
}

} // verus!
