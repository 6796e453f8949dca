//! The constraints that apply to one position of the word.
use vstd::prelude::*;

use crate::letters::CharSet;

verus! {

/// The rules for a single position in the word.
#[derive(Debug)]
pub struct Position {
    /// Letters that must NOT appear at this position.
    ///
    /// Usually from a yellow mark at this position: the letter is part of the
    /// word but does not stand here.
    pub yellow: CharSet,
    /// A letter known to stand at this position (a green mark). When set, it
    /// overrides `yellow` entirely.
    pub green: Option<char>,
}

impl Position {
    /// A position that rules nothing out: no green letter, no forbidden ones.
    pub open spec fn is_unconstrained(self) -> bool {
        self.green is None && self.yellow@ == Set::<char>::empty()
    }
}

impl PartialEq for Position {
    /// Two positions are equal when they confirm the same letter (or none)
    /// and forbid the same letters.
    fn eq(&self, other: &Position) -> (r: bool) {
        let same_green = match (self.green, other.green) {
            (None, None) => true,
            (Some(a), Some(b)) => a == b,
            _ => false,
        };
        same_green && self.yellow == other.yellow
    }
}

impl vstd::std_specs::cmp::PartialEqSpecImpl for Position {
    open spec fn obeys_eq_spec() -> bool {
        true
    }

    open spec fn eq_spec(&self, other: &Position) -> bool {
        self.green == other.green && self.yellow@ == other.yellow@
    }
}

impl Eq for Position {

}

impl Default for Position {
    /// An unconstrained position.
    fn default() -> (p: Position)
        ensures
            p.is_unconstrained(),
    {
        Position { yellow: CharSet::new(), green: None }
    }
}

} // verus!
