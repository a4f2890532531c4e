//! Refusals: why an entry of the configuration was refused, and the words for
//! it.

use crate::raw::RawShortcut;
use vstd::prelude::*;
use vstd::string::*;

verus! {

/// Why an entry of the configuration was refused: for its description, the
/// first four, or for its factor.
#[derive(Clone, Copy, Debug, PartialEq, Eq, Structural)]
pub enum ErrorKind {
    InvalidCombination,
    InvalidModifier,
    InvalidKey,
    InvalidButton,
    InvalidFactor,
}

/// A refused configuration entry: why, and the entry, which is its
/// description and what it was mapped to.
#[derive(Debug)]
pub struct ConfigError {
    pub kind: ErrorKind,
    pub spec: String,
    pub shortcut: RawShortcut,
}

/// What a message about a refusal of kind `kind` begins with. A refused
/// factor is named as the factor to toggle to where the entry is a toggle,
/// and as the factor to set else.
pub open spec fn heading(kind: ErrorKind, shortcut: RawShortcut) -> Seq<char> {
    match kind {
        ErrorKind::InvalidCombination => "invalid combination: "@,
        ErrorKind::InvalidModifier => "invalid modifiers: "@,
        ErrorKind::InvalidKey => "invalid key: "@,
        ErrorKind::InvalidButton => "invalid button: "@,
        ErrorKind::InvalidFactor => if shortcut is Toggle {
            "toggle-factor must not be smaller than 1.0: "@
        } else {
            "set-factor must not be smaller than 1.0: "@
        },
    }
}

impl ConfigError {
    /// The refusal in words: what was wrong, then the description.
    pub fn message(&self) -> (text: String)
        ensures
            text@ == heading(self.kind, self.shortcut) + self.spec@,
    {
        let mut text = match self.kind {
            ErrorKind::InvalidCombination => "invalid combination: ".to_owned(),
            ErrorKind::InvalidModifier => "invalid modifiers: ".to_owned(),
            ErrorKind::InvalidKey => "invalid key: ".to_owned(),
            ErrorKind::InvalidButton => "invalid button: ".to_owned(),
            ErrorKind::InvalidFactor => match self.shortcut {
                RawShortcut::Toggle { .. } => "toggle-factor must not be smaller than 1.0: "
                    .to_owned(),
                _ => "set-factor must not be smaller than 1.0: ".to_owned(),
            },
        };
        text.append(self.spec.as_str());
        text
    }
}

} // verus!
