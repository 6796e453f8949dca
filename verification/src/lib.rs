//! A solver aid for a word-guessing game: feedback from past guesses is
//! accumulated into a constraint set, which is then applied to a list of
//! candidate words, keeping exactly those consistent with the feedback.
#![verifier::loop_isolation(false)]

pub mod letters;
pub mod position;
pub mod word;
