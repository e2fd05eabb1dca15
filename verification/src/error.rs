use vstd::prelude::*;

verus! {

/// Errors surfaced while compiling a pattern into a table or querying it.
#[derive(Debug, PartialEq)]
pub enum TableError<T> {
    /// The pattern or key contained a non-ASCII character.
    InvalidString(String),
    /// A character of the pattern or key is not in the alphabet.
    InvalidInput(char),
    /// Under the strict policy, a transition was asked to point at two
    /// different nodes. The payload is the alphabet symbol of that transition.
    AmbiguousPattern(char),
    /// A character class was empty or its closing bracket was missing.
    InvalidRange,
    /// A pattern tried to install an accept value on a node that already has
    /// one.
    ValueAlreadyDefined { current: T, requested: T },
}

/// Errors surfaced while scanning an input string into tokens.
#[derive(Debug, PartialEq)]
pub enum LexerError {
    /// The input contained a non-ASCII character.
    InvalidString(String),
    /// The input byte at `position` is not in the alphabet.
    UnknownChar { char: char, position: usize },
    /// No accepting prefix was found for the attempt that started at
    /// `position`, either because the input ended or because the automaton
    /// reached a dead end.
    UnexpectedEnd { position: usize },
}

} // verus!
