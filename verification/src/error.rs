//! The ways in which a written document or message can be malformed.

use vstd::prelude::*;

verus! {

/// Why a text could not be read as a document or a message.
#[derive(Clone, Copy, Debug, PartialEq, Eq, Structural)]
pub enum ParseError {
    /// The text holds no title line.
    MissingTitle,
    /// The first line is not of the form `-= TITLE =-`.
    MalformedTitleMarkers,
    /// The line after the title carries one identifier bracket without the other.
    MalformedIdentifierMarkers,
    /// A message holds no line at all.
    MissingDateline,
    /// A message's first line is no dateline, or its index is no number.
    MalformedDateline,
    /// A message follows one whose index is the largest a machine integer holds.
    IndexExhausted,
}

impl ParseError {
    /// A short description for people.
    pub fn describe(&self) -> (s: &'static str)
        ensures
            s@ == describe_error(*self)@,
    {
        match self {
            ParseError::MissingTitle => "no title line",
            ParseError::MalformedTitleMarkers => "title line is not of the form -= TITLE =-",
            ParseError::MalformedIdentifierMarkers => "identifier line lacks a bracket",
            ParseError::MissingDateline => "message without a dateline",
            ParseError::MalformedDateline => "malformed dateline",
            ParseError::IndexExhausted => "no index is left for the next message",
        }
    }
}

/// The description of each error.
pub open spec fn describe_error(e: ParseError) -> &'static str {
    match e {
        ParseError::MissingTitle => "no title line",
        ParseError::MalformedTitleMarkers => "title line is not of the form -= TITLE =-",
        ParseError::MalformedIdentifierMarkers => "identifier line lacks a bracket",
        ParseError::MissingDateline => "message without a dateline",
        ParseError::MalformedDateline => "malformed dateline",
        ParseError::IndexExhausted => "no index is left for the next message",
    }
}

} // verus!
