//! What can go wrong: a stop word that vetoes a run, an annotation read under
//! the wrong kind, and what a dictionary's store reports.

use crate::sentence::MetaKind;
use vstd::prelude::*;
use vstd::string::*;

verus! {

/// A stop word was met by a stage that was told to give up on one.
#[derive(Clone, PartialEq, Eq, Debug)]
pub struct StopWordError {
    /// The text of the offending token, as it stands in the raw sentence.
    pub stop_word: String,
}

impl StopWordError {
    /// A short name for this kind of failure.
    pub fn description(&self) -> (text: &'static str)
        ensures
            text@ == "Stop word"@,
    {
        "Stop word"
    }

    /// The failure in words, with the stop word in brackets.
    pub fn message(&self) -> (text: String)
        ensures
            text@ == "stop word:["@ + self.stop_word@ + "]"@,
    {
        let mut text = String::from_str("stop word:[");
        text.append(self.stop_word.as_str());
        text.append("]");
        text
    }
}

/// The failures that the library reports.
#[derive(Clone, PartialEq, Eq, Debug)]
pub enum Error {
    /// A stage gave up on a stop word.
    StopWord(StopWordError),
    /// A change needed sole access to a word set that something else holds too.
    ExclusiveAccess,
    /// An annotation was read as `expected`, and is of the kind `found`.
    MetaKind { expected: MetaKind, found: MetaKind },
    /// What the store behind a dictionary reported, in its own words.
    Backend(String),
}

/// An error with its texts as character sequences.
pub enum ErrorView {
    StopWord(Seq<char>),
    ExclusiveAccess,
    MetaKind { expected: MetaKind, found: MetaKind },
    Backend(Seq<char>),
}

/// The words in which an error is reported.
pub open spec fn message_of(error: ErrorView) -> Seq<char> {
    match error {
        ErrorView::StopWord(word) => "stop word:["@ + word + "]"@,
        ErrorView::ExclusiveAccess => "Unexpected error."@,
        ErrorView::MetaKind { expected, found } => "Expected "@ + expected.spec_name() + " value. Found ["@
            + found.spec_name() + "]"@,
        ErrorView::Backend(text) => text,
    }
}

impl View for Error {
    type V = ErrorView;

    open spec fn view(&self) -> ErrorView {
        match *self {
            Error::StopWord(e) => ErrorView::StopWord(e.stop_word@),
            Error::ExclusiveAccess => ErrorView::ExclusiveAccess,
            Error::MetaKind { expected, found } => ErrorView::MetaKind { expected, found },
            Error::Backend(text) => ErrorView::Backend(text@),
        }
    }
}

/// How an outcome looks in contracts.
pub open spec fn outcome_view(outcome: Result<(), Error>) -> Result<(), ErrorView> {
    match outcome {
        Ok(()) => Ok(()),
        Err(error) => Err(error@),
    }
}

impl Error {
    /// The failure in words.
    pub fn message(&self) -> (text: String)
        ensures
            text@ == message_of(self@),
    {
        match self {
            Error::StopWord(e) => e.message(),
            Error::ExclusiveAccess => String::from_str("Unexpected error."),
            Error::MetaKind { expected, found } => {
                let mut text = String::from_str("Expected ");
                text.append(expected.name());
                text.append(" value. Found [");
                text.append(found.name());
                text.append("]");
                text
            },
            Error::Backend(text) => text.clone(),
        }
    }
}

} // verus!
