//! The user-facing error carried out of command-level validation: a message
//! and an optional suggestion for what to do instead.
use vstd::prelude::*;

verus! {

/// A message for the user, with an optional suggestion.
#[derive(Debug)]
pub struct Error {
    message: String,
    suggest: String,
}

impl Error {
    /// The message text.
    pub closed spec fn message_view(&self) -> Seq<char> {
        self.message@
    }

    /// The suggestion text; empty when there is none.
    pub closed spec fn suggest_view(&self) -> Seq<char> {
        self.suggest@
    }

    /// An error with a message alone.
    pub fn new(message: &str) -> (r: Error)
        ensures
            r.message_view() == message@,
            r.suggest_view() == Seq::<char>::empty(),
    {
        Error { message: message.to_owned(), suggest: String::new() }
    }

    /// An error with a message and a suggestion.
    pub fn with_suggest(message: String, suggest: String) -> (r: Error)
        ensures
            r.message_view() == message@,
            r.suggest_view() == suggest@,
    {
        Error { message, suggest }
    }

    /// Read the message back.
    pub fn message(&self) -> (r: &str)
        ensures
            r@ == self.message_view(),
    {
        self.message.as_str()
    }

    /// Read the suggestion back.
    pub fn suggest(&self) -> (r: &str)
        ensures
            r@ == self.suggest_view(),
    {
        self.suggest.as_str()
    }
}

} // verus!
