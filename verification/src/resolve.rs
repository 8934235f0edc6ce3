//! What a resolver answers: a value, a request to ask the user, or a
//! failure that ends the program.

use vstd::prelude::*;
use crate::text::texts_of;

verus! {

/// Why a resolver gave up.
#[derive(Clone, Copy, Debug, PartialEq, Eq, Structural)]
pub enum ResolveError {
    /// The device list is empty: there is nothing to choose from.
    NoDevices,
    /// The input stream is closed or cannot be read.
    InputClosed,
    /// An accepted line is not an unsigned integer.
    InvalidIndex,
    /// An accepted line spells an integer that no index can hold.
    IndexTooLarge,
    /// An accepted line spells an integer that is no position in the list.
    IndexOutOfRange,
}

/// The answer of a resolver.
#[derive(Debug, PartialEq, Eq)]
pub enum Resolution<T> {
    /// The value is settled.
    Resolved(T),
    /// Show these lines, read a line, and come back with it.
    Prompt(Vec<String>),
    /// Give up.
    Failed(ResolveError),
}

/// The answer of a resolver as plain data.
pub enum Outcome<V> {
    Resolved(V),
    Prompt(Seq<Seq<char>>),
    Failed(ResolveError),
}

impl<T: View> View for Resolution<T> {
    type V = Outcome<T::V>;

    open spec fn view(&self) -> Outcome<T::V> {
        match self {
            Resolution::Resolved(value) => Outcome::Resolved(value@),
            Resolution::Prompt(lines) => Outcome::Prompt(texts_of(lines@)),
            Resolution::Failed(error) => Outcome::Failed(*error),
        }
    }
}

/// What each failure reads like.
pub open spec fn error_text(error: ResolveError) -> Seq<char> {
    match error {
        ResolveError::NoDevices => "no connected displays found"@,
        ResolveError::InputClosed => "the input stream is closed"@,
        ResolveError::InvalidIndex => "invalid digit found in string"@,
        ResolveError::IndexTooLarge => "number too large to fit in target type"@,
        ResolveError::IndexOutOfRange => "no device has this index"@,
    }
}

impl ResolveError {
    /// The failure in words.
    pub fn message(&self) -> (r: String)
        ensures
            r@ == error_text(*self),
    {
        match self {
            ResolveError::NoDevices => String::from_str("no connected displays found"),
            ResolveError::InputClosed => String::from_str("the input stream is closed"),
            ResolveError::InvalidIndex => String::from_str("invalid digit found in string"),
            ResolveError::IndexTooLarge => String::from_str(
                "number too large to fit in target type",
            ),
            ResolveError::IndexOutOfRange => String::from_str("no device has this index"),
        }
    }
}

} // verus!
