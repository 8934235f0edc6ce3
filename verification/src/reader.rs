//! The validated input reader: what to do with each line that the user
//! types, given the test that a line has to pass.

use vstd::prelude::*;

verus! {

/// What came back from one attempt to read a line.
#[derive(Debug, PartialEq, Eq)]
pub enum InputEvent {
    /// A line, as it was typed, with its line ending.
    Line(String),
    /// The stream is closed or cannot be read.
    Closed,
}

/// An input event as plain data.
pub enum Input {
    Line(Seq<char>),
    Closed,
}

impl View for InputEvent {
    type V = Input;

    open spec fn view(&self) -> Input {
        match self {
            InputEvent::Line(line) => Input::Line(line@),
            InputEvent::Closed => Input::Closed,
        }
    }
}

/// What the reader does next.
#[derive(Debug, PartialEq, Eq)]
pub enum ReaderAction {
    /// The line passed the test: hand it on as it was typed.
    Accept(String),
    /// The line failed the test: show the message and read another line.
    Retry(String),
    /// No line can be read any more: give up.
    Abort,
}

/// The message shown for a rejected line where the caller names none.
pub open spec fn default_retry_message() -> Seq<char> {
    "Input did not meet requirements, try again"@
}

/// Whether `predicate` can give `verdict` on a text that reads `line`.
pub open spec fn judged<F: Fn(&str) -> bool>(predicate: F, line: Seq<char>, verdict: bool) -> bool {
    exists|text: &str| text@ == line && call_ensures(predicate, (text,), verdict)
}

/// One step of the retry loop. A line that passes `predicate` is accepted
/// verbatim; one that fails it is answered with `error_message`, or with the
/// default message; a closed stream ends the loop.
pub fn reader_step<F: Fn(&str) -> bool>(
    predicate: F,
    error_message: Option<String>,
    event: InputEvent,
) -> (action: ReaderAction)
    requires
        forall|text: &str| call_requires(predicate, (text,)),
    ensures
        (match event {
            InputEvent::Closed => action is Abort,
            InputEvent::Line(line) => match action {
                ReaderAction::Accept(text) => text == line && judged(predicate, line@, true),
                ReaderAction::Retry(message) => judged(predicate, line@, false) && message@ == (
                match error_message {
                    Some(given) => given@,
                    None => default_retry_message(),
                }),
                ReaderAction::Abort => false,
            },
        }),
{
    match event {
        InputEvent::Closed => ReaderAction::Abort,
        InputEvent::Line(line) => {
            if predicate(line.as_str()) {
                ReaderAction::Accept(line)
            } else {
                match error_message {
                    Some(given) => ReaderAction::Retry(given),
                    None => ReaderAction::Retry(
                        String::from_str("Input did not meet requirements, try again"),
                    ),
                }
            }
        },
    }
}

} // verus!
