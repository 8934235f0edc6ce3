//! The brightness resolver: which brightness multiplier the user means.

use vstd::prelude::*;
use crate::arguments::{literals_of, NumericArgument};
use crate::decimal::{number_of, parse_decimal, Decimal, Number};
use crate::digits::{lemma_pow10_unfold, pow10};
use crate::reader::{default_retry_message, reader_step, Input, InputEvent, ReaderAction};
use crate::resolve::{error_text, Outcome, Resolution, ResolveError};
use crate::text::{texts_of, trim, trimmed};

verus! {

/// The least multiplier, in tenths.
pub const MIN_TENTHS: u64 = 3;

/// The greatest multiplier, in tenths.
pub const MAX_TENTHS: u64 = 49;

/// Whether `number` is a brightness multiplier: it lies in the closed
/// interval from 0.3 to 4.9.
pub open spec fn in_brightness_range(number: Number) -> bool {
    number.at_least(MIN_TENTHS as nat, -1) && number.at_most(MAX_TENTHS as nat, -1)
}

/// Whether the text `text` writes a brightness multiplier.
pub open spec fn is_brightness_text(text: Seq<char>) -> bool {
    match number_of(text) {
        Some(number) => in_brightness_range(number),
        None => false,
    }
}

/// Whether a typed line passes as a brightness multiplier: without
/// surrounding whitespace it writes one.
pub open spec fn accepts_brightness_line(line: Seq<char>) -> bool {
    is_brightness_text(trimmed(line))
}

/// The multiplier that the command line names: the second numeric argument,
/// as it was written, where there is one and it is a multiplier.
pub open spec fn preselected_brightness(literals: Seq<Seq<char>>) -> Option<Seq<char>> {
    if literals.len() >= 2 && is_brightness_text(literals[1]) {
        Some(literals[1])
    } else {
        None
    }
}

/// The question put to the user.
pub open spec fn brightness_prompt() -> Seq<char> {
    "What should the brightness value be? (min: 0.3, max: 4.9, default: 1.0)"@
}

/// The remark on a line that writes no number at all.
pub open spec fn parse_diagnostic(text: Seq<char>) -> Seq<char> {
    "Could not parse "@ + text + " into a number. Message: "@ + (if text.len() == 0 {
        "cannot parse number from empty string"@
    } else {
        "invalid number literal"@
    })
}

/// How the resolver starts: a multiplier named on the command line is taken
/// as it was written; otherwise the user is asked.
pub open spec fn brightness_start(literals: Seq<Seq<char>>) -> Outcome<Seq<char>> {
    match preselected_brightness(literals) {
        Some(text) => Outcome::Resolved(text),
        None => Outcome::Prompt(seq![brightness_prompt()]),
    }
}

/// How the resolver goes on after the user was asked: an accepted line
/// gives its text without surrounding whitespace; a rejected one is
/// answered with the retry message, after a remark where it writes no
/// number; a closed stream ends the resolver.
pub open spec fn brightness_next(input: Input) -> Outcome<Seq<char>> {
    match input {
        Input::Closed => Outcome::Failed(ResolveError::InputClosed),
        Input::Line(line) => if accepts_brightness_line(line) {
            Outcome::Resolved(trimmed(line))
        } else if number_of(trimmed(line)) is None {
            Outcome::Prompt(seq![parse_diagnostic(trimmed(line)), default_retry_message()])
        } else {
            Outcome::Prompt(seq![default_retry_message()])
        },
    }
}

/// The interval is closed and exact. The two ends are multipliers; only a
/// finite number that is not negative is one; and a number written with
/// `places` digits after the decimal point, `mantissa` being all its digits
/// read as one whole number, is a multiplier exactly when `mantissa` lies
/// between three and forty-nine times the matching power of ten.
pub proof fn lemma_brightness_interval(number: Number, mantissa: nat, places: nat)
    requires
        places >= 1,
    ensures
        in_brightness_range(Number::Finite { negative: false, mantissa: 3, exponent: -1 }),
        in_brightness_range(Number::Finite { negative: false, mantissa: 49, exponent: -1 }),
        in_brightness_range(number) ==> number is Finite && number.is_non_negative(),
        in_brightness_range(Number::Finite { negative: false, mantissa, exponent: -places })
            <==> 3 * pow10((places - 1) as nat) <= mantissa <= 49 * pow10((places - 1) as nat),
{
    lemma_pow10_unfold(0);
    assert(3 * 1 == 3);
    assert(49 * 1 == 49);
    assert(mantissa * 1 == mantissa);
}

/// What a failed resolver reads like: the operation, then the cause.
pub open spec fn brightness_failure_text(error: ResolveError) -> Seq<char> {
    "Could not get brightness value. Error: "@ + error_text(error)
}

/// The message for a failed resolver.
pub fn brightness_failure(error: ResolveError) -> (r: String)
    ensures
        r@ == brightness_failure_text(error),
{
    let mut text = String::from_str("Could not get brightness value. Error: ");
    text.append(error.message().as_str());
    text
}

/// Whether `value` is a brightness multiplier.
pub fn is_brightness(value: &Decimal) -> (r: bool)
    ensures
        r == in_brightness_range(value@),
{
    value.is_at_least(MIN_TENTHS, 1) && value.is_at_most(MAX_TENTHS, 1)
}

/// Whether `line` passes as a brightness multiplier.
pub fn brightness_line_accepted(line: &str) -> (r: bool)
    ensures
        r == accepts_brightness_line(line@),
{
    let text = trim(line);
    match parse_decimal(text.as_str()) {
        Some(value) => is_brightness(&value),
        None => false,
    }
}

/// The remark on `line` where it writes no number, and nothing where it
/// writes one.
pub fn diagnose(line: &str) -> (r: Option<String>)
    ensures
        (match r {
            Some(remark) => number_of(trimmed(line@)) is None && remark@ == parse_diagnostic(
                trimmed(line@),
            ),
            None => number_of(trimmed(line@)) is Some,
        }),
{
    let text = trim(line);
    match parse_decimal(text.as_str()) {
        Some(_) => None,
        None => {
            let mut remark = String::from_str("Could not parse ");
            remark.append(text.as_str());
            remark.append(" into a number. Message: ");
            if text.as_str().unicode_len() == 0 {
                remark.append("cannot parse number from empty string");
            } else {
                remark.append("invalid number literal");
            }
            Some(remark)
        },
    }
}

/// Starts the resolver: answers with the multiplier named on the command
/// line where the second of `arguments` is one, and asks the user otherwise.
pub fn begin_brightness(arguments: &Vec<NumericArgument>) -> (r: Resolution<String>)
    ensures
        r@ == brightness_start(literals_of(arguments@)),
{
    if arguments.len() >= 2 {
        let argument = &arguments[1];
        if is_brightness(argument.value()) {
            return Resolution::Resolved(String::from_str(argument.text()));
        }
    }
    let lines = vec![
        String::from_str("What should the brightness value be? (min: 0.3, max: 4.9, default: 1.0)"),
    ];
    assert(texts_of(lines@) =~= seq![brightness_prompt()]);
    Resolution::Prompt(lines)
}

/// Goes on with the resolver after the user was asked.
pub fn continue_brightness(event: InputEvent) -> (r: Resolution<String>)
    ensures
        r@ == brightness_next(event@),
{
    let remark = match &event {
        InputEvent::Line(line) => diagnose(line.as_str()),
        InputEvent::Closed => None,
    };
    let accepts = |line: &str| -> (passed: bool)
        ensures
            passed == accepts_brightness_line(line@),
        { brightness_line_accepted(line) };
    match reader_step(accepts, None, event) {
        ReaderAction::Abort => Resolution::Failed(ResolveError::InputClosed),
        ReaderAction::Retry(message) => {
            let lines = match remark {
                Some(remark) => {
                    let lines = vec![remark, message];
                    assert(texts_of(lines@) =~= seq![remark@, message@]);
                    lines
                },
                None => {
                    let lines = vec![message];
                    assert(texts_of(lines@) =~= seq![message@]);
                    lines
                },
            };
            Resolution::Prompt(lines)
        },
        ReaderAction::Accept(line) => Resolution::Resolved(trim(line.as_str())),
    }
}

} // verus!
