//! The selection resolver: which device the user means.

use vstd::prelude::*;
use crate::arguments::{literals_of, NumericArgument};
use crate::decimal::{lemma_whole_part_bound, number_of, Number};
use crate::digits::{
    all_digits, decimal_digits, decimal_text, digit_value, digits_value,
    lemma_decimal_digits_read_back, lemma_first_digit_le, lemma_prefix_value_le,
};
use crate::reader::{default_retry_message, reader_step, Input, InputEvent, ReaderAction};
use crate::resolve::{error_text, Outcome, Resolution, ResolveError};
use crate::text::{
    char_is_digit, chars_of, is_digit, lemma_digits_end_bounds, lemma_trimmed_unchanged,
    scan_digits, texts_of, trim, trim_bounds, trimmed,
};

verus! {

/// Whether `number` names a position in a list of `count` devices: it is
/// finite, not negative, and below `count`.
pub open spec fn names_position(number: Number, count: nat) -> bool {
    number is Finite && number.at_least(0, 0) && !number.at_least(count, 0)
}

/// The index that a numeric argument names in a list of `count` devices: the
/// whole part of a number that names a position.
pub open spec fn argument_index(literal: Seq<char>, count: nat) -> Option<nat> {
    match number_of(literal) {
        Some(number) => if names_position(number, count) {
            Some(number.whole(0))
        } else {
            None
        },
        None => None,
    }
}

/// The index that the command line names: that of the first numeric
/// argument, where there is one and it names an index.
pub open spec fn preselected_index(literals: Seq<Seq<char>>, count: nat) -> Option<nat> {
    if literals.len() >= 1 {
        argument_index(literals[0], count)
    } else {
        None
    }
}

/// The line above the menu.
pub open spec fn menu_heading() -> Seq<char> {
    "Type index of device below"@
}

/// The menu entry of the device at position `index`.
pub open spec fn menu_entry(index: nat, name: Seq<char>) -> Seq<char> {
    decimal_digits(index) + ": "@ + name
}

/// The menu: the heading, then one entry for each device, counted from zero.
pub open spec fn menu(devices: Seq<Seq<char>>) -> Seq<Seq<char>> {
    seq![menu_heading()] + Seq::new(devices.len(), |i: int| menu_entry(i as nat, devices[i]))
}

/// Whether a typed line passes as an index into a list of `count` devices:
/// without surrounding whitespace it begins with a digit below `count`.
pub open spec fn accepts_index_line(line: Seq<char>, count: nat) -> bool {
    let text = trimmed(line);
    text.len() > 0 && is_digit(text[0]) && digit_value(text[0]) < count
}

/// The index that a line spells without its surrounding whitespace, or why
/// it spells none: an index is written in digits only, and in at least one.
pub open spec fn line_index(line: Seq<char>, count: nat) -> Result<nat, ResolveError> {
    let text = trimmed(line);
    if text.len() == 0 || !all_digits(text) {
        Err(ResolveError::InvalidIndex)
    } else if digits_value(text) > usize::MAX {
        Err(ResolveError::IndexTooLarge)
    } else if digits_value(text) >= count {
        Err(ResolveError::IndexOutOfRange)
    } else {
        Ok(digits_value(text))
    }
}

/// How the selection starts: with no device there is nothing to select;
/// an index named on the command line is taken as it is; otherwise the user
/// is shown the menu.
pub open spec fn selection_start(literals: Seq<Seq<char>>, devices: Seq<Seq<char>>) -> Outcome<
    usize,
> {
    if devices.len() == 0 {
        Outcome::Failed(ResolveError::NoDevices)
    } else {
        match preselected_index(literals, devices.len()) {
            Some(index) => Outcome::Resolved(index as usize),
            None => Outcome::Prompt(menu(devices)),
        }
    }
}

/// How the selection goes on after the user was asked.
pub open spec fn selection_next(devices: Seq<Seq<char>>, input: Input) -> Outcome<usize> {
    if devices.len() == 0 {
        Outcome::Failed(ResolveError::NoDevices)
    } else {
        match input {
            Input::Closed => Outcome::Failed(ResolveError::InputClosed),
            Input::Line(line) => if accepts_index_line(line, devices.len()) {
                match line_index(line, devices.len()) {
                    Ok(index) => Outcome::Resolved(index as usize),
                    Err(error) => Outcome::Failed(error),
                }
            } else {
                Outcome::Prompt(seq![default_retry_message()])
            },
        }
    }
}

/// Whatever the selection answers, an index that it settles on is a
/// position in the device list, and with no device it fails.
pub proof fn lemma_selection_is_valid(
    literals: Seq<Seq<char>>,
    devices: Seq<Seq<char>>,
    input: Input,
)
    ensures
        selection_start(literals, devices) matches Outcome::Resolved(index) ==> index
            < devices.len(),
        selection_next(devices, input) matches Outcome::Resolved(index) ==> index < devices.len(),
        devices.len() == 0 ==> selection_start(literals, devices) == Outcome::<usize>::Failed(
            ResolveError::NoDevices,
        ) && selection_next(devices, input) == Outcome::<usize>::Failed(ResolveError::NoDevices),
{
    if devices.len() > 0 && literals.len() >= 1 {
        match number_of(literals[0]) {
            Some(number) => {
                if names_position(number, devices.len()) {
                    lemma_whole_part_bound(number, devices.len());
                }
            },
            None => {},
        }
    }
}

/// What the menu shows is what the user may type: the index of each device,
/// written as the menu writes it, passes as a line and is read as that
/// index.
pub proof fn lemma_menu_index_is_accepted(devices: Seq<Seq<char>>, index: nat)
    requires
        index < devices.len() <= usize::MAX,
    ensures
        accepts_index_line(decimal_digits(index), devices.len()),
        line_index(decimal_digits(index), devices.len()) == Ok::<nat, ResolveError>(index),
        selection_next(devices, Input::Line(decimal_digits(index))) == Outcome::Resolved(
            index as usize,
        ),
{
    let text = decimal_digits(index);
    lemma_decimal_digits_read_back(index);
    lemma_first_digit_le(text);
    assert(is_digit(text[0]));
    assert(is_digit(text.last()));
    lemma_trimmed_unchanged(text);
}

/// What a failed selection reads like: the operation, then the cause.
pub open spec fn selection_failure_text(error: ResolveError) -> Seq<char> {
    "Could not get selected device index. Error: "@ + error_text(error)
}

/// The message for a failed selection.
pub fn selection_failure(error: ResolveError) -> (r: String)
    ensures
        r@ == selection_failure_text(error),
{
    let mut text = String::from_str("Could not get selected device index. Error: ");
    text.append(error.message().as_str());
    text
}

/// Whether `line` passes as an index into a list of `count` devices.
pub fn index_line_accepted(line: &str, count: usize) -> (r: bool)
    ensures
        r == accepts_index_line(line@, count as nat),
{
    let chars = chars_of(line);
    let bounds = trim_bounds(&chars);
    if bounds.0 >= bounds.1 {
        return false;
    }
    let first = chars[bounds.0];
    assert(first == trimmed(line@)[0]);
    char_is_digit(first) && ((first as u32 - '0' as u32) as usize) < count
}

/// Reads an accepted line as an index into a list of `count` devices.
pub fn read_index(line: &str, count: usize) -> (r: Result<usize, ResolveError>)
    ensures
        (match r {
            Ok(index) => line_index(line@, count as nat) == Ok::<nat, ResolveError>(index as nat),
            Err(error) => line_index(line@, count as nat) == Err::<nat, ResolveError>(error),
        }),
{
    let text = trim(line);
    let digits = chars_of(text.as_str());
    let end = scan_digits(&digits, 0);
    proof {
        lemma_digits_end_bounds(digits@, 0);
    }
    if end < digits.len() || digits.len() == 0 {
        return Err(ResolveError::InvalidIndex);
    }
    let mut value: usize = 0;
    let mut i: usize = 0;
    while i < digits.len()
        invariant
            digits@ == trimmed(line@),
            all_digits(digits@),
            i <= digits.len(),
            value == digits_value(digits@.take(i as int)),
        decreases digits.len() - i,
    {
        let c = digits[i];
        assert(is_digit(digits@[i as int]));
        let d: usize = (c as u32 - '0' as u32) as usize;
        proof {
            assert(digits@.take(i + 1).drop_last() == digits@.take(i as int));
            lemma_prefix_value_le(digits@, i + 1);
        }
        let next = match value.checked_mul(10) {
            Some(scaled) => match scaled.checked_add(d) {
                Some(next) => next,
                None => {
                    return Err(ResolveError::IndexTooLarge);
                },
            },
            None => {
                return Err(ResolveError::IndexTooLarge);
            },
        };
        value = next;
        i += 1;
    }
    assert(digits@.take(digits.len() as int) == digits@);
    if value >= count {
        Err(ResolveError::IndexOutOfRange)
    } else {
        Ok(value)
    }
}

/// The index that `argument` names in a list of `count` devices.
pub fn index_of_argument(argument: &NumericArgument, count: usize) -> (r: Option<usize>)
    ensures
        (match r {
            Some(index) => argument_index(argument@, count as nat) == Some(index as nat),
            None => argument_index(argument@, count as nat) is None,
        }),
{
    let value = argument.value();
    if !value.is_finite() || !value.is_non_negative() {
        return None;
    }
    proof {
        lemma_whole_part_bound(value@, count as nat);
    }
    match value.whole(0) {
        Some(whole) => if whole.value < count as u64 {
            Some(whole.value as usize)
        } else {
            None
        },
        None => None,
    }
}

/// The menu of `devices`, line by line.
pub fn menu_lines(devices: &Vec<String>) -> (lines: Vec<String>)
    ensures
        texts_of(lines@) == menu(texts_of(devices@)),
{
    let mut lines: Vec<String> = Vec::new();
    lines.push(String::from_str("Type index of device below"));
    let mut i: usize = 0;
    while i < devices.len()
        invariant
            i <= devices.len(),
            lines.len() == i + 1,
            lines@[0]@ == menu_heading(),
            forall|j: int| 0 <= j < i ==> (#[trigger] lines@[j + 1])@ == menu_entry(
                j as nat,
                devices@[j]@,
            ),
        decreases devices.len() - i,
    {
        let mut entry = decimal_text(i as u64);
        entry.append(": ");
        entry.append(devices[i].as_str());
        lines.push(entry);
        i += 1;
    }
    assert(texts_of(lines@) =~= menu(texts_of(devices@))) by {
        assert forall|j: int| 0 <= j < lines.len() implies texts_of(lines@)[j] == menu(
            texts_of(devices@),
        )[j] by {
            if j > 0 {
                assert(lines@[(j - 1) + 1]@ == menu_entry((j - 1) as nat, devices@[j - 1]@));
            }
        }
    }
    lines
}

/// Starts the selection: answers with the index named on the command line
/// where `arguments` begins with one, asks the user otherwise, and fails
/// where there is no device.
pub fn begin_selection(arguments: &Vec<NumericArgument>, devices: &Vec<String>) -> (r: Resolution<
    usize,
>)
    ensures
        r@ == selection_start(literals_of(arguments@), texts_of(devices@)),
{
    let count = devices.len();
    if count == 0 {
        return Resolution::Failed(ResolveError::NoDevices);
    }
    if arguments.len() >= 1 {
        match index_of_argument(&arguments[0], count) {
            Some(index) => {
                return Resolution::Resolved(index);
            },
            None => {},
        }
    }
    Resolution::Prompt(menu_lines(devices))
}

/// Goes on with the selection after the user was asked: a line that passes
/// is read as the index, one that does not is answered with the retry
/// message, and a closed stream ends the selection.
pub fn continue_selection(devices: &Vec<String>, event: InputEvent) -> (r: Resolution<usize>)
    ensures
        r@ == selection_next(texts_of(devices@), event@),
{
    let count = devices.len();
    if count == 0 {
        return Resolution::Failed(ResolveError::NoDevices);
    }
    let accepts = |line: &str| -> (passed: bool)
        ensures
            passed == accepts_index_line(line@, count as nat),
        { index_line_accepted(line, count) };
    match reader_step(accepts, None, event) {
        ReaderAction::Abort => Resolution::Failed(ResolveError::InputClosed),
        ReaderAction::Retry(message) => {
            let lines = vec![message];
            assert(texts_of(lines@) =~= seq![default_retry_message()]);
            Resolution::Prompt(lines)
        },
        ReaderAction::Accept(line) => match read_index(line.as_str(), count) {
            Ok(index) => Resolution::Resolved(index),
            Err(error) => Resolution::Failed(error),
        },
    }
}

} // verus!
