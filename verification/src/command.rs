//! The two calls of the display tool: what to run, and what to make of the
//! way a run ended. Running the tool is left to the caller.

use vstd::prelude::*;
use vstd::utf8::{decode_utf8, valid_utf8};
use crate::decode::{decode, valid_up_to};
use crate::brightness::{brightness_line_accepted, is_brightness_text};
use crate::digits::{decimal_digits, decimal_text};
use crate::devices::{device_names, lemma_empty_output_has_no_devices, parse_devices};
use crate::text::{texts_of, trim, trimmed};

verus! {

/// How a run of the display tool ended.
#[derive(Debug, PartialEq, Eq)]
pub enum Run {
    /// The tool ran to its end. `code` is its exit code, or nothing where a
    /// signal ended it; `output` is what it wrote to its standard output.
    Finished { code: Option<i32>, output: Vec<u8> },
    /// The tool could not be started, or its output could not be captured.
    /// The text names the cause.
    Failed(String),
}

/// Why the device list could not be had.
#[derive(Debug, PartialEq, Eq)]
pub enum AcquisitionError {
    /// The display tool did not run.
    NotRun(String),
    /// The display tool wrote bytes that are no UTF-8 text. They are
    /// well-formed up to the position `valid_up_to`.
    NotText { valid_up_to: usize },
}

/// A device together with the brightness to set on it. The brightness is
/// always the text of a multiplier between 0.3 and 4.9.
#[derive(Debug)]
pub struct Selection {
    device: String,
    brightness: String,
}

/// A selection as plain data.
pub struct SelectionView {
    pub device: Seq<char>,
    pub brightness: Seq<char>,
}

impl View for Selection {
    type V = SelectionView;

    closed spec fn view(&self) -> SelectionView {
        SelectionView { device: self.device@, brightness: self.brightness@ }
    }
}

/// The name of the display tool.
pub open spec fn tool() -> Seq<char> {
    "xrandr"@
}

/// The command that lists the outputs: the tool, with no arguments.
pub open spec fn listing_words() -> Seq<Seq<char>> {
    seq![tool()]
}

/// The command that sets `brightness` on the output `device`.
pub open spec fn apply_words(device: Seq<char>, brightness: Seq<char>) -> Seq<Seq<char>> {
    seq![tool(), "--output"@, device, "--brightness"@, brightness]
}

/// The devices that a finished run of the listing command reports. Output
/// that is no UTF-8 text is a failure, however the run ended. A run that
/// ended badly counts as one that wrote nothing.
pub open spec fn listing_result(code: Option<i32>, output: Seq<u8>) -> Result<
    Seq<Seq<char>>,
    AcquisitionError,
> {
    if !valid_utf8(output) {
        Err(AcquisitionError::NotText { valid_up_to: valid_up_to(output) as usize })
    } else if code != Some(0i32) {
        Ok(Seq::empty())
    } else {
        Ok(device_names(decode_utf8(output)))
    }
}

/// A finished run fails exactly where its output is no UTF-8 text, whatever
/// its exit code, and the failure names how far the output is well-formed.
pub proof fn lemma_listing_fails_on_bad_bytes(code: Option<i32>, output: Seq<u8>)
    ensures
        listing_result(code, output) is Err <==> !valid_utf8(output),
        listing_result(code, output) matches Err(error) ==> error == (AcquisitionError::NotText {
            valid_up_to: valid_up_to(output) as usize,
        }),
{
}

/// What an acquisition failure reads like.
pub open spec fn acquisition_text(error: AcquisitionError) -> Seq<char> {
    "Could not get devices. Message: \n"@ + (match error {
        AcquisitionError::NotRun(cause) => "Could not get output of xrandr. Error: \n"@ + cause@,
        AcquisitionError::NotText { valid_up_to } =>
            "Could not convert output to utf8. Error: \ninvalid utf-8 sequence from index "@
                + decimal_digits(valid_up_to as nat),
    })
}

/// How an exit code is written.
pub open spec fn code_digits(code: i32) -> Seq<char> {
    if code < 0 {
        "-"@ + decimal_digits((-code) as nat)
    } else {
        decimal_digits(code as nat)
    }
}

/// Why a finished run that did not end with exit code zero failed.
pub open spec fn exit_cause(code: Option<i32>) -> Seq<char> {
    match code {
        Some(code) => "exit status: "@ + code_digits(code),
        None => "terminated by a signal"@,
    }
}

/// The message after the brightness was set.
pub open spec fn success_text() -> Seq<char> {
    "Brightness set successfully"@
}

/// The message after the brightness could not be set.
pub open spec fn failure_text(device: Seq<char>, brightness: Seq<char>, cause: Seq<char>) -> Seq<
    char,
> {
    "Could not set brightness of device "@ + device + " to "@ + brightness + ". Error: \n"@
        + cause
}

impl Selection {
    #[verifier::type_invariant]
    spec fn well_formed(&self) -> bool {
        is_brightness_text(self.brightness@)
    }

    /// Joins the device at position `index` of `devices` with `brightness`,
    /// taken without surrounding whitespace. There is a selection exactly
    /// where `index` is a position in the list and `brightness` writes a
    /// multiplier between 0.3 and 4.9.
    pub fn new(devices: &Vec<String>, index: usize, brightness: &str) -> (r: Option<Selection>)
        ensures
            r is Some <==> index < devices.len() && is_brightness_text(trimmed(brightness@)),
            r matches Some(selection) ==> selection@.device == devices@[index as int]@
                && selection@.brightness == trimmed(brightness@),
    {
        if index < devices.len() && brightness_line_accepted(brightness) {
            Some(Selection { device: devices[index].clone(), brightness: trim(brightness) })
        } else {
            None
        }
    }

    /// The name of the device.
    pub fn device(&self) -> (r: &str)
        ensures
            r@ == self@.device,
    {
        self.device.as_str()
    }

    /// The brightness, as it is handed to the display tool.
    pub fn brightness(&self) -> (r: &str)
        ensures
            r@ == self@.brightness,
            is_brightness_text(r@),
    {
        proof {
            use_type_invariant(self);
        }
        self.brightness.as_str()
    }
}

/// The words of the command that lists the outputs.
pub fn listing_command() -> (words: Vec<String>)
    ensures
        texts_of(words@) == listing_words(),
{
    let words = vec![String::from_str("xrandr")];
    assert(texts_of(words@) =~= listing_words());
    words
}

/// The words of the command that applies `selection`.
pub fn apply_command(selection: &Selection) -> (words: Vec<String>)
    ensures
        texts_of(words@) == apply_words(selection@.device, selection@.brightness),
        is_brightness_text(selection@.brightness),
{
    let words = vec![
        String::from_str("xrandr"),
        String::from_str("--output"),
        String::from_str(selection.device()),
        String::from_str("--brightness"),
        String::from_str(selection.brightness()),
    ];
    assert(texts_of(words@) =~= apply_words(selection@.device, selection@.brightness));
    words
}

/// Makes the device list of a run of the listing command. A run that did
/// not start fails. The output of a finished run is read as text first, and
/// fails where it is none, whatever the exit code; a run that did not end
/// with exit code zero then gives the empty list, and one that did gives the
/// devices that its output reports.
pub fn read_listing(run: Run) -> (r: Result<Vec<String>, AcquisitionError>)
    ensures
        (match run {
            Run::Failed(cause) => r == Err::<Vec<String>, AcquisitionError>(
                AcquisitionError::NotRun(cause),
            ),
            Run::Finished { code, output } => match r {
                Ok(devices) => listing_result(code, output@) == Ok::<
                    Seq<Seq<char>>,
                    AcquisitionError,
                >(texts_of(devices@)),
                Err(error) => listing_result(code, output@) == Err::<
                    Seq<Seq<char>>,
                    AcquisitionError,
                >(error),
            },
        }),
{
    match run {
        Run::Failed(cause) => Err(AcquisitionError::NotRun(cause)),
        Run::Finished { code, output } => {
            let text = match decode(output.as_slice()) {
                Ok(text) => text,
                Err(valid_up_to) => {
                    return Err(AcquisitionError::NotText { valid_up_to });
                },
            };
            let ended_well = match code {
                Some(code) => code == 0,
                None => false,
            };
            if ended_well {
                Ok(parse_devices(text))
            } else {
                proof {
                    lemma_empty_output_has_no_devices();
                    reveal_strlit("");
                    assert(""@ =~= Seq::<char>::empty());
                }
                Ok(parse_devices(""))
            }
        },
    }
}

impl AcquisitionError {
    /// The failure in words: the operation, then the cause.
    pub fn message(&self) -> (r: String)
        ensures
            r@ == acquisition_text(*self),
    {
        let mut text = String::from_str("Could not get devices. Message: \n");
        match self {
            AcquisitionError::NotRun(cause) => {
                text.append("Could not get output of xrandr. Error: \n");
                text.append(cause.as_str());
            },
            AcquisitionError::NotText { valid_up_to } => {
                text.append(
                    "Could not convert output to utf8. Error: \ninvalid utf-8 sequence from index ",
                );
                text.append(decimal_text(*valid_up_to as u64).as_str());
            },
        }
        text
    }
}

/// Writes an exit code.
fn code_text(code: i32) -> (r: String)
    ensures
        r@ == code_digits(code),
{
    if code < 0 {
        let magnitude: u64 = (-(code as i64)) as u64;
        let mut text = String::from_str("-");
        text.append(decimal_text(magnitude).as_str());
        text
    } else {
        decimal_text(code as u64)
    }
}

/// Makes the report of a run of the apply command: the success message
/// where the tool ran and ended with exit code zero, and otherwise the
/// failure message, which names the device, the brightness and the cause.
pub fn apply_report(selection: &Selection, run: Run) -> (r: Result<String, String>)
    ensures
        (match r {
            Ok(message) => run matches Run::Finished { code: Some(0i32), .. } && message@
                == success_text(),
            Err(message) => match run {
                Run::Finished { code, .. } => code != Some(0i32) && message@ == failure_text(
                    selection@.device,
                    selection@.brightness,
                    exit_cause(code),
                ),
                Run::Failed(cause) => message@ == failure_text(
                    selection@.device,
                    selection@.brightness,
                    cause@,
                ),
            },
        }),
{
    let cause = match run {
        Run::Failed(cause) => cause,
        Run::Finished { code, output } => match code {
            Some(code) => {
                if code == 0 {
                    return Ok(String::from_str("Brightness set successfully"));
                }
                let mut cause = String::from_str("exit status: ");
                cause.append(code_text(code).as_str());
                cause
            },
            None => String::from_str("terminated by a signal"),
        },
    };
    let mut message = String::from_str("Could not set brightness of device ");
    message.append(selection.device());
    message.append(" to ");
    message.append(selection.brightness());
    message.append(". Error: \n");
    message.append(cause.as_str());
    Err(message)
}

} // verus!
