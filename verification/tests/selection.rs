use brightness_control::arguments::numeric_arguments;
use brightness_control::devices::parse_devices;
use brightness_control::reader::InputEvent;
use brightness_control::resolve::{Resolution, ResolveError};
use brightness_control::selection::{
    begin_selection, continue_selection, index_line_accepted, index_of_argument, menu_lines,
    read_index, selection_failure,
};

fn three_devices() -> Vec<String> {
    parse_devices("eDP-1 connected\nHDMI-1 connected\nDP-1 connected")
}

fn begin(arguments: &[&str], devices: &Vec<String>) -> Resolution<usize> {
    let tokens: Vec<String> = arguments.iter().map(|token| token.to_string()).collect();
    begin_selection(&numeric_arguments(&tokens), devices)
}

fn line(text: &str) -> InputEvent {
    InputEvent::Line(text.to_string())
}

fn menu() -> Vec<String> {
    vec![
        "Type index of device below".to_string(),
        "0: eDP-1".to_string(),
        "1: HDMI-1".to_string(),
        "2: DP-1".to_string(),
    ]
}

#[test]
fn argument_in_range_selects_without_a_prompt() {
    assert_eq!(begin(&["1.0", "2.5"], &three_devices()), Resolution::Resolved(1));
    assert_eq!(begin(&["0"], &three_devices()), Resolution::Resolved(0));
    assert_eq!(begin(&["2"], &three_devices()), Resolution::Resolved(2));
}

#[test]
fn argument_out_of_range_falls_back_to_the_prompt() {
    assert_eq!(begin(&["10.0"], &three_devices()), Resolution::Prompt(menu()));
    assert_eq!(begin(&["3"], &three_devices()), Resolution::Prompt(menu()));
    assert_eq!(begin(&["-1"], &three_devices()), Resolution::Prompt(menu()));
    assert_eq!(begin(&["nan", "1"], &three_devices()), Resolution::Prompt(menu()));
    assert_eq!(begin(&["inf"], &three_devices()), Resolution::Prompt(menu()));
    assert_eq!(begin(&["1e30"], &three_devices()), Resolution::Prompt(menu()));
}

#[test]
fn no_argument_asks_with_the_menu() {
    assert_eq!(begin(&[], &three_devices()), Resolution::Prompt(menu()));
    assert_eq!(begin(&["prog", "--x"], &three_devices()), Resolution::Prompt(menu()));
}

#[test]
fn argument_counts_by_its_whole_part() {
    assert_eq!(begin(&["2.999999999999999999999"], &three_devices()), Resolution::Resolved(2));
    assert_eq!(begin(&["0.5"], &three_devices()), Resolution::Resolved(0));
    assert_eq!(begin(&["-0.0"], &three_devices()), Resolution::Resolved(0));
    assert_eq!(begin(&["-0.5"], &three_devices()), Resolution::Prompt(menu()));
    assert_eq!(begin(&["20e-1"], &three_devices()), Resolution::Resolved(2));
}

#[test]
fn empty_device_list_fails_and_never_prompts() {
    let none: Vec<String> = Vec::new();
    assert_eq!(begin(&[], &none), Resolution::Failed(ResolveError::NoDevices));
    assert_eq!(begin(&["0"], &none), Resolution::Failed(ResolveError::NoDevices));
    assert_eq!(continue_selection(&none, line("0\n")), Resolution::Failed(ResolveError::NoDevices));
    assert_eq!(continue_selection(&none, InputEvent::Closed), Resolution::Failed(ResolveError::NoDevices));
}

#[test]
fn typed_index_is_read() {
    assert_eq!(continue_selection(&three_devices(), line("1\n")), Resolution::Resolved(1));
    assert_eq!(continue_selection(&three_devices(), line("  2  \r\n")), Resolution::Resolved(2));
    assert_eq!(continue_selection(&three_devices(), line("0")), Resolution::Resolved(0));
    assert_eq!(continue_selection(&three_devices(), line("002")), Resolution::Resolved(2));
}

#[test]
fn rejected_line_asks_again() {
    let again = Resolution::Prompt(vec!["Input did not meet requirements, try again".to_string()]);
    assert_eq!(continue_selection(&three_devices(), line("3\n")), again);
    assert_eq!(continue_selection(&three_devices(), line("x\n")), again);
    assert_eq!(continue_selection(&three_devices(), line("\n")), again);
    assert_eq!(continue_selection(&three_devices(), line("-1\n")), again);
    assert_eq!(continue_selection(&three_devices(), line("+1\n")), again);
    assert_eq!(continue_selection(&three_devices(), line("٢\n")), again);
}

#[test]
fn accepted_line_that_is_no_index_fails() {
    assert_eq!(continue_selection(&three_devices(), line("1x\n")), Resolution::Failed(ResolveError::InvalidIndex));
    assert_eq!(continue_selection(&three_devices(), line("1 2\n")), Resolution::Failed(ResolveError::InvalidIndex));
    assert_eq!(continue_selection(&three_devices(), line("1.0\n")), Resolution::Failed(ResolveError::InvalidIndex));
    assert_eq!(
        continue_selection(&three_devices(), line("199999999999999999999999999\n")),
        Resolution::Failed(ResolveError::IndexTooLarge)
    );
    assert_eq!(continue_selection(&three_devices(), line("12\n")), Resolution::Failed(ResolveError::IndexOutOfRange));
}

#[test]
fn closed_input_fails() {
    assert_eq!(continue_selection(&three_devices(), InputEvent::Closed), Resolution::Failed(ResolveError::InputClosed));
}

#[test]
fn predicate_looks_at_the_first_character_only() {
    assert!(index_line_accepted("1\n", 3));
    assert!(index_line_accepted("  2", 3));
    assert!(index_line_accepted("12", 3));
    assert!(index_line_accepted("2abc", 3));
    assert!(!index_line_accepted("3", 3));
    assert!(!index_line_accepted("9", 9));
    assert!(index_line_accepted("9", 10));
    assert!(index_line_accepted("9", 1000));
    assert!(!index_line_accepted("", 3));
    assert!(!index_line_accepted("a1", 3));
    assert!(!index_line_accepted("0", 0));
}

#[test]
fn index_is_read_from_digits_only() {
    assert_eq!(read_index("7\n", 10), Ok(7));
    assert_eq!(read_index("10", 11), Ok(10));
    assert_eq!(read_index("10", 10), Err(ResolveError::IndexOutOfRange));
    assert_eq!(read_index("1a", 10), Err(ResolveError::InvalidIndex));
    assert_eq!(read_index("", 10), Err(ResolveError::InvalidIndex));
    assert_eq!(read_index(" \n", 10), Err(ResolveError::InvalidIndex));
    assert_eq!(read_index("+1", 10), Err(ResolveError::InvalidIndex));
    assert_eq!(read_index("99999999999999999999999999", 10), Err(ResolveError::IndexTooLarge));
}

#[test]
fn argument_index_is_exact() {
    let tokens = vec!["2.5".to_string(), "3".to_string()];
    let arguments = numeric_arguments(&tokens);
    assert_eq!(index_of_argument(&arguments[0], 3), Some(2));
    assert_eq!(index_of_argument(&arguments[0], 2), None);
    assert_eq!(index_of_argument(&arguments[1], 3), None);
    assert_eq!(index_of_argument(&arguments[1], 4), Some(3));
}

#[test]
fn menu_counts_from_zero() {
    assert_eq!(menu_lines(&three_devices()), menu());
    assert_eq!(menu_lines(&Vec::new()), vec!["Type index of device below".to_string()]);
    let many: Vec<String> = (0..12).map(|i| format!("D{}", i)).collect();
    let lines = menu_lines(&many);
    assert_eq!(lines.len(), 13);
    assert_eq!(lines[11], "10: D10");
    assert_eq!(lines[12], "11: D11");
}

#[test]
fn failure_names_the_operation_and_the_cause() {
    assert_eq!(
        selection_failure(ResolveError::NoDevices),
        "Could not get selected device index. Error: no connected displays found"
    );
    assert_eq!(
        selection_failure(ResolveError::InvalidIndex),
        "Could not get selected device index. Error: invalid digit found in string"
    );
    assert_eq!(ResolveError::IndexTooLarge.message(), "number too large to fit in target type");
    assert_eq!(ResolveError::IndexOutOfRange.message(), "no device has this index");
    assert_eq!(ResolveError::InputClosed.message(), "the input stream is closed");
}
