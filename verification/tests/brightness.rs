use brightness_control::arguments::numeric_arguments;
use brightness_control::brightness::{
    begin_brightness, brightness_failure, brightness_line_accepted, continue_brightness, diagnose,
    is_brightness,
};
use brightness_control::decimal::parse_decimal;
use brightness_control::reader::InputEvent;
use brightness_control::resolve::{Resolution, ResolveError};

fn begin(arguments: &[&str]) -> Resolution<String> {
    let tokens: Vec<String> = arguments.iter().map(|token| token.to_string()).collect();
    begin_brightness(&numeric_arguments(&tokens))
}

fn line(text: &str) -> InputEvent {
    InputEvent::Line(text.to_string())
}

fn question() -> Resolution<String> {
    Resolution::Prompt(vec![
        "What should the brightness value be? (min: 0.3, max: 4.9, default: 1.0)".to_string(),
    ])
}

fn again() -> Resolution<String> {
    Resolution::Prompt(vec!["Input did not meet requirements, try again".to_string()])
}

#[test]
fn interval_is_closed_at_both_ends() {
    assert!(brightness_line_accepted("0.3"));
    assert!(brightness_line_accepted("4.9"));
    assert!(!brightness_line_accepted("0.29999"));
    assert!(!brightness_line_accepted("4.90001"));
    assert!(brightness_line_accepted("1.0"));
    assert!(brightness_line_accepted("0.30"));
    assert!(brightness_line_accepted("4.900"));
    assert!(brightness_line_accepted(".3"));
    assert!(brightness_line_accepted("4"));
    assert!(!brightness_line_accepted("5"));
    assert!(!brightness_line_accepted("0"));
    assert!(!brightness_line_accepted("0.2"));
}

#[test]
fn interval_is_exact_where_binary_fractions_round() {
    assert!(!brightness_line_accepted("0.2999999999"));
    assert!(!brightness_line_accepted("0.29999999999999999999999999999"));
    assert!(!brightness_line_accepted("4.9000000001"));
    assert!(!brightness_line_accepted("4.90000000000000000000000000001"));
    assert!(brightness_line_accepted("0.30000000000000000000000000001"));
    assert!(brightness_line_accepted("4.89999999999999999999999999999"));
}

#[test]
fn every_form_of_literal_is_judged_by_its_value() {
    assert!(brightness_line_accepted("1e0"));
    assert!(brightness_line_accepted("3e-1"));
    assert!(brightness_line_accepted("49E-1"));
    assert!(brightness_line_accepted("0.049e2"));
    assert!(brightness_line_accepted("+2.5"));
    assert!(!brightness_line_accepted("-2.5"));
    assert!(!brightness_line_accepted("5e0"));
    assert!(!brightness_line_accepted("2e-1"));
    assert!(!brightness_line_accepted("inf"));
    assert!(!brightness_line_accepted("-inf"));
    assert!(!brightness_line_accepted("nan"));
    assert!(!brightness_line_accepted("1e99999999999999999999999"));
    assert!(!brightness_line_accepted("1e-99999999999999999999999"));
}

#[test]
fn line_is_trimmed_before_it_is_judged() {
    assert!(brightness_line_accepted("  1.5 \n"));
    assert!(brightness_line_accepted("1.5\r\n"));
    assert!(!brightness_line_accepted("1 .5"));
    assert!(!brightness_line_accepted(""));
    assert!(!brightness_line_accepted("\n"));
    assert!(!brightness_line_accepted("abc"));
}

#[test]
fn values_are_judged_as_lines_are() {
    assert!(is_brightness(&parse_decimal("0.3").unwrap()));
    assert!(is_brightness(&parse_decimal("4.9").unwrap()));
    assert!(!is_brightness(&parse_decimal("0.29999").unwrap()));
    assert!(!is_brightness(&parse_decimal("4.90001").unwrap()));
}

#[test]
fn second_argument_in_range_is_taken_as_written() {
    assert_eq!(begin(&["1.0", "2.5"]), Resolution::Resolved("2.5".to_string()));
    assert_eq!(begin(&["1", "2.50"]), Resolution::Resolved("2.50".to_string()));
    assert_eq!(begin(&["prog", "0", " 1e0 "]), Resolution::Resolved("1e0".to_string()));
    assert_eq!(begin(&["10.0", "0.3"]), Resolution::Resolved("0.3".to_string()));
}

#[test]
fn missing_or_bad_second_argument_asks() {
    assert_eq!(begin(&[]), question());
    assert_eq!(begin(&["1.0"]), question());
    assert_eq!(begin(&["1.0", "5.0"]), question());
    assert_eq!(begin(&["1.0", "0.1"]), question());
    assert_eq!(begin(&["1.0", "x", "nan"]), question());
    assert_eq!(begin(&["2.5"]), question());
}

#[test]
fn accepted_line_gives_its_trimmed_text() {
    assert_eq!(continue_brightness(line("1.5\n")), Resolution::Resolved("1.5".to_string()));
    assert_eq!(continue_brightness(line("  0.30 \r\n")), Resolution::Resolved("0.30".to_string()));
    assert_eq!(continue_brightness(line("4.9")), Resolution::Resolved("4.9".to_string()));
}

#[test]
fn number_out_of_range_asks_again() {
    assert_eq!(continue_brightness(line("5\n")), again());
    assert_eq!(continue_brightness(line("0.29999\n")), again());
    assert_eq!(continue_brightness(line("4.90001\n")), again());
    assert_eq!(continue_brightness(line("-1\n")), again());
    assert_eq!(continue_brightness(line("nan\n")), again());
}

#[test]
fn line_that_is_no_number_asks_again_with_a_remark() {
    assert_eq!(
        continue_brightness(line("bright\n")),
        Resolution::Prompt(vec![
            "Could not parse bright into a number. Message: invalid number literal".to_string(),
            "Input did not meet requirements, try again".to_string(),
        ])
    );
    assert_eq!(
        continue_brightness(line("\n")),
        Resolution::Prompt(vec![
            "Could not parse  into a number. Message: cannot parse number from empty string".to_string(),
            "Input did not meet requirements, try again".to_string(),
        ])
    );
}

#[test]
fn remark_is_made_only_where_no_number_is_written() {
    assert_eq!(diagnose("7\n"), None);
    assert_eq!(diagnose(" nan "), None);
    assert_eq!(
        diagnose(" 1,5 "),
        Some("Could not parse 1,5 into a number. Message: invalid number literal".to_string())
    );
}

#[test]
fn closed_input_ends_the_resolver() {
    assert_eq!(continue_brightness(InputEvent::Closed), Resolution::Failed(ResolveError::InputClosed));
    assert_eq!(
        brightness_failure(ResolveError::InputClosed),
        "Could not get brightness value. Error: the input stream is closed"
    );
}
