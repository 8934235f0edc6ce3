use brightness_control::reader::{reader_step, InputEvent, ReaderAction};

#[test]
fn accepted_line_is_returned_verbatim() {
    let action = reader_step(|line: &str| line.trim() == "yes", None, InputEvent::Line("  yes \n".to_string()));
    assert_eq!(action, ReaderAction::Accept("  yes \n".to_string()));
}

#[test]
fn rejected_line_gets_the_default_message() {
    let action = reader_step(|line: &str| line.trim() == "yes", None, InputEvent::Line("no\n".to_string()));
    assert_eq!(action, ReaderAction::Retry("Input did not meet requirements, try again".to_string()));
}

#[test]
fn rejected_line_gets_the_given_message() {
    let action = reader_step(|_: &str| false, Some("not that".to_string()), InputEvent::Line("x".to_string()));
    assert_eq!(action, ReaderAction::Retry("not that".to_string()));
}

#[test]
fn closed_stream_ends_the_loop() {
    assert_eq!(reader_step(|_: &str| true, None, InputEvent::Closed), ReaderAction::Abort);
    assert_eq!(reader_step(|_: &str| false, Some("m".to_string()), InputEvent::Closed), ReaderAction::Abort);
}
