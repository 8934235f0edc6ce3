use brightness_control::arguments::numeric_arguments;

fn tokens(list: &[&str]) -> Vec<String> {
    list.iter().map(|token| token.to_string()).collect()
}

fn literals(list: &[&str]) -> Vec<String> {
    numeric_arguments(&tokens(list)).iter().map(|argument| argument.text().to_string()).collect()
}

#[test]
fn numeric_tokens_are_collected_in_order() {
    assert_eq!(literals(&["prog", "1.0", "abc", "2.5"]), vec!["1.0", "2.5"]);
    assert_eq!(literals(&["prog"]), Vec::<String>::new());
    assert_eq!(literals(&[]), Vec::<String>::new());
    assert_eq!(literals(&["--flag", "10", "x", "nan", "1e2", "-3"]), vec!["10", "nan", "1e2", "-3"]);
}

#[test]
fn tokens_are_trimmed_before_they_are_read() {
    assert_eq!(literals(&[" 1.0 ", "2.5\n", " "]), vec!["1.0", "2.5"]);
}

#[test]
fn each_argument_carries_its_number() {
    let arguments = numeric_arguments(&tokens(&["2.5", "7"]));
    assert_eq!(arguments.len(), 2);
    assert_eq!(arguments[0].value().whole(1).unwrap().value, 25);
    assert_eq!(arguments[1].value().whole(0).unwrap().value, 7);
}
