use brightness_control::devices::parse_devices;

fn names(list: &[&str]) -> Vec<String> {
    list.iter().map(|name| name.to_string()).collect()
}

#[test]
fn connected_top_level_lines_are_kept_in_order() {
    let listing =
        "eDP-1 connected primary 1920x1080\nHDMI-1 disconnected\n   1920x1080+0+0\nDP-1 connected 2560x1440";
    assert_eq!(parse_devices(listing), names(&["eDP-1", "DP-1"]));
}

#[test]
fn empty_listing_has_no_devices() {
    assert_eq!(parse_devices(""), Vec::<String>::new());
}

#[test]
fn parsing_twice_gives_the_same_list() {
    let listing = "Screen 0: minimum 320 x 200\nDP-2 connected 1920x1080+0+0\n   1920x1080 60.00*+\nDP-1 connected\n";
    let first = parse_devices(listing);
    let second = parse_devices(listing);
    assert_eq!(first, second);
    assert_eq!(first, names(&["DP-2", "DP-1"]));
}

#[test]
fn indented_lines_are_excluded() {
    assert_eq!(parse_devices(" eDP-1 connected"), Vec::<String>::new());
    assert_eq!(parse_devices("\teDP-1 connected"), Vec::<String>::new());
    assert_eq!(parse_devices("A connected\n  B connected\nC connected"), names(&["A", "C"]));
}

#[test]
fn lines_with_fewer_than_two_fields_are_discarded() {
    assert_eq!(parse_devices("eDP-1"), Vec::<String>::new());
    assert_eq!(parse_devices("connected"), Vec::<String>::new());
    assert_eq!(parse_devices("eDP-1   "), Vec::<String>::new());
    assert_eq!(parse_devices("\n\n"), Vec::<String>::new());
}

#[test]
fn second_field_must_be_exactly_connected() {
    assert_eq!(parse_devices("A disconnected"), Vec::<String>::new());
    assert_eq!(parse_devices("A connected2"), Vec::<String>::new());
    assert_eq!(parse_devices("A Connected"), Vec::<String>::new());
    assert_eq!(parse_devices("A unknown connected"), Vec::<String>::new());
    assert_eq!(parse_devices("A connected"), names(&["A"]));
}

#[test]
fn fields_are_delimited_by_any_run_of_whitespace() {
    assert_eq!(parse_devices("A   connected"), names(&["A"]));
    assert_eq!(parse_devices("A\tconnected primary"), names(&["A"]));
    assert_eq!(parse_devices("A connected\r\nB connected\r\n"), names(&["A", "B"]));
}

#[test]
fn names_may_hold_any_characters_but_whitespace() {
    assert_eq!(parse_devices("Écran-1 connected\nDP-1-2.3 connected"), names(&["Écran-1", "DP-1-2.3"]));
}
