use othello::parse_input;

#[test]
fn plain_coordinates() {
    assert_eq!(parse_input("A1"), Some((0, 0)));
    assert_eq!(parse_input("H8"), Some((7, 7)));
    assert_eq!(parse_input("C3"), Some((2, 2)));
    assert_eq!(parse_input("D3"), Some((2, 3)));
}

#[test]
fn lower_case_accepted() {
    assert_eq!(parse_input("a1"), Some((0, 0)));
    assert_eq!(parse_input("h8"), Some((7, 7)));
}

#[test]
fn surrounding_whitespace_ignored() {
    assert_eq!(parse_input(" B2 "), Some((1, 1)));
    assert_eq!(parse_input("\tG7\n"), Some((6, 6)));
}

#[test]
fn out_of_range_rejected() {
    assert_eq!(parse_input("I1"), None);
    assert_eq!(parse_input("A9"), None);
    assert_eq!(parse_input("A0"), None);
    assert_eq!(parse_input("H10"), None);
}

#[test]
fn malformed_rejected() {
    assert_eq!(parse_input(""), None);
    assert_eq!(parse_input("B"), None);
    assert_eq!(parse_input("11"), None);
    assert_eq!(parse_input("AB"), None);
    assert_eq!(parse_input("A 1"), None);
    assert_eq!(parse_input("A-1"), None);
}

#[test]
fn numeric_oddities() {
    // A leading plus sign and leading zeros parse as their value does.
    assert_eq!(parse_input("B+2"), Some((1, 1)));
    assert_eq!(parse_input("A01"), Some((0, 0)));
    assert_eq!(parse_input("A99999999999999999999999999"), None);
}
