use shortest_path::parse::parse_cost;
use shortest_path::parse::parse_edge_line;

#[test]
fn plain_numbers_parse() {
    assert_eq!(parse_cost("0"), Some(0));
    assert_eq!(parse_cost("7"), Some(7));
    assert_eq!(parse_cost("123"), Some(123));
    assert_eq!(parse_cost("0010"), Some(10));
}

#[test]
fn the_largest_value_parses() {
    let top = usize::MAX.to_string();
    assert_eq!(parse_cost(&top), Some(usize::MAX));
}

#[test]
fn empty_token_is_rejected() {
    assert_eq!(parse_cost(""), None);
}

#[test]
fn non_digits_are_rejected() {
    assert_eq!(parse_cost("12a"), None);
    assert_eq!(parse_cost("a12"), None);
    assert_eq!(parse_cost("+5"), None);
    assert_eq!(parse_cost("-5"), None);
    assert_eq!(parse_cost("1 2"), None);
    assert_eq!(parse_cost("1.5"), None);
}

#[test]
fn values_past_the_machine_word_are_rejected() {
    assert_eq!(parse_cost("999999999999999999999999999999"), None);
    let just_past = format!("{}0", usize::MAX);
    assert_eq!(parse_cost(&just_past), None);
}

#[test]
fn well_formed_lines_split_into_three_tokens() {
    let parsed = parse_edge_line("alpha beta 42").expect("line should parse");
    assert_eq!(parsed.0, "alpha");
    assert_eq!(parsed.1, "beta");
    assert_eq!(parsed.2, 42);
}

#[test]
fn tokens_past_the_third_are_ignored() {
    let parsed = parse_edge_line("a b 3 junk").expect("line should parse");
    assert_eq!(parsed.0, "a");
    assert_eq!(parsed.1, "b");
    assert_eq!(parsed.2, 3);
}

#[test]
fn short_or_malformed_lines_are_rejected() {
    assert_eq!(parse_edge_line(""), None);
    assert_eq!(parse_edge_line("a"), None);
    assert_eq!(parse_edge_line("a b"), None);
    assert_eq!(parse_edge_line("a b x"), None);
    assert_eq!(parse_edge_line("a b "), None);
    // a doubled separator shifts the cost token out of place
    assert_eq!(parse_edge_line("a  b 3"), None);
}
