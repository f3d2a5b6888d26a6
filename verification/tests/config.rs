use loglumen::config::parse_bind_address;

#[test]
fn parses_plain_value() {
    let text = "bind_address = 127.0.0.1:9000\n";
    assert_eq!(parse_bind_address(text), Some("127.0.0.1:9000".to_string()));
}

#[test]
fn parses_quoted_value() {
    let text = "[server]\nbind_address = \"0.0.0.0:8080\"\n";
    assert_eq!(parse_bind_address(text), Some("0.0.0.0:8080".to_string()));
}

#[test]
fn skips_comments_sections_and_blanks() {
    let text = "# the address\n\n[server]\n   bind_address=10.1.2.3:80\n";
    assert_eq!(parse_bind_address(text), Some("10.1.2.3:80".to_string()));
}

#[test]
fn first_matching_line_wins() {
    let text = "bind_address = first:1\nbind_address = second:2\n";
    assert_eq!(parse_bind_address(text), Some("first:1".to_string()));
}

#[test]
fn missing_key_gives_none() {
    assert_eq!(parse_bind_address("listen = 1.2.3.4:5\n"), None);
    assert_eq!(parse_bind_address(""), None);
}

#[test]
fn empty_value_is_skipped() {
    assert_eq!(parse_bind_address("bind_address =\n"), None);
    assert_eq!(parse_bind_address("bind_address = \"\"\n"), None);
    // a later line may still supply the value
    let text = "bind_address =\nbind_address = later:9\n";
    assert_eq!(parse_bind_address(text), Some("later:9".to_string()));
}

#[test]
fn longer_key_does_not_match() {
    assert_eq!(parse_bind_address("bind_address_v6 = [::1]:80\n"), None);
}

#[test]
fn key_without_equals_is_skipped() {
    assert_eq!(parse_bind_address("bind_address 1.2.3.4:5\n"), None);
}

#[test]
fn crlf_lines_are_handled() {
    let text = "# c\r\nbind_address = 8.8.8.8:53\r\n";
    assert_eq!(parse_bind_address(text), Some("8.8.8.8:53".to_string()));
}

#[test]
fn single_quote_char_value_is_kept() {
    // a lone double quote is not a quoted pair and stays as the value
    assert_eq!(parse_bind_address("bind_address = \"\n"), Some("\"".to_string()));
}

#[test]
fn no_trailing_newline() {
    assert_eq!(parse_bind_address("bind_address = a:1"), Some("a:1".to_string()));
}
