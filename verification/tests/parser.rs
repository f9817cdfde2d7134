use zenv::parser::LineParser;

#[test]
fn parse_line_key_val_test() {
    let (key, val) = LineParser::parse_line("HELLO=world").unwrap();
    assert_eq!(key, "HELLO");
    assert_eq!(val, "world");
}

#[test]
fn parse_line_only_key_test() {
    let (key, val) = LineParser::parse_line("HELLO=").unwrap();
    assert_eq!(key, "HELLO");
    assert_eq!(val, "");
}

#[test]
fn parse_line_spaces_trimmed_test() {
    let (key, val) = LineParser::parse_line("FOO= This is spaces ").unwrap();
    assert_eq!(key, "FOO");
    assert_eq!(val, "This is spaces");
}

#[test]
fn parse_line_single_double_quote_end_start_test() {
    let (key, val) = LineParser::parse_line("FOO='inside quote'").unwrap();
    let (key2, val2) = LineParser::parse_line(r#"FOO="inside double quote""#).unwrap();
    assert_eq!(key, "FOO");
    assert_eq!(val, "inside quote");
    assert_eq!(key2, "FOO");
    assert_eq!(val2, "inside double quote");
}

#[test]
fn parse_line_spaces_preserved_test() {
    let (key, val) = LineParser::parse_line("FOO=' inside quote '").unwrap();
    let (key2, val2) = LineParser::parse_line(r#"FOO=" inside double quote ""#).unwrap();
    assert_eq!(key, "FOO");
    assert_eq!(val, " inside quote ");
    assert_eq!(key2, "FOO");
    assert_eq!(val2, " inside double quote ");
}

#[test]
fn parse_line_json_test() {
    let (key, val) = LineParser::parse_line(r#"JSON={"foo": "bar"}"#).unwrap();
    assert_eq!(key, "JSON");
    assert_eq!(val, r#"{"foo": "bar"}"#);
}

#[test]
fn parse_line_commented_test() {
    let empty = LineParser::parse_line("# FOO=bar");
    assert_eq!(empty, None);
}

#[test]
fn parse_line_empty_test() {
    let empty = LineParser::parse_line("");
    assert_eq!(empty, None);
}

#[test]
fn parse_line_newline_char_test() {
    let (key, val) = LineParser::parse_line(r#"WHAT="You\nAre\nAwesome""#).unwrap();
    assert_eq!(key, "WHAT");
    assert_eq!(val, "You\nAre\nAwesome");
}

#[test]
fn parse_line_escaped_newline_char_test() {
    let (key, val) = LineParser::parse_line(r#"WHAT="You\\nAre\\nAwesome""#).unwrap();
    assert_eq!(key, "WHAT");
    assert_eq!(val, r#"You\\nAre\\nAwesome"#);
}

#[test]
fn parse_line_no_newline_char_test() {
    let (key, val) = LineParser::parse_line(r#"WHAT='You\nAre\nAwesome'"#).unwrap();
    assert_eq!(key, "WHAT");
    assert_eq!(val, "You\\nAre\\nAwesome");
}
