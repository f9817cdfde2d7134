use zenv::text::{chars_of, name_char, string_of, whitespace};
use zenv::{KeyVal, Line, Quote};

fn key_val(k: &str, v: &str, q: Quote) -> Line {
    Line::KeyVal(KeyVal {
        k: k.to_string(),
        v: v.to_string(),
        q,
    })
}

#[test]
fn unquoted_pair() {
    assert_eq!(Line::from("BASIC=basic"), key_val("BASIC", "basic", Quote::No));
}

#[test]
fn key_without_value() {
    assert_eq!(Line::from("KEY="), key_val("KEY", "", Quote::No));
}

#[test]
fn value_without_key() {
    assert_eq!(Line::from("=value"), key_val("", "value", Quote::No));
    assert_eq!(Line::from("="), key_val("", "", Quote::No));
}

#[test]
fn quotes_are_stripped_once() {
    assert_eq!(Line::from("FOO='inside'"), key_val("FOO", "inside", Quote::Single));
    assert_eq!(Line::from("FOO=\"inside\""), key_val("FOO", "inside", Quote::Double));
    assert_eq!(Line::from("FOO=''inside''"), key_val("FOO", "", Quote::Single));
    assert_eq!(Line::from("FOO=\"\"inside\"\""), key_val("FOO", "", Quote::Double));
}

#[test]
fn empty_quotes() {
    assert_eq!(Line::from("FOO=''"), key_val("FOO", "", Quote::Single));
    assert_eq!(Line::from("FOO=\"\""), key_val("FOO", "", Quote::Double));
}

#[test]
fn no_trim_inside_quotes() {
    assert_eq!(
        Line::from("FOO=' inside quote '"),
        key_val("FOO", " inside quote ", Quote::Single)
    );
    assert_eq!(
        Line::from("FOO=\"\tinside quote \""),
        key_val("FOO", "\tinside quote ", Quote::Double)
    );
}

#[test]
fn escaped_newline_becomes_line_feed() {
    let line = Line::from(r#"WHAT="You\nAre\nAwesome""#);
    assert_eq!(line, key_val("WHAT", "You\nAre\nAwesome", Quote::Double));
    match line {
        Line::KeyVal(kv) => assert_eq!(kv.v.matches('\n').count(), 2),
        Line::Empty => panic!("a pair was expected"),
    }
}

#[test]
fn escaped_backslash_keeps_the_sequence_literal() {
    let line = Line::from(r#"WHAT="You\\nAre\\nAwesome""#);
    assert_eq!(line, key_val("WHAT", r"You\nAre\nAwesome", Quote::Double));
    match line {
        Line::KeyVal(kv) => {
            assert_eq!(kv.v.matches('\n').count(), 0);
            assert_eq!(kv.v.matches("\\n").count(), 2);
        }
        Line::Empty => panic!("a pair was expected"),
    }
}

#[test]
fn lines_that_hold_nothing() {
    assert_eq!(Line::from("# FOO=bar"), Line::Empty);
    assert_eq!(Line::from("#"), Line::Empty);
    assert_eq!(Line::from(""), Line::Empty);
    assert_eq!(Line::from(" "), Line::Empty);
    assert_eq!(Line::from(" \t \u{a0}\u{3000} "), Line::Empty);
    assert_eq!(Line::from("no equals sign"), Line::Empty);
}

#[test]
fn hash_after_leading_space_is_no_comment() {
    assert_eq!(Line::from(" # FOO=bar"), key_val("# FOO", "bar", Quote::No));
}

#[test]
fn unquoted_json_is_kept() {
    assert_eq!(
        Line::from(r#"JSON={"foo": "bar"}"#),
        key_val("JSON", r#"{"foo": "bar"}"#, Quote::No)
    );
}

#[test]
fn unclosed_double_quote_is_kept() {
    assert_eq!(
        Line::from("RETAIN_LEADING_DQUOTE=\"retained_dquote"),
        key_val("RETAIN_LEADING_DQUOTE", "\"retained_dquote", Quote::No)
    );
    assert_eq!(Line::from("A=\""), key_val("A", "\"", Quote::No));
}

#[test]
fn unclosed_quote_is_cut_at_hash_and_trimmed() {
    assert_eq!(
        Line::from("A=\"kept  # comment"),
        key_val("A", "\"kept", Quote::No)
    );
    assert_eq!(Line::from("A='kept \t# c'"), key_val("A", "kept \t# c", Quote::Single));
    assert_eq!(Line::from("A='kept \t# c"), key_val("A", "'kept", Quote::No));
}

#[test]
fn unclosed_quote_keeps_escapes_as_written() {
    assert_eq!(Line::from(r#"A="a\nb"#), key_val("A", r#""a\nb"#, Quote::No));
    assert_eq!(Line::from("A='a\nb"), key_val("A", "'a\nb", Quote::No));
}

#[test]
fn closed_single_quote_around_one_line_feed() {
    assert_eq!(Line::from("A='a\nb'"), key_val("A", "a\\nb", Quote::Single));
}

#[test]
fn closed_double_quote_with_escape_and_no_tail() {
    assert_eq!(Line::from(r#"A="a\nb""#), key_val("A", "a\nb", Quote::Double));
}

#[test]
fn comment_after_closing_quote_is_dropped() {
    assert_eq!(
        Line::from("COMMENT_AT_END_SQUOTE='comment_at_##_end_squote_#' # this is the comment"),
        key_val(
            "COMMENT_AT_END_SQUOTE",
            "comment_at_##_end_squote_#",
            Quote::Single
        )
    );
    assert_eq!(
        Line::from("A=\"in # side\"tail"),
        key_val("A", "in # side", Quote::Double)
    );
}

#[test]
fn unquoted_value_is_cut_at_first_hash() {
    assert_eq!(Line::from("A=one # two # three"), key_val("A", "one", Quote::No));
    assert_eq!(Line::from("A=#one"), key_val("A", "", Quote::No));
    assert_eq!(Line::from("A= #"), key_val("A", "", Quote::No));
}

#[test]
fn later_equal_signs_belong_to_the_value() {
    assert_eq!(Line::from("A=b=c=d"), key_val("A", "b=c=d", Quote::No));
    assert_eq!(Line::from("A=='x'"), key_val("A", "='x'", Quote::No));
}

#[test]
fn quote_is_looked_for_in_first_character_only() {
    assert_eq!(Line::from("A= 'x'"), key_val("A", "'x'", Quote::No));
    assert_eq!(Line::from("A=x\"y\""), key_val("A", "x\"y\"", Quote::No));
}

#[test]
fn key_is_trimmed_and_not_validated() {
    assert_eq!(Line::from("  A B\t= c"), key_val("A B", "c", Quote::No));
    assert_eq!(Line::from("\u{2003}Ä-1\u{a0}=x"), key_val("Ä-1", "x", Quote::No));
}

#[test]
fn unquoted_line_feed_is_escaped_before_trimming() {
    assert_eq!(Line::from("A=\nb\n"), key_val("A", "\\nb\\n", Quote::No));
    assert_eq!(Line::from("A= \r b \r"), key_val("A", "b", Quote::No));
}

#[test]
fn normalizer_rules() {
    assert_eq!(Line::replace_lf(""), "");
    assert_eq!(Line::replace_lf("plain"), "plain");
    assert_eq!(Line::replace_lf(r"a\nb"), "a\nb");
    assert_eq!(Line::replace_lf(r"a\\b"), r"a\b");
    assert_eq!(Line::replace_lf(r"a\\nb"), r"a\nb");
    assert_eq!(Line::replace_lf(r"\\\\"), r"\\");
    assert_eq!(Line::replace_lf(r"\\\n"), "\\\n");
    assert_eq!(Line::replace_lf(r"a\tb"), r"a\tb");
    assert_eq!(Line::replace_lf(r#"a\"b"#), r#"a\"b"#);
    assert_eq!(Line::replace_lf(r"end\"), r"end\");
    assert_eq!(Line::replace_lf("\\"), "\\");
    assert_eq!(Line::replace_lf("real\nfeed"), "real\nfeed");
    assert_eq!(Line::replace_lf(r"é\nü"), "é\nü");
}

#[test]
fn one_character_escaped() {
    assert_eq!(Line::escape_lf('\n'), "\\n");
    assert_eq!(Line::escape_lf('a'), "a");
    assert_eq!(Line::escape_lf('\r'), "\r");
    assert_eq!(Line::escape_lf('\\'), "\\");
    assert_eq!(Line::escape_lf('ß'), "ß");
}

#[test]
fn retain_quote_keeps_decoded_text_of_closed_quote() {
    let (v, q) = Line::retain_quote("\"abc\" # x".to_string(), "abc".to_string(), Quote::Double);
    assert_eq!(v, "abc");
    assert_eq!(q, Quote::Double);
    let (v, q) = Line::retain_quote("'a'".to_string(), "a".to_string(), Quote::Single);
    assert_eq!(v, "a");
    assert_eq!(q, Quote::Single);
}

#[test]
fn retain_quote_falls_back_to_raw_text() {
    let (v, q) = Line::retain_quote("\"abc  # x".to_string(), "abc  # x".to_string(), Quote::Double);
    assert_eq!(v, "\"abc");
    assert_eq!(q, Quote::No);
    let (v, q) = Line::retain_quote(String::new(), "ignored".to_string(), Quote::Single);
    assert_eq!(v, "");
    assert_eq!(q, Quote::No);
}

#[test]
fn whitespace_is_what_the_standard_library_calls_whitespace() {
    let mut n: u32 = 0;
    while n <= 0x10FFFF {
        if let Some(c) = char::from_u32(n) {
            assert_eq!(whitespace(c), c.is_whitespace(), "U+{:04X}", n);
        }
        n += 1;
    }
}

#[test]
fn trimming_agrees_with_the_standard_library() {
    let samples = [
        "",
        " ",
        "a",
        "  a  ",
        "\t\n a b \r\n",
        "\u{a0}x\u{3000}",
        "\u{2000}\u{200a}y z\u{2028}\u{2029}\u{205f}",
        "\u{200b}zero width\u{200b}",
        "\u{1680}ogham\u{180e}",
        "\u{85}next line\u{85}",
    ];
    for s in samples {
        let line = format!("K={}", s);
        match Line::from(line.as_str()) {
            Line::KeyVal(kv) => assert_eq!(kv.v, s.replace('\n', "\\n").trim(), "{:?}", s),
            Line::Empty => panic!("a pair was expected"),
        }
        let line = format!("{}=v", s);
        match Line::from(line.as_str()) {
            Line::KeyVal(kv) => assert_eq!(kv.k, s.trim(), "{:?}", s),
            Line::Empty => panic!("a pair was expected"),
        }
    }
}

#[test]
fn name_characters() {
    for c in ['a', 'Z', '0', '9', '_', 'é', 'λ', '٣', '藏'] {
        assert!(name_char(c), "{:?}", c);
    }
    for c in ['$', '{', '}', '-', ' ', '.', '/', '"', '\'', '\n', '€'] {
        assert!(!name_char(c), "{:?}", c);
    }
}

#[test]
fn name_characters_follow_the_standard_library() {
    let mut n: u32 = 0;
    while n <= 0x10FFFF {
        if let Some(c) = char::from_u32(n) {
            assert_eq!(name_char(c), c == '_' || c.is_alphanumeric(), "U+{:04X}", n);
        }
        n += 1;
    }
}

#[test]
fn strings_and_characters_convert_both_ways() {
    assert_eq!(chars_of("aé€😀"), vec!['a', 'é', '€', '😀']);
    assert_eq!(chars_of(""), Vec::<char>::new());
    assert_eq!(string_of(&vec!['a', 'é', '€', '😀']), "aé€😀");
    assert_eq!(string_of(&Vec::new()), "");
    let text = "KEY=\"välue ✓\" # ok";
    assert_eq!(string_of(&chars_of(text)), text);
}

#[test]
fn non_ascii_text_is_kept_character_by_character() {
    assert_eq!(
        Line::from("GRÜSSE=\"héllo\\nwörld ✓\""),
        key_val("GRÜSSE", "héllo\nwörld ✓", Quote::Double)
    );
    assert_eq!(Line::from("É='ça # va'"), key_val("É", "ça # va", Quote::Single));
}

#[test]
fn unquoted_line_gives_trimmed_key_and_value_before_hash() {
    let keys = ["K", " K", "K ", "\tMY KEY\u{a0}", "a.b-c", "ключ", "K#1", "'K'", "$K"];
    let values = [
        "",
        "v",
        "  v  ",
        "v # comment",
        "v#c#d",
        "#c",
        " a b ",
        "x=y",
        "x'y'",
        "x\"y",
        "{\"foo\": \"bar\"}",
        "\u{3000}wide\u{3000}# c",
        "$VAR ${VAR}",
    ];
    for k in keys {
        for v in values {
            let line = format!("{}={}", k, v);
            let before_hash = v.split('#').next().unwrap();
            assert_eq!(
                Line::from(line.as_str()),
                key_val(k.trim(), before_hash.trim(), Quote::No),
                "{:?}",
                line
            );
        }
    }
}
