use nbconf::{Conf, Entry, ParseError, ParseErrorKind, Section};

#[test]
fn test_section() {
    let mut expected = Conf::new();
    expected.add_section("mySection", Vec::new());
    assert_eq!(Conf::parse_str("[mySection]"), Ok(expected));
}

#[test]
fn test_entry() {
    let mut expected = Conf::new();
    expected.add_section(
        "mySection",
        vec![Entry { key: "a".to_string(), value: "b".to_string() }],
    );
    assert_eq!(Conf::parse_str("[mySection]\na = b"), Ok(expected));
}

#[test]
fn test_to_string() {
    let mut conf = Conf::new();
    conf.add_section("sec1", vec![Entry { key: "a".to_string(), value: "b".to_string() }]);
    conf.add_section("sec2", vec![Entry { key: "c".to_string(), value: "d".to_string() }]);
    assert_eq!(conf.to_string(), "[sec1]\na = b\n\n[sec2]\nc = d\n");
}

#[test]
fn test_section_get() {
    let conf = Conf::from_sections(vec![Section::new_with_entries(
        "mySection",
        vec![Entry::new("a", "b"), Entry::new("x", "y")],
    )]);
    assert_eq!(conf.sections[0].get("x"), Some("y"));
}

#[test]
fn test_conf_section_names() {
    let conf = Conf::from_sections(vec![Section::new("sec1"), Section::new("sec2")]);
    assert_eq!(conf.section_names(), vec!["sec1", "sec2"]);
}

#[test]
fn test_missing_closing_bracket() {
    assert_eq!(
        Conf::parse_str("[mySection"),
        Err(ParseError::new(1, ParseErrorKind::MissingClosingBracket))
    );
}

#[test]
fn test_missing_equals() {
    assert_eq!(
        Conf::parse_str("[mySection]\nmyKey"),
        Err(ParseError::new(2, ParseErrorKind::MissingEquals))
    );
}

#[test]
fn test_entry_outside_of_section() {
    assert_eq!(
        Conf::parse_str("a = b"),
        Err(ParseError::new(1, ParseErrorKind::EntryOutsideOfSection))
    );
}

#[test]
fn empty_input_yields_empty_conf() {
    let conf = Conf::parse_str("").expect("empty input must parse");
    assert_eq!(conf.sections.len(), 0);
}

#[test]
fn blank_input_yields_empty_conf() {
    let conf = Conf::parse_str("   \n\n").expect("blank input must parse");
    assert_eq!(conf.sections.len(), 0);
    assert_eq!(conf, Conf::new());
}

#[test]
fn value_keeps_embedded_equals() {
    let conf = Conf::parse_str("[net]\nurl = http://a=b").unwrap();
    assert_eq!(conf.sections[0].get("url"), Some("http://a=b"));
    assert_eq!(conf.sections[0].entries[0].key, "url");
    assert_eq!(conf.sections[0].entries[0].value, "http://a=b");
}

#[test]
fn get_returns_first_match_on_duplicates() {
    let section = Section::new_with_entries(
        "dup",
        vec![Entry::new("k", "first"), Entry::new("k", "second")],
    );
    assert_eq!(section.get("k"), Some("first"));
}

#[test]
fn get_returns_none_when_absent() {
    let section = Section::new_with_entries("s", vec![Entry::new("a", "b")]);
    assert_eq!(section.get("missing"), None);
}

#[test]
fn round_trip_restores_conf() {
    let mut conf = Conf::new();
    conf.add_section("alpha", vec![Entry::new("one", "1"), Entry::new("two", "2")]);
    conf.add_section("beta", Vec::new());
    conf.add_section("alpha", vec![Entry::new("one", "other")]);
    let text = conf.to_string();
    assert_eq!(Conf::parse_str(&text), Ok(conf));
}

#[test]
fn well_formed_input_matches_trimmed() {
    let conf = Conf::parse_str("  [ pad ]  \n  spaced key  =  spaced value  \n\n[second]\nk=v")
        .unwrap();
    assert_eq!(conf.section_names(), vec![" pad ", "second"]);
    assert_eq!(conf.sections[0].entries[0].key, "spaced key");
    assert_eq!(conf.sections[0].entries[0].value, "spaced value");
    assert_eq!(conf.sections[1].get("k"), Some("v"));
}

#[test]
fn header_not_retrimmed_inside_brackets() {
    let conf = Conf::parse_str("[ foo ]").unwrap();
    assert_eq!(conf.section_names(), vec![" foo "]);
}

#[test]
fn empty_section_name_allowed() {
    let conf = Conf::parse_str("[]").unwrap();
    assert_eq!(conf.section_names(), vec![""]);
}

#[test]
fn entry_render_exact() {
    let entry = Entry::new("key", "value");
    assert_eq!(entry.to_string(), "key = value");
}

#[test]
fn section_render_without_entries() {
    let section = Section::new("empty");
    assert_eq!(section.to_string(), "[empty]\n");
}

#[test]
fn section_render_with_entries() {
    let section = Section::new_with_entries("s", vec![Entry::new("a", "b"), Entry::new("c", "d")]);
    assert_eq!(section.to_string(), "[s]\na = b\nc = d\n");
}

#[test]
fn conf_render_empty_is_empty_text() {
    assert_eq!(Conf::new().to_string(), "");
}

#[test]
fn blank_lines_do_not_close_a_section() {
    let conf = Conf::parse_str("[s]\n\na = b\n\nc = d").unwrap();
    assert_eq!(conf.sections.len(), 1);
    assert_eq!(conf.sections[0].entries.len(), 2);
    assert_eq!(conf.sections[0].get("c"), Some("d"));
}

#[test]
fn error_line_counts_blank_lines() {
    assert_eq!(
        Conf::parse_str("[s]\n\n\nbad line"),
        Err(ParseError::new(4, ParseErrorKind::MissingEquals))
    );
}

#[test]
fn missing_bracket_later_line() {
    assert_eq!(
        Conf::parse_str("[ok]\na = b\n[broken"),
        Err(ParseError::new(3, ParseErrorKind::MissingClosingBracket))
    );
}

#[test]
fn first_error_wins() {
    assert_eq!(
        Conf::parse_str("x = y\n[later"),
        Err(ParseError::new(1, ParseErrorKind::EntryOutsideOfSection))
    );
}

#[test]
fn crlf_lines_parse_like_lf() {
    let conf = Conf::parse_str("[s]\r\na = b\r\n").unwrap();
    assert_eq!(conf.section_names(), vec!["s"]);
    assert_eq!(conf.sections[0].get("a"), Some("b"));
}

#[test]
fn duplicate_section_names_coexist() {
    let conf = Conf::parse_str("[s]\na = 1\n[s]\na = 2").unwrap();
    assert_eq!(conf.section_names(), vec!["s", "s"]);
    assert_eq!(conf.sections[0].get("a"), Some("1"));
    assert_eq!(conf.sections[1].get("a"), Some("2"));
}

#[test]
fn parse_error_new_carries_fields() {
    let err = ParseError::new(7, ParseErrorKind::MissingEquals);
    assert_eq!(err.line, 7);
    assert_eq!(err.kind, ParseErrorKind::MissingEquals);
}

#[test]
fn empty_key_and_value_parse() {
    let conf = Conf::parse_str("[s]\n=\n").unwrap();
    assert_eq!(conf.sections[0].entries[0].key, "");
    assert_eq!(conf.sections[0].entries[0].value, "");
    assert_eq!(conf.sections[0].get(""), Some(""));
}

#[test]
fn indented_sections_parse() {
    let conf = Conf::parse_str(
        "\n    [Section 1]\n    hello = world\n\n    [Section 2]\n    nice to = meet you",
    )
    .expect("failed to parse config");
    assert_eq!(conf.sections[0].name, "Section 1");
    assert_eq!(conf.sections[0].entries[0].key, "hello");
    assert_eq!(conf.sections[0].entries[0].value, "world");
    assert_eq!(conf.sections[1].name, "Section 2");
    assert_eq!(conf.sections[1].entries[0].key, "nice to");
    assert_eq!(conf.sections[1].entries[0].value, "meet you");
}

#[test]
fn name_with_inner_bracket_kept() {
    let conf = Conf::parse_str("[a]b]").unwrap();
    assert_eq!(conf.section_names(), vec!["a]b"]);
}
