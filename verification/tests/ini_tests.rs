use dotini::{INIParser, InIParseError};

fn parse(content: &str) -> dotini::IniMap {
    INIParser::from_string(content).unwrap().into_inner()
}

#[test]
fn round_trip_user_section() {
    let map = parse("[user]\nname = John Doe\nemail = johndoe@example.com\n");
    assert_eq!(map.get("user", "name").unwrap().as_str(), "John Doe");
    assert_eq!(map.get("user", "email").unwrap().as_str(), "johndoe@example.com");
    assert!(map.contains_section("user"));
    assert_eq!(map.section_names().len(), 1);
    assert_eq!(map.section_keys("user").len(), 2);
}

#[test]
fn empty_string_yields_empty_mapping() {
    let map = parse("");
    assert!(map.is_empty());
    assert_eq!(map.section_names().len(), 0);
}

#[test]
fn properties_without_header_land_in_untagged() {
    let map = parse("key = value");
    assert!(map.contains_section("untagged"));
    assert_eq!(map.get("untagged", "key").unwrap().as_str(), "value");
    assert_eq!(map.section_names().len(), 1);
}

#[test]
fn unclosed_section_is_syntax_error() {
    let r = INIParser::from_string("[unclosed");
    assert!(matches!(r, Err(InIParseError::UnsuccessfulParse(_))));
}

#[test]
fn unclosed_section_fails_whole_document() {
    let r = INIParser::from_string("[good]\nkey = value\n[unclosed\nother = 1\n");
    assert!(matches!(r, Err(InIParseError::UnsuccessfulParse(_))));
}

#[test]
fn properties_before_first_header_are_untagged() {
    let map = parse("early = 1\n[later]\ninner = 2\n");
    assert_eq!(map.get("untagged", "early").unwrap().as_str(), "1");
    assert_eq!(map.get("later", "inner").unwrap().as_str(), "2");
    assert!(map.get("later", "early").is_none());
}

#[test]
fn repeated_section_headers_merge() {
    let map = parse("[s]\na = 1\n[t]\nx = 9\n[s]\nb = 2\n");
    assert_eq!(map.get("s", "a").unwrap().as_str(), "1");
    assert_eq!(map.get("s", "b").unwrap().as_str(), "2");
    assert_eq!(map.get("t", "x").unwrap().as_str(), "9");
    assert_eq!(map.section_keys("s").len(), 2);
    assert_eq!(map.section_names().len(), 2);
}

#[test]
fn duplicate_key_keeps_last_value() {
    let map = parse("[s]\na = 1\na = 2\n");
    assert_eq!(map.get("s", "a").unwrap().as_str(), "2");
    assert_eq!(map.section_keys("s").len(), 1);
}

#[test]
fn duplicate_key_across_repeated_headers_keeps_last_value() {
    let map = parse("[s]\na = 1\n[s]\na = 3\n");
    assert_eq!(map.get("s", "a").unwrap().as_str(), "3");
}

#[test]
fn whitespace_around_equals_and_values_is_trimmed() {
    let map = parse("name =   John  Doe  \n");
    assert_eq!(map.get("untagged", "name").unwrap().as_str(), "John  Doe");
}

#[test]
fn whitespace_around_key_is_trimmed() {
    let map = parse("  key\t = \tvalue \n");
    assert_eq!(map.get("untagged", "key").unwrap().as_str(), "value");
}

#[test]
fn section_name_is_trimmed() {
    let map = parse("[ user ]\nname = x\n");
    assert!(map.contains_section("user"));
    assert_eq!(map.get("user", "name").unwrap().as_str(), "x");
}

#[test]
fn comment_lines_are_ignored() {
    let map = parse("; a comment\n# another one\nkey = v\n");
    assert_eq!(map.get("untagged", "key").unwrap().as_str(), "v");
    assert_eq!(map.section_names().len(), 1);
    assert_eq!(map.section_keys("untagged").len(), 1);
}

#[test]
fn blank_lines_are_ignored() {
    let map = parse("\n\n[s]\n\na = 1\n\n");
    assert_eq!(map.get("s", "a").unwrap().as_str(), "1");
    assert_eq!(map.section_names().len(), 1);
}

#[test]
fn crlf_line_endings_are_accepted() {
    let map = parse("a = 1\r\n[s]\r\nb = 2\r\n");
    assert_eq!(map.get("untagged", "a").unwrap().as_str(), "1");
    assert_eq!(map.get("s", "b").unwrap().as_str(), "2");
}

#[test]
fn value_may_contain_equals_sign() {
    let map = parse("k = a = b\n");
    assert_eq!(map.get("untagged", "k").unwrap().as_str(), "a = b");
}

#[test]
fn value_may_be_empty() {
    let map = parse("k =\n");
    assert_eq!(map.get("untagged", "k").unwrap().as_str(), "");
}

#[test]
fn line_without_equals_is_syntax_error() {
    let r = INIParser::from_string("justsometext\n");
    assert!(matches!(r, Err(InIParseError::UnsuccessfulParse(_))));
}

#[test]
fn empty_key_is_syntax_error() {
    let r = INIParser::from_string("= value\n");
    assert!(matches!(r, Err(InIParseError::UnsuccessfulParse(_))));
}

#[test]
fn empty_section_name_is_syntax_error() {
    let r = INIParser::from_string("[ ]\n");
    assert!(matches!(r, Err(InIParseError::UnsuccessfulParse(_))));
}

#[test]
fn key_containing_bracket_is_syntax_error() {
    let r = INIParser::from_string("a[b = c\n");
    assert!(matches!(r, Err(InIParseError::UnsuccessfulParse(_))));
}

#[test]
fn section_with_stray_bracket_is_syntax_error() {
    let r = INIParser::from_string("[a]b]\n");
    assert!(matches!(r, Err(InIParseError::UnsuccessfulParse(_))));
}

#[test]
fn output_field_is_directly_readable() {
    let parser = INIParser::from_string("[s]\na = 1\n").unwrap();
    assert_eq!(parser.output.get("s", "a").unwrap().as_str(), "1");
}

#[test]
fn file_read_error_is_distinct_from_syntax_error() {
    let read_failure = InIParseError::FileReadError("no such file".to_string());
    assert!(matches!(read_failure, InIParseError::FileReadError(_)));
    assert!(!matches!(read_failure, InIParseError::UnsuccessfulParse(_)));
    let syntax_failure = INIParser::from_string("[unclosed").unwrap_err();
    assert!(!matches!(syntax_failure, InIParseError::FileReadError(_)));
}
