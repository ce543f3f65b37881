use envfile::{EnvDeclaration, EnvFile, EnvFileRow, ParseError};

fn decl(name: &str, value: Option<&str>) -> EnvFileRow {
    EnvFileRow::Declaration(EnvDeclaration {
        name: name.to_string(),
        value: value.map(|v| v.to_string()),
    })
}

#[test]
fn parses_example_file() {
    let input = "# comment only\n\nABC=\nWITH_DEFAULT=123\nWITH_COMMENT=\nWITH_NUMBER_IN_0=\n";
    let parsed = EnvFile::from_str(input).expect("parse failed");
    assert_eq!(
        parsed,
        EnvFile(vec![
            EnvFileRow::CommentOnly("comment only".to_string()),
            EnvFileRow::Empty,
            decl("ABC", None),
            decl("WITH_DEFAULT", Some("123")),
            decl("WITH_COMMENT", None),
            decl("WITH_NUMBER_IN_0", None),
        ])
    );
}

#[test]
fn empty_text_parses_to_empty_file() {
    assert_eq!(EnvFile::from_str(""), Ok(EnvFile(vec![])));
    assert_eq!(EnvFile(vec![]).to_string(), "".to_string());
}

#[test]
fn comments_and_blanks_round_trip() {
    let input = "# first\n\n\n# second\n";
    let parsed = EnvFile::from_str(input).expect("parse failed");
    assert_eq!(
        parsed,
        EnvFile(vec![
            EnvFileRow::CommentOnly("first".to_string()),
            EnvFileRow::Empty,
            EnvFileRow::Empty,
            EnvFileRow::CommentOnly("second".to_string()),
        ])
    );
    assert_eq!(parsed.to_string(), input.to_string());
    assert_eq!(EnvFile::from_str(&parsed.to_string()), Ok(parsed));
}

#[test]
fn trailing_newline_is_optional() {
    assert_eq!(
        EnvFile::from_str("A=1"),
        EnvFile::from_str("A=1\n")
    );
}

#[test]
fn trailing_blank_lines_are_trimmed() {
    let parsed = EnvFile::from_str("A=1\n\n\n").expect("parse failed");
    assert_eq!(parsed, EnvFile(vec![decl("A", Some("1"))]));
    assert_eq!(parsed.to_string(), "A=1\n".to_string());
}

#[test]
fn value_is_first_token_after_whitespace() {
    let parsed = EnvFile::from_str("A= \t value rest\n").expect("parse failed");
    assert_eq!(parsed, EnvFile(vec![decl("A", Some("value"))]));
}

#[test]
fn declaration_with_only_whitespace_after_equals_has_no_value() {
    let parsed = EnvFile::from_str("A=   \n").expect("parse failed");
    assert_eq!(parsed, EnvFile(vec![decl("A", None)]));
}

#[test]
fn value_may_contain_equals_signs() {
    let parsed = EnvFile::from_str("A=b=c\n").expect("parse failed");
    assert_eq!(parsed, EnvFile(vec![decl("A", Some("b=c"))]));
}

#[test]
fn comment_spaces_are_stripped_once() {
    let parsed = EnvFile::from_str("#   spaced out\n").expect("parse failed");
    assert_eq!(
        parsed,
        EnvFile(vec![EnvFileRow::CommentOnly("spaced out".to_string())])
    );
    assert_eq!(parsed.to_string(), "# spaced out\n".to_string());
}

#[test]
fn unicode_names_and_values_parse() {
    let parsed = EnvFile::from_str("caf\u{e9}=d\u{e9}j\u{e0}\n").expect("parse failed");
    assert_eq!(
        parsed,
        EnvFile(vec![decl("caf\u{e9}", Some("d\u{e9}j\u{e0}"))])
    );
    assert_eq!(parsed.to_string(), "caf\u{e9}=d\u{e9}j\u{e0}\n".to_string());
}

#[test]
fn line_without_equals_is_an_error() {
    assert_eq!(EnvFile::from_str("abc\n"), Err(ParseError { line: 0 }));
}

#[test]
fn name_starting_with_digit_is_an_error() {
    assert_eq!(EnvFile::from_str("A=1\n0BC=2\n"), Err(ParseError { line: 1 }));
}

#[test]
fn space_before_equals_is_an_error() {
    assert_eq!(EnvFile::from_str("A =1\n"), Err(ParseError { line: 0 }));
}

#[test]
fn bare_hash_is_an_error() {
    assert_eq!(EnvFile::from_str("#\n"), Err(ParseError { line: 0 }));
    assert_eq!(EnvFile::from_str("#   \n"), Err(ParseError { line: 0 }));
}

#[test]
fn error_reports_first_bad_line() {
    assert_eq!(
        EnvFile::from_str("# ok\nA=1\n???\n!!!\n"),
        Err(ParseError { line: 2 })
    );
}

#[test]
fn declaration_round_trips_through_serialization() {
    let file = EnvFile(vec![
        EnvFileRow::CommentOnly("header".to_string()),
        decl("KEY", Some("value")),
        EnvFileRow::Empty,
        decl("EMPTY", None),
    ]);
    assert_eq!(file.to_string(), "# header\nKEY=value\n\nEMPTY=\n".to_string());
    assert_eq!(EnvFile::from_str(&file.to_string()), Ok(file));
}
