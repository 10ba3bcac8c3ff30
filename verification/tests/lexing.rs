use toml_syntax::lexical::lex;
use toml_syntax::util::allowed_chars;
use toml_syntax::util::escape::check_escape;
use toml_syntax::{check_underscores, SyntaxKind};

fn kinds(source: &str) -> Vec<(SyntaxKind, &str)> {
    lex(source).iter().map(|l| (l.kind, &source[l.start..l.end])).collect()
}

#[test]
fn single_tokens() {
    for (source, kind) in [
        (" \t ", SyntaxKind::WHITESPACE),
        ("\n\r\n\n", SyntaxKind::NEWLINE),
        ("# é", SyntaxKind::COMMENT),
        ("a-b_1", SyntaxKind::IDENT),
        ("trueish", SyntaxKind::IDENT),
        ("2020-1", SyntaxKind::IDENT),
        (".", SyntaxKind::PERIOD),
        (",", SyntaxKind::COMMA),
        ("=", SyntaxKind::EQ),
        ("\"a\\\"b\"", SyntaxKind::STRING),
        ("\"\"", SyntaxKind::STRING),
        ("\"\"\"a\n\\\"\"\"\"", SyntaxKind::MULTI_LINE_STRING),
        ("\"\"\"a\"\"\"\"\"", SyntaxKind::MULTI_LINE_STRING),
        ("'a\\'", SyntaxKind::STRING_LITERAL),
        ("'''a\n''b'''", SyntaxKind::MULTI_LINE_STRING_LITERAL),
        ("12", SyntaxKind::INTEGER),
        ("+1_2", SyntaxKind::INTEGER),
        ("0xfF", SyntaxKind::INTEGER_HEX),
        ("0o17", SyntaxKind::INTEGER_OCT),
        ("0b01", SyntaxKind::INTEGER_BIN),
        ("1.5", SyntaxKind::FLOAT),
        ("1e-5", SyntaxKind::FLOAT),
        ("-inf", SyntaxKind::FLOAT),
        ("nan", SyntaxKind::FLOAT),
        ("true", SyntaxKind::BOOL),
        ("false", SyntaxKind::BOOL),
        ("1979-05-27", SyntaxKind::DATE),
        ("07:32:00.25", SyntaxKind::DATE),
        ("1979-05-27T07:32:00+01:00", SyntaxKind::DATE),
        ("[", SyntaxKind::BRACKET_START),
        ("]", SyntaxKind::BRACKET_END),
        ("{", SyntaxKind::BRACE_START),
        ("}", SyntaxKind::BRACE_END),
        ("é", SyntaxKind::ERROR),
        ("\r", SyntaxKind::ERROR),
    ] {
        assert_eq!(kinds(source), [(kind, source)]);
    }
}

#[test]
fn several_tokens() {
    assert_eq!(
        kinds("a.1 = \"x\n"),
        [
            (SyntaxKind::IDENT, "a"),
            (SyntaxKind::PERIOD, "."),
            (SyntaxKind::INTEGER, "1"),
            (SyntaxKind::WHITESPACE, " "),
            (SyntaxKind::EQ, "="),
            (SyntaxKind::WHITESPACE, " "),
            (SyntaxKind::ERROR, "\""),
            (SyntaxKind::IDENT, "x"),
            (SyntaxKind::NEWLINE, "\n"),
        ]
    );
    assert_eq!(lex("").len(), 0);
}

#[test]
fn underscores_stand_between_digits() {
    assert!(check_underscores("", 10));
    assert!(check_underscores("1_000", 10));
    assert!(check_underscores("0xF_F", 16));
    assert!(check_underscores("z_Z", 36));
    assert!(!check_underscores("_1", 10));
    assert!(!check_underscores("1_", 10));
    assert!(!check_underscores("1__0", 10));
    assert!(!check_underscores("1_a", 10));
    assert!(!check_underscores("0x_1", 16));
    assert!(!check_underscores("1_2", 2));
    assert!(!check_underscores("1._5", 10));
}

#[test]
fn characters_that_are_not_allowed() {
    assert_eq!(allowed_chars::comment("# a\tb"), Ok(()));
    assert_eq!(allowed_chars::comment("#\u{0}a\u{7f}"), Err(vec![1, 3]));
    assert_eq!(allowed_chars::string("\"\n\""), Err(vec![1]));
    assert_eq!(allowed_chars::string_literal("'é\u{1f}'"), Err(vec![3]));
    assert_eq!(allowed_chars::multi_line_string("\r\n\t"), Ok(()));
    assert_eq!(allowed_chars::multi_line_string_literal("\n\u{8}\r\n"), Err(vec![1]));
}

#[test]
fn escape_sequences() {
    assert_eq!(check_escape("\\b\\t\\n\\f\\r\\\"\\\\"), Ok(()));
    assert_eq!(check_escape("\\u00e9\\U0010ffff"), Ok(()));
    assert_eq!(check_escape("a\\ \t\n b\\\r\n"), Ok(()));
    assert_eq!(check_escape("\\x\\"), Err(vec![0, 2]));
    assert_eq!(check_escape("\\u12\\udfff\\U00110000"), Err(vec![0, 4, 10]));
    assert_eq!(check_escape("\\ a"), Err(vec![0]));
}
