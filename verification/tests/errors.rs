use toml_syntax::{parse, Error, TextRange};

fn errors(source: &str) -> Vec<String> {
    parse(source).errors.iter().map(|e| e.display()).collect()
}

#[test]
fn documents_without_errors() {
    for source in [
        "",
        "\n\n",
        "# only a comment",
        "a = 1",
        "a = 1 # behind\n\n[t]\n[[u.v]]\n'x'.\"y\".1.5 = {}\n",
        "a = [1, 2,\n 3,\n]\nb = { c = 1, d = [ { e = true } ] }\n",
        "i = -0\nj = +1\nk = 1_000\nh = 0xF_f\no = 0o17\nb = 0b1_0\nf = 1_0.5e-3\nn = -nan\n",
        "d = 1979-05-27T07:32:00.5-07:00\nt = 07:32:00\nu = 1979-05-27 07:32:00Z\n",
        "s = \"\\u00e9 \\U0001F600 \\n\"\nm = \"\"\"a\\\n b\"\"\"\nl = '\\q'\nk = '''x\ny'''\n",
    ] {
        assert_eq!(errors(source), Vec::<String>::new(), "{}", source);
    }
}

#[test]
fn what_is_open_at_the_end_is_accepted() {
    for source in ["a = [", "a = [1", "a = [1,", "a = {", "a = { b = 1", "a = { b = 1,", "a = [[{"] {
        assert_eq!(errors(source), Vec::<String>::new(), "{}", source);
    }
}

#[test]
fn unexpected_token() {
    assert_eq!(errors("a = 1 $\n"), ["unexpected token (6..7)"]);
    assert_eq!(errors("a = 1 é\n"), ["unexpected token (6..8)"]);
}

#[test]
fn expected_new_line() {
    assert_eq!(
        errors("a = 1 b = 2"),
        ["expected new line (6..7)", "expected new line (8..9)", "expected new line (10..11)"]
    );
    assert_eq!(
        errors("[a] [b]\n"),
        ["expected new line (4..5)", "expected new line (5..6)", "expected new line (6..7)"]
    );
}

#[test]
fn expected_identifier() {
    assert_eq!(
        errors("= 1\n"),
        [
            "expected identifier (0..1)",
            "expected identifier (2..3)",
            "expected new line (2..3)",
        ]
    );
    assert_eq!(
        errors("+1 = 2"),
        [
            "expected identifier (0..2)",
            "expected new line (0..2)",
            "expected new line (3..4)",
            "expected new line (5..6)",
        ]
    );
    assert_eq!(errors("+1.5 = 2")[0], "expected identifier (0..4)");
}

#[test]
fn same_error_is_reported_once() {
    assert_eq!(errors("[]"), ["expected identifier (1..2)"]);
    assert_eq!(errors("[[a\n"), ["expected \"]]\" (3..4)"]);
}

#[test]
fn unexpected_period() {
    assert_eq!(
        errors("a..b = 1"),
        [
            "unexpected \".\" (2..3)",
            "expected new line (3..4)",
            "expected new line (5..6)",
            "expected new line (7..8)",
        ]
    );
}

#[test]
fn unexpected_end() {
    assert_eq!(errors("a."), ["unexpected end of input (2..2)"]);
    assert_eq!(errors("a"), ["unexpected EOF (1..1)"]);
    assert_eq!(errors("[a"), ["unexpected EOF (2..2)"]);
    assert_eq!(errors("a ="), ["expected value (3..3)"]);
}

#[test]
fn expected_equality_sign() {
    assert_eq!(errors("a 1"), ["expected \"=\" (2..3)", "expected new line (2..3)"]);
    assert_eq!(errors("a\n"), ["expected \"=\" (1..2)"]);
}

#[test]
fn expected_value() {
    assert_eq!(errors("a = ]"), ["expected value (4..5)", "expected new line (4..5)"]);
    assert_eq!(errors("a = \nb = 1"), ["expected value (4..5)"]);
}

#[test]
fn nothing_is_whitelisted_behind_an_entry() {
    assert_eq!(
        errors("a = ] ]\n"),
        ["expected value (4..5)", "expected new line (4..5)", "expected new line (6..7)"]
    );
}

#[test]
fn expected_closing_brackets() {
    assert_eq!(errors("[a\n"), ["expected \"]\" (2..3)"]);
    assert_eq!(errors("[[a]\n"), ["expected \"]]\" (4..5)"]);
    assert_eq!(errors("[[a] ]\n"), Vec::<String>::new());
}

#[test]
fn invalid_underscores() {
    assert_eq!(errors("a = 1__2"), ["invalid underscores (4..8)", "expected new line (4..8)"]);
    assert_eq!(errors("a = 0x_1"), ["invalid underscores (4..8)"]);
    assert_eq!(errors("a = 0o1_"), ["invalid underscores (4..8)", "expected new line (4..8)"]);
    assert_eq!(errors("a = 0b1_"), ["invalid underscores (4..8)"]);
    assert_eq!(errors("a = 1_.5"), ["invalid underscores (4..8)", "expected new line (4..8)"]);
}

#[test]
fn zero_padded_integers() {
    let message = "zero-padded integers are not allowed";
    for (number, end) in [("01", 6), ("00", 6), ("+01", 7), ("-09", 7)] {
        assert_eq!(
            errors(&format!("a = {}", number)),
            [format!("{} (4..{})", message, end), format!("expected new line (4..{})", end)]
        );
    }
    for number in ["0", "+0", "-0", "10", "-10"] {
        assert_eq!(errors(&format!("a = {}", number)), Vec::<String>::new());
    }
}

#[test]
fn newline_in_inline_table() {
    assert_eq!(
        errors("a = { b = 1,\n c = 2 }"),
        ["newline is not allowed in an inline table (12..13)"]
    );
    assert_eq!(
        errors("a = {\n}"),
        [
            "newline is not allowed in an inline table (5..6)",
            "expected identifier (6..7)",
            "expected new line (6..7)",
        ]
    );
}

#[test]
fn commas_in_inline_tables() {
    assert_eq!(
        errors("a = {,}"),
        ["unexpected \",\" (5..6)", "expected value, trailing comma is not allowed (6..7)"]
    );
    assert_eq!(
        errors("a = {b = 1,}"),
        ["expected value, trailing comma is not allowed (11..12)"]
    );
    assert_eq!(
        errors("a = { b = 1 c = 2 }"),
        [
            "expected \",\" (12..13)",
            "expected identifier (14..15)",
            "expected \",\" (14..15)",
            "expected \"=\" (18..19)",
        ]
    );
    assert_eq!(errors("a = {b = 1,, c = 2}"), Vec::<String>::new());
}

#[test]
fn commas_in_arrays() {
    assert_eq!(errors("a = [,]"), ["unexpected \",\" (5..6)"]);
    assert_eq!(errors("a = [1 2]"), ["expected \",\" (7..8)", "expected value (8..9)"]);
    assert_eq!(errors("a = [1,]"), Vec::<String>::new());
}

#[test]
fn invalid_escape_sequences() {
    assert_eq!(errors("a = \"\\q\"\n"), ["invalid escape sequence (5..5)"]);
    assert_eq!(
        errors("a = \"\\ud800 \\x\"\n"),
        ["invalid escape sequence (5..5)", "invalid escape sequence (12..12)"]
    );
    assert_eq!(errors("a = \"\"\"\\q\"\"\"\n"), ["invalid escape sequence (7..7)"]);
    assert_eq!(errors("\"\\q\" = 1"), ["invalid escape sequence (1..1)"]);
}

#[test]
fn control_characters() {
    assert_eq!(errors("a = \"x\u{1}y\""), ["invalid character in string (6..6)"]);
    assert_eq!(errors("a = \"\"\"\u{1}\n\"\"\""), ["invalid character in string (7..7)"]);
    assert_eq!(errors("a = 'x\u{1}'"), ["invalid control character in string literal (6..6)"]);
    assert_eq!(errors("a = '''\n\u{7f}'''"), ["invalid character in string (8..8)"]);
    assert_eq!(
        errors("# \u{1}\u{2}\n"),
        ["invalid character in comment (2..2)", "invalid character in comment (3..3)"]
    );
    assert_eq!(errors("'\u{1}' = 1"), ["invalid control character in string literal (1..1)"]);
    assert_eq!(errors("\"\u{1}\" = 1"), ["invalid character in string (1..1)"]);
}

#[test]
fn errors_lie_in_the_text() {
    for source in ["a = 1 b", "[[", "a.", "x = [ , ,", "= = =\n[", "é é\n", "{,}\n{\n\n"] {
        let parsed = parse(source);
        assert!(parsed.errors.len() > 0);
        for e in &parsed.errors {
            assert!(e.range.start <= e.range.end && e.range.end as usize <= source.len());
            assert!(!e.message.is_empty());
        }
        for pair in parsed.errors.windows(2) {
            assert!(pair[0] != pair[1]);
        }
    }
}

#[test]
fn error_is_shown_with_its_range() {
    let e = Error { range: TextRange { start: 3, end: 4294967295 }, message: "oh".to_owned() };
    assert_eq!(e.display(), "oh (3..4294967295)");
    assert_eq!(e.clone(), e);
}
