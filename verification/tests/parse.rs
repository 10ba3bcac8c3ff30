use rowan::NodeOrToken;
use rowan::WalkEvent;
use toml_syntax::lexical::lex;
use toml_syntax::{parse, parse_lexemes, Lexeme, Parse, SyntaxKind};

fn name(code: u16) -> String {
    format!("{:?}", SyntaxKind::from_code(code).unwrap())
}

/// The tree as a text: `KIND(` .. `)` for nodes, `KIND"text"` for tokens.
fn show(parsed: Parse) -> String {
    let mut out = String::new();
    for event in parsed.into_syntax().preorder_with_tokens() {
        match event {
            WalkEvent::Enter(NodeOrToken::Node(n)) => {
                out.push_str(&name(n.kind().0));
                out.push('(');
            }
            WalkEvent::Enter(NodeOrToken::Token(t)) => {
                out.push_str(&name(t.kind().0));
                out.push_str(&format!("{:?} ", t.text().as_str()));
            }
            WalkEvent::Leave(NodeOrToken::Node(_)) => out.push_str(") "),
            WalkEvent::Leave(NodeOrToken::Token(_)) => {}
        }
    }
    out
}

/// The texts of the tokens in the tree.
fn text(parsed: Parse) -> String {
    let mut out = String::new();
    for event in parsed.into_syntax().preorder_with_tokens() {
        if let WalkEvent::Enter(NodeOrToken::Token(t)) = event {
            out.push_str(t.text().as_str());
        }
    }
    out
}

const SAMPLES: [&str; 12] = [
    "",
    "a = 1\n",
    "\u{feff}a",
    "1.5.x = [1, {b = \"c\"}, 'd']  # é\r\n[t]\r\n",
    "a = 1 [b] c",
    "= = ]\n[[",
    "{ \n \n }",
    "x = [ , 1 2 ,, é",
    "x = { , a = 1 b = 2,, }\n\n",
    "\"\"\" never closed",
    "'''x''''' = '",
    "a.b.1_.+2 = 0x_",
];

#[test]
fn trees_are_lossless() {
    for source in SAMPLES {
        assert_eq!(text(parse(source)), source);
    }
}

#[test]
fn trees_have_one_root() {
    for source in SAMPLES {
        let root = parse(source).into_syntax();
        assert_eq!(root.kind().0, SyntaxKind::ROOT.code());
        assert!(root.parent().is_none());
        assert_eq!(root.text_range(), rowan::TextRange::up_to((source.len() as u32).into()));
    }
}

#[test]
fn error_tokens_come_with_errors() {
    for source in SAMPLES {
        let parsed = parse(source);
        if parsed.errors.is_empty() {
            assert!(!show(parsed).contains("ERROR"));
        }
    }
    assert!(show(parse("a = 1 b")).contains("ERROR\"b\""));
}

#[test]
fn leaves_are_the_tokens_of_the_text() {
    for source in SAMPLES {
        let mut leaves = Vec::new();
        for event in parse(source).into_syntax().preorder_with_tokens() {
            if let WalkEvent::Enter(NodeOrToken::Token(t)) = event {
                let kind = SyntaxKind::from_code(t.kind().0).unwrap();
                leaves.push((kind, t.text().to_string()));
            }
        }
        let mut next = 0;
        for l in lex(source) {
            let token = &source[l.start..l.end];
            let (kind, text) = &leaves[next];
            if text == token {
                let is_key = matches!(
                    l.kind,
                    SyntaxKind::INTEGER
                        | SyntaxKind::FLOAT
                        | SyntaxKind::STRING
                        | SyntaxKind::STRING_LITERAL
                );
                assert!(
                    *kind == l.kind
                        || *kind == SyntaxKind::ERROR
                        || (*kind == SyntaxKind::IDENT && is_key)
                );
                next += 1;
            } else {
                assert_eq!(l.kind, SyntaxKind::FLOAT);
                for (i, part) in token.split('.').enumerate() {
                    if i > 0 {
                        assert_eq!(leaves[next], (SyntaxKind::PERIOD, ".".to_owned()));
                        next += 1;
                    }
                    assert_eq!(leaves[next], (SyntaxKind::IDENT, part.to_owned()));
                    next += 1;
                }
            }
        }
        assert_eq!(next, leaves.len());
    }
}

#[test]
fn empty_document() {
    assert_eq!(show(parse("")), "ROOT() ");
}

#[test]
fn simple_entry() {
    assert_eq!(
        show(parse("a = 1\n")),
        "ROOT(ENTRY(KEY(IDENT\"a\" WHITESPACE\" \" ) EQ\"=\" WHITESPACE\" \" VALUE(INTEGER\"1\" ) ) \
         NEWLINE\"\\n\" ) "
    );
}

#[test]
fn float_key_is_split() {
    assert_eq!(
        show(parse("1.5=true")),
        "ROOT(ENTRY(KEY(IDENT\"1\" PERIOD\".\" IDENT\"5\" ) EQ\"=\" VALUE(BOOL\"true\" ) ) ) "
    );
    assert_eq!(
        show(parse("1.5.6=0")),
        "ROOT(ENTRY(KEY(IDENT\"1\" PERIOD\".\" IDENT\"5\" PERIOD\".\" IDENT\"6\" ) EQ\"=\" \
         VALUE(INTEGER\"0\" ) ) ) "
    );
}

#[test]
fn quoted_keys_are_identifiers() {
    assert_eq!(
        show(parse("\"a\".'b'.3=1")),
        "ROOT(ENTRY(KEY(IDENT\"\\\"a\\\"\" PERIOD\".\" IDENT\"'b'\" PERIOD\".\" IDENT\"3\" ) \
         EQ\"=\" VALUE(INTEGER\"1\" ) ) ) "
    );
}

#[test]
fn table_headers() {
    assert_eq!(
        show(parse("[a.b]\n")),
        "ROOT(TABLE_HEADER(BRACKET_START\"[\" KEY(IDENT\"a\" PERIOD\".\" IDENT\"b\" ) \
         BRACKET_END\"]\" ) NEWLINE\"\\n\" ) "
    );
    assert_eq!(
        show(parse("[[a]]")),
        "ROOT(TABLE_ARRAY_HEADER(BRACKET_START\"[\" BRACKET_START\"[\" KEY(IDENT\"a\" ) \
         BRACKET_END\"]\" BRACKET_END\"]\" ) ) "
    );
}

#[test]
fn array() {
    assert_eq!(
        show(parse("a=[1, \n2]")),
        "ROOT(ENTRY(KEY(IDENT\"a\" ) EQ\"=\" VALUE(ARRAY(BRACKET_START\"[\" VALUE(INTEGER\"1\" ) \
         COMMA\",\" WHITESPACE\" \" NEWLINE\"\\n\" VALUE(INTEGER\"2\" ) BRACKET_END\"]\" ) ) ) ) "
    );
}

#[test]
fn inline_table() {
    assert_eq!(
        show(parse("a={b=1}")),
        "ROOT(ENTRY(KEY(IDENT\"a\" ) EQ\"=\" VALUE(INLINE_TABLE(BRACE_START\"{\" \
         ENTRY(KEY(IDENT\"b\" ) EQ\"=\" VALUE(INTEGER\"1\" ) ) BRACE_END\"}\" ) ) ) ) "
    );
}

#[test]
fn entry_takes_its_whole_line() {
    assert_eq!(
        show(parse("a=1 # c\nb=2")),
        "ROOT(ENTRY(KEY(IDENT\"a\" ) EQ\"=\" VALUE(INTEGER\"1\" WHITESPACE\" \" COMMENT\"# c\" ) ) \
         NEWLINE\"\\n\" ENTRY(KEY(IDENT\"b\" ) EQ\"=\" VALUE(INTEGER\"2\" ) ) ) "
    );
    assert_eq!(
        show(parse("a=1 b\n")),
        "ROOT(ENTRY(KEY(IDENT\"a\" ) EQ\"=\" VALUE(INTEGER\"1\" WHITESPACE\" \" ) ERROR\"b\" ) \
         NEWLINE\"\\n\" ) "
    );
}

#[test]
fn line_breaks_stand_between_entries() {
    let more = ["a=1\nb=2\n\n[t]\n[[u]] # c\nc=3", "[a] [b] c=1\nd=2 [e]\n\n", "a 1\n]\n="];
    for source in SAMPLES.iter().chain(more.iter()) {
        let mut new_line = true;
        for child in parse(source).into_syntax().children_with_tokens() {
            match child {
                NodeOrToken::Node(_) => {
                    assert!(new_line, "{}", source);
                    new_line = false;
                }
                NodeOrToken::Token(t) => {
                    if t.kind().0 == SyntaxKind::NEWLINE.code() {
                        new_line = true;
                    }
                }
            }
        }
    }
    let root = parse(more[0]).into_syntax();
    assert_eq!(root.children().count(), 5);
}

#[test]
fn root_holds_entries_and_headers() {
    for source in SAMPLES {
        for child in parse(source).into_syntax().children_with_tokens() {
            let kind = SyntaxKind::from_code(child.kind().0).unwrap();
            let expected = match child {
                NodeOrToken::Node(_) => matches!(
                    kind,
                    SyntaxKind::ENTRY | SyntaxKind::TABLE_HEADER | SyntaxKind::TABLE_ARRAY_HEADER
                ),
                NodeOrToken::Token(_) => matches!(
                    kind,
                    SyntaxKind::NEWLINE
                        | SyntaxKind::WHITESPACE
                        | SyntaxKind::COMMENT
                        | SyntaxKind::ERROR
                ),
            };
            assert!(expected, "{} {:?}", source, kind);
        }
    }
}

#[test]
fn nodes_follow_the_grammar() {
    let parsed = parse("[t]\na.1.5 = [{b=\"x\"}, [], # c\n0]\n[[u]]");
    assert!(parsed.errors.is_empty());
    assert_eq!(
        show(parsed),
        "ROOT(TABLE_HEADER(BRACKET_START\"[\" KEY(IDENT\"t\" ) BRACKET_END\"]\" ) NEWLINE\"\\n\" \
         ENTRY(KEY(IDENT\"a\" PERIOD\".\" IDENT\"1\" PERIOD\".\" IDENT\"5\" WHITESPACE\" \" ) EQ\"=\" \
         WHITESPACE\" \" VALUE(ARRAY(BRACKET_START\"[\" VALUE(INLINE_TABLE(BRACE_START\"{\" \
         ENTRY(KEY(IDENT\"b\" ) EQ\"=\" VALUE(STRING\"\\\"x\\\"\" ) ) BRACE_END\"}\" ) ) COMMA\",\" \
         WHITESPACE\" \" VALUE(ARRAY(BRACKET_START\"[\" BRACKET_END\"]\" ) ) COMMA\",\" \
         WHITESPACE\" \" COMMENT\"# c\" NEWLINE\"\\n\" VALUE(INTEGER\"0\" ) BRACKET_END\"]\" ) ) ) \
         NEWLINE\"\\n\" TABLE_ARRAY_HEADER(BRACKET_START\"[\" BRACKET_START\"[\" KEY(IDENT\"u\" ) \
         BRACKET_END\"]\" BRACKET_END\"]\" ) ) "
    );
}

#[test]
fn bracket_ends_an_entry() {
    assert_eq!(
        show(parse("a=1 [b]")),
        "ROOT(ENTRY(KEY(IDENT\"a\" ) EQ\"=\" VALUE(INTEGER\"1\" WHITESPACE\" \" ) ) ERROR\"[\" \
         ERROR\"b\" ERROR\"]\" ) "
    );
}

#[test]
fn given_tokens() {
    let lexemes = vec![
        Lexeme { kind: SyntaxKind::IDENT, start: 0, end: 3 },
        Lexeme { kind: SyntaxKind::EQ, start: 3, end: 4 },
        Lexeme { kind: SyntaxKind::DATE, start: 4, end: 5 },
    ];
    let parsed = parse_lexemes("1.5=x", lexemes);
    assert!(parsed.errors.is_empty());
    assert_eq!(
        show(parsed),
        "ROOT(ENTRY(KEY(IDENT\"1.5\" ) EQ\"=\" VALUE(DATE\"x\" ) ) ) "
    );
}

#[test]
fn clone_is_the_same_parse() {
    let parsed = parse("a = 1 b");
    let copy = parsed.clone();
    assert_eq!(copy.errors, parsed.errors);
    assert_eq!(copy.green_node, parsed.green_node);
    assert_eq!(show(copy), show(parsed));
}

#[test]
fn kinds_and_their_numbers() {
    for code in 0..31 {
        assert_eq!(SyntaxKind::from_code(code).unwrap().code(), code);
    }
    assert!(SyntaxKind::from_code(31).is_none());
    assert_eq!(SyntaxKind::NEWLINE.code(), 1);
    assert_eq!(SyntaxKind::COMMA.code(), 5);
    assert_eq!(SyntaxKind::ROOT.code(), 30);
}
