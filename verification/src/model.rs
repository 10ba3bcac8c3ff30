//! What parsing does, as functions from one state of the parser to the next.
//!
//! Where a function returns a pair, the second part tells whether it succeeded.

use vstd::prelude::*;
use vstd::utf8::decode_utf8;

use crate::error::ErrorView;
use crate::syntax::SyntaxKind;
use crate::tree::TreeEvent;
use crate::util::allowed_chars::forbidden_offsets;
use crate::util::escape::escape_errors;
use crate::util::underscores::underscores_between_digits;

verus! {

/// A token as the lexer hands it out.
#[verifier::ext_equal]
pub struct Tok {
    pub kind: SyntaxKind,
    /// The offset at which it starts.
    pub start: int,
    pub text: Seq<u8>,
}

/// A state of the parser.
#[verifier::ext_equal]
pub struct State {
    /// All tokens of the text.
    pub toks: Seq<Tok>,
    /// How many of them the lexer has handed out.
    pub pos: int,
    /// Where the lexer stands: the start and the text of what it handed out
    /// last, or the end of the text and nothing.
    pub start: int,
    pub text: Seq<u8>,
    /// The token that is looked at, if one is.
    pub current: Option<SyntaxKind>,
    pub skip_whitespace: bool,
    /// The tokens that an error does not consume.
    pub whitelist: u16,
    /// The tree that was built so far.
    pub tree: Seq<TreeEvent>,
    pub errors: Seq<ErrorView>,
}

/// A list of errors with one more, unless the same one is the last already.
pub open spec fn push_error(errors: Seq<ErrorView>, e: ErrorView) -> Seq<ErrorView> {
    if errors.len() > 0 && errors.last() == e {
        errors
    } else {
        errors.push(e)
    }
}

/// A list of errors with one more for each offset, counted from `start`.
pub open spec fn push_errors_at(
    errors: Seq<ErrorView>,
    start: int,
    offsets: Seq<int>,
    message: Seq<char>,
) -> Seq<ErrorView>
    decreases offsets.len(),
{
    if offsets.len() == 0 {
        errors
    } else {
        let at = start + offsets.last();
        push_error(
            push_errors_at(errors, start, offsets.drop_last(), message),
            ErrorView { start: at, end: at, message },
        )
    }
}

/// The walk over the parts of a text between its periods: identifiers, with
/// a period between every two of them.
pub open spec fn dotted(text: Seq<u8>) -> Seq<TreeEvent>
    decreases text.len(),
{
    let at = last_period(text);
    let part = TreeEvent::Token {
        kind: SyntaxKind::IDENT.number(),
        text: text.subrange(at + 1, text.len() as int),
    };
    if 0 <= at < text.len() {
        dotted(text.take(at)).push(
            TreeEvent::Token { kind: SyntaxKind::PERIOD.number(), text: seq![0x2eu8] },
        ).push(part)
    } else {
        seq![part]
    }
}

/// The offset of the last period of a text, or -1.
pub open spec fn last_period(text: Seq<u8>) -> int
    decreases text.len(),
{
    if text.len() == 0 {
        -1
    } else if text.last() == 0x2e {
        text.len() - 1
    } else {
        last_period(text.drop_last())
    }
}

/// A decimal integer with zeros in front of it.
pub open spec fn zero_padded(text: Seq<u8>) -> bool {
    ||| text.len() > 1 && text[0] == 0x30
    ||| text.len() > 2 && (text[0] == 0x2b || text[0] == 0x2d) && text[1] == 0x30
}

impl State {
    /// The state before anything was parsed.
    pub open spec fn initial(toks: Seq<Tok>) -> State {
        State {
            toks,
            pos: 0,
            start: 0,
            text: Seq::empty(),
            current: None,
            skip_whitespace: true,
            whitelist: 0,
            tree: Seq::empty(),
            errors: Seq::empty(),
        }
    }

    /// How many tokens are not in the tree yet.
    pub open spec fn left(self) -> nat {
        (if self.pos < self.toks.len() {
            (self.toks.len() - self.pos) as nat
        } else {
            0
        }) + (if self.current is Some {
            1nat
        } else {
            0
        })
    }

    /// The end of what the lexer handed out last.
    pub open spec fn end(self) -> int {
        self.start + self.text.len()
    }

    /// The text behind that starts with an opening bracket.
    pub open spec fn bracket_follows(self) -> bool {
        &&& self.pos < self.toks.len()
        &&& self.toks[self.pos].text.len() > 0
        &&& self.toks[self.pos].text[0] == 0x5b
    }

    /// The lexer hands out the next token, or reaches the end of the text.
    pub open spec fn next(self) -> State {
        if self.pos < self.toks.len() {
            State {
                pos: self.pos + 1,
                start: self.toks[self.pos].start,
                text: self.toks[self.pos].text,
                ..self
            }
        } else {
            State { start: self.end(), text: Seq::empty(), ..self }
        }
    }

    /// A token is added to the tree.
    pub open spec fn emit(self, kind: SyntaxKind, text: Seq<u8>) -> State {
        State { tree: self.tree.push(TreeEvent::Token { kind: kind.number(), text }), ..self }
    }

    /// A node is entered.
    pub open spec fn open(self, kind: SyntaxKind) -> State {
        State { tree: self.tree.push(TreeEvent::Open { kind: kind.number() }), ..self }
    }

    /// A node is left.
    pub open spec fn close(self) -> State {
        State { tree: self.tree.push(TreeEvent::Close), ..self }
    }

    /// An error is reported for what the lexer handed out last.
    pub open spec fn report(self, message: Seq<char>) -> State {
        State {
            errors: push_error(
                self.errors,
                ErrorView { start: self.start, end: self.end(), message },
            ),
            ..self
        }
    }

    /// Errors are reported for offsets in what the lexer handed out last.
    pub open spec fn report_at(self, offsets: Seq<int>, message: Seq<char>) -> State {
        State { errors: push_errors_at(self.errors, self.start, offsets, message), ..self }
    }

    /// From now on an error does not consume tokens of a kind.
    pub open spec fn allow(self, kind: SyntaxKind) -> State {
        State { whitelist: self.whitelist | kind.number(), ..self }
    }

    /// From now on an error consumes tokens of a kind.
    pub open spec fn disallow(self, kind: SyntaxKind) -> State {
        State { whitelist: self.whitelist & !kind.number(), ..self }
    }

    /// An error does not consume tokens of a kind. The list of kinds is a set
    /// of bits, so a kind that shares a bit with an allowed one is on it too.
    pub open spec fn whitelisted(self, kind: SyntaxKind) -> bool {
        self.whitelist & kind.number() != 0
    }

    /// The next token that matters becomes the current one; comments,
    /// blanks and what is no token go into the tree on the way.
    pub open spec fn step(self) -> State
        decreases self.toks.len() - self.pos,
    {
        let s = State { current: None, ..self }.next();
        if self.pos >= self.toks.len() {
            s
        } else {
            let kind = self.toks[self.pos].kind;
            if kind == SyntaxKind::COMMENT {
                s.report_at(
                    forbidden_offsets(s.text, false),
                    "invalid character in comment"@,
                ).emit(kind, s.text).step()
            } else if kind == SyntaxKind::WHITESPACE && self.skip_whitespace {
                s.emit(kind, s.text).step()
            } else if kind == SyntaxKind::ERROR {
                s.emit(kind, s.text).report("unexpected token"@).step()
            } else {
                State { current: Some(kind), ..s }
            }
        }
    }

    /// There is a current token, unless the text is at its end.
    pub open spec fn peek(self) -> State {
        if self.current is None {
            self.step()
        } else {
            self
        }
    }

    /// The current token goes into the tree as one of the given kind.
    pub open spec fn token_as(self, kind: SyntaxKind) -> (State, bool) {
        let s = self.peek();
        if s.current is None {
            (s, false)
        } else {
            (s.emit(kind, s.text).step(), true)
        }
    }

    /// The current token goes into the tree.
    pub open spec fn token(self) -> (State, bool) {
        let s = self.peek();
        match s.current {
            None => (s, false),
            Some(kind) => s.token_as(kind),
        }
    }

    /// An error is reported, and the current token goes into the tree as an
    /// error, unless it is one that errors do not consume.
    pub open spec fn error(self, message: Seq<char>) -> State {
        let s = self.report(message);
        match s.current {
            Some(t) => if s.whitelisted(t) {
                s
            } else {
                s.token_as(SyntaxKind::ERROR).0
            },
            None => s,
        }
    }

    /// A token of the given kind has to follow.
    pub open spec fn expect(self, kind: SyntaxKind, message: Seq<char>) -> (State, bool) {
        let s = self.peek();
        match s.current {
            Some(t) => if t == kind {
                s.token()
            } else {
                (s.error(message), false)
            },
            None => (s.report("unexpected EOF"@), false),
        }
    }

    /// One part of a key.
    pub open spec fn ident(self) -> (State, bool) {
        let s = self.peek();
        let plus = s.text.len() > 0 && s.text[0] == 0x2b;
        match s.current {
            None => (s, false),
            Some(t) => if t == SyntaxKind::IDENT {
                s.token()
            } else if t == SyntaxKind::INTEGER {
                if plus {
                    (s, false)
                } else {
                    s.token_as(SyntaxKind::IDENT)
                }
            } else if t == SyntaxKind::STRING_LITERAL {
                s.report_at(
                    forbidden_offsets(s.text, false),
                    "invalid control character in string literal"@,
                ).token_as(SyntaxKind::IDENT)
            } else if t == SyntaxKind::STRING {
                s.report_at(
                    forbidden_offsets(s.text, false),
                    "invalid character in string"@,
                ).report_at(escape_errors(s.text, 0), "invalid escape sequence"@).token_as(
                    SyntaxKind::IDENT,
                )
            } else if t == SyntaxKind::FLOAT {
                if plus {
                    (s, false)
                } else {
                    (State { tree: s.tree + dotted(s.text), ..s }.step(), true)
                }
            } else {
                (s.error("expected identifier"@), false)
            },
        }
    }

    /// A key: identifiers with periods in between.
    pub open spec fn key(self) -> (State, bool) {
        let r = self.ident();
        if r.1 {
            r.0.key_rest(false)
        } else {
            (r.0.error("expected identifier"@), false)
        }
    }

    /// What follows an identifier, or a period, of a key.
    pub open spec fn key_rest(self, after_period: bool) -> (State, bool)
        decreases self.left(),
    {
        let s = self.peek();
        match s.current {
            None => if after_period {
                (s.error("unexpected end of input"@), false)
            } else {
                (s, true)
            },
            Some(t) => if t == SyntaxKind::PERIOD {
                if after_period {
                    (s.error("unexpected \".\""@), false)
                } else {
                    let r = s.token();
                    proof {
                        lemma_peek(self);
                        lemma_token(s);
                    }
                    if r.1 {
                        r.0.key_rest(true)
                    } else {
                        (r.0, false)
                    }
                }
            } else if after_period {
                let r = s.ident();
                proof {
                    lemma_peek(self);
                    lemma_ident(s);
                }
                if r.1 {
                    r.0.key_rest(false)
                } else {
                    (r.0.error("expected identifier"@), false)
                }
            } else {
                (s, true)
            },
        }
    }

    /// A number whose underscores have to stand between digits.
    pub open spec fn number(self, radix: u32) -> (State, bool) {
        if underscores_between_digits(decode_utf8(self.text), radix) {
            self.token()
        } else {
            (self.error("invalid underscores"@), false)
        }
    }

    /// A value.
    pub open spec fn value(self) -> (State, bool)
        decreases self.left(), 5int,
    {
        let s = self.peek();
        proof {
            lemma_peek(self);
        }
        match s.current {
            None => (s.error("expected value"@), false),
            Some(t) => match t {
                SyntaxKind::BOOL | SyntaxKind::DATE => s.token(),
                SyntaxKind::INTEGER_BIN => s.number(2),
                SyntaxKind::INTEGER_HEX => s.number(16),
                SyntaxKind::INTEGER_OCT => s.number(8),
                SyntaxKind::FLOAT => s.number(10),
                SyntaxKind::STRING_LITERAL => s.report_at(
                    forbidden_offsets(s.text, false),
                    "invalid control character in string literal"@,
                ).token(),
                SyntaxKind::MULTI_LINE_STRING_LITERAL => s.report_at(
                    forbidden_offsets(s.text, true),
                    "invalid character in string"@,
                ).token(),
                SyntaxKind::STRING => s.report_at(
                    forbidden_offsets(s.text, false),
                    "invalid character in string"@,
                ).report_at(escape_errors(s.text, 0), "invalid escape sequence"@).token(),
                SyntaxKind::MULTI_LINE_STRING => s.report_at(
                    forbidden_offsets(s.text, true),
                    "invalid character in string"@,
                ).report_at(escape_errors(s.text, 0), "invalid escape sequence"@).token(),
                SyntaxKind::INTEGER => if zero_padded(s.text) {
                    (s.error("zero-padded integers are not allowed"@), false)
                } else {
                    s.number(10)
                },
                SyntaxKind::BRACKET_START => {
                    let r = s.open(SyntaxKind::ARRAY).array();
                    (r.0.close(), r.1)
                },
                SyntaxKind::BRACE_START => {
                    let r = s.open(SyntaxKind::INLINE_TABLE).inline_table();
                    (r.0.close(), r.1)
                },
                _ => (s.error("expected value"@), false),
            },
        }
    }

    /// The opening bracket of an array, and what follows it.
    pub open spec fn array(self) -> (State, bool)
        decreases self.left(), 4int,
    {
        let r = self.expect(SyntaxKind::BRACKET_START, "expected \"[\""@);
        proof {
            lemma_expect(self, SyntaxKind::BRACKET_START, "expected \"[\""@);
        }
        if r.1 {
            r.0.array_rest(true, false)
        } else {
            r
        }
    }

    /// The rest of an array: nothing of it was met yet, or a comma was met last.
    pub open spec fn array_rest(self, first: bool, comma_last: bool) -> (State, bool)
        decreases
                self.left(),
                if first || comma_last {
                    11int
                } else {
                    10int
                },
    {
        let s = self.peek();
        proof {
            lemma_peek(self);
        }
        match s.current {
            None => (s, false),
            Some(t) => if t == SyntaxKind::BRACKET_END {
                s.token()
            } else if t == SyntaxKind::NEWLINE {
                let r = s.token();
                proof {
                    lemma_token(s);
                }
                if r.1 {
                    r.0.array_rest(first, comma_last)
                } else {
                    r
                }
            } else if t == SyntaxKind::COMMA {
                let s1 = if first || comma_last {
                    s.error("unexpected \",\""@)
                } else {
                    s
                };
                let r = s1.token();
                proof {
                    lemma_error(s, "unexpected \",\""@);
                    lemma_token(s1);
                }
                if r.1 {
                    r.0.array_rest(false, true)
                } else {
                    r
                }
            } else {
                let s2 = s.array_element(first || comma_last);
                if self.goes_on(s2, first || comma_last) {
                    s2.array_rest(false, false)
                } else {
                    (s2, false)
                }
            },
        }
    }

    /// An element of an array, which has to stand behind a comma unless it
    /// is the first one.
    pub open spec fn array_element(self, in_place: bool) -> State
        decreases self.left(), 9int,
    {
        let s = if in_place {
            self
        } else {
            self.error("expected \",\""@)
        };
        proof {
            lemma_error(self, "expected \",\""@);
        }
        s.allow(SyntaxKind::COMMA).open(SyntaxKind::VALUE).value().0.close().disallow(
            SyntaxKind::COMMA,
        )
    }

    /// A loop goes on with `next`: it has consumed a token, or may do without.
    pub open spec fn goes_on(self, next: State, may_stay: bool) -> bool {
        ||| next.left() < self.left()
        ||| next.left() == self.left() && may_stay
    }

    /// The opening brace of an inline table, and what follows it.
    pub open spec fn inline_table(self) -> (State, bool)
        decreases self.left(), 4int,
    {
        let r = self.expect(SyntaxKind::BRACE_START, "expected \"{\""@);
        proof {
            lemma_expect(self, SyntaxKind::BRACE_START, "expected \"{\""@);
        }
        if r.1 {
            r.0.table_rest(true, false, false)
        } else {
            r
        }
    }

    /// The rest of an inline table: nothing of it was met yet, a comma was
    /// met last, or a line break was met last.
    pub open spec fn table_rest(
        self,
        first: bool,
        comma_last: bool,
        was_newline: bool,
    ) -> (State, bool)
        decreases
                self.left(),
                10 + (if first {
                    4int
                } else {
                    0int
                }) + (if comma_last {
                    2int
                } else {
                    0int
                }) + (if was_newline {
                    0int
                } else {
                    1int
                }),
    {
        let s = self.peek();
        proof {
            lemma_peek(self);
        }
        match s.current {
            None => (s, false),
            Some(t) => if t == SyntaxKind::BRACE_END {
                if comma_last {
                    s.report("expected value, trailing comma is not allowed"@).token()
                } else {
                    s.token()
                }
            } else if t == SyntaxKind::NEWLINE {
                if was_newline {
                    (s, true)
                } else {
                    proof {
                        lemma_error(s, "newline is not allowed in an inline table"@);
                    }
                    s.error("newline is not allowed in an inline table"@).table_rest(
                        false,
                        comma_last,
                        true,
                    )
                }
            } else if t == SyntaxKind::COMMA {
                if first {
                    proof {
                        lemma_error(s, "unexpected \",\""@);
                    }
                    s.error("unexpected \",\""@).table_rest(false, true, false)
                } else {
                    let r = s.token();
                    proof {
                        lemma_token(s);
                    }
                    if r.1 {
                        r.0.table_rest(false, true, false)
                    } else {
                        r
                    }
                }
            } else {
                let s2 = s.table_element(first || comma_last);
                if self.goes_on(s2, first || comma_last) {
                    s2.table_rest(false, false, false)
                } else {
                    (s2, false)
                }
            },
        }
    }

    /// An entry of an inline table, which has to stand behind a comma unless
    /// it is the first one.
    pub open spec fn table_element(self, in_place: bool) -> State
        decreases self.left(), 9int,
    {
        let s = if in_place {
            self
        } else {
            self.error("expected \",\""@)
        };
        proof {
            lemma_error(self, "expected \",\""@);
        }
        s.allow(SyntaxKind::COMMA).open(SyntaxKind::ENTRY).entry().0.close().disallow(
            SyntaxKind::COMMA,
        )
    }

    /// A key, an equality sign and a value.
    pub open spec fn entry(self) -> (State, bool)
        decreases self.left(), 6int,
    {
        let k = self.open(SyntaxKind::KEY).key();
        let s = k.0.close();
        proof {
            lemma_key(self.open(SyntaxKind::KEY));
            lemma_expect(s, SyntaxKind::EQ, "expected \"=\""@);
        }
        if !k.1 {
            (s, false)
        } else {
            let r = s.expect(SyntaxKind::EQ, "expected \"=\""@);
            if !r.1 {
                r
            } else {
                let v = r.0.open(SyntaxKind::VALUE).value();
                (v.0.close(), v.1)
            }
        }
    }

    /// The header of a table.
    pub open spec fn table_header(self) -> (State, bool) {
        let r = self.expect(SyntaxKind::BRACKET_START, "expected \"[\""@);
        if !r.1 {
            r
        } else {
            r.0.open(SyntaxKind::KEY).key().0.close().expect(
                SyntaxKind::BRACKET_END,
                "expected \"]\""@,
            )
        }
    }

    /// The header of an element of an array of tables.
    pub open spec fn table_array_header(self) -> (State, bool) {
        let r = self.expect(SyntaxKind::BRACKET_START, "expected \"[[\""@);
        if !r.1 {
            r
        } else {
            let q = r.0.expect(SyntaxKind::BRACKET_START, "expected \"[[\""@);
            if !q.1 {
                q
            } else {
                let s = q.0.open(SyntaxKind::KEY).key().0.close();
                let s1 = s.expect(SyntaxKind::BRACKET_END, "expected \"]]\""@).0;
                (s1.expect(SyntaxKind::BRACKET_END, "expected \"]]\""@).0, true)
            }
        }
    }

    /// A node is left if one was entered for an entry.
    pub open spec fn close_entry(self, entry_started: bool) -> State {
        if entry_started {
            self.close()
        } else {
            self
        }
    }

    /// The lines of a document: something was met on the line already, and
    /// the node of an entry is still open.
    pub open spec fn lines(self, not_newline: bool, entry_started: bool) -> State
        decreases
                self.left(),
                if not_newline {
                    0int
                } else {
                    1int
                },
    {
        let s = self.peek();
        proof {
            lemma_peek(self);
        }
        match s.current {
            None => s.close_entry(entry_started),
            Some(t) => if t == SyntaxKind::NEWLINE {
                let s1 = s.close_entry(entry_started).token().0;
                proof {
                    lemma_token(s.close_entry(entry_started));
                }
                s1.lines(false, false)
            } else if t == SyntaxKind::BRACKET_START {
                let s1 = s.close_entry(entry_started);
                let s2 = if not_newline {
                    s1.error("expected new line"@)
                } else {
                    s1.header_line()
                };
                if self.goes_on(s2, !not_newline) {
                    s2.lines(true, false)
                } else {
                    s2
                }
            } else if not_newline {
                let s2 = s.error("expected new line"@);
                if self.goes_on(s2, false) {
                    s2.lines(true, entry_started)
                } else {
                    s2
                }
            } else {
                let s2 = s.close_entry(entry_started).entry_line();
                if self.goes_on(s2, true) {
                    s2.lines(true, true)
                } else {
                    s2
                }
            },
        }
    }

    /// A header, of an element of an array of tables where a second bracket
    /// follows, of a table otherwise.
    pub open spec fn header_line(self) -> State {
        let s = self.allow(SyntaxKind::NEWLINE);
        if self.bracket_follows() {
            s.open(SyntaxKind::TABLE_ARRAY_HEADER).table_array_header().0.close().disallow(
                SyntaxKind::NEWLINE,
            )
        } else {
            s.open(SyntaxKind::TABLE_HEADER).table_header().0.close().disallow(SyntaxKind::NEWLINE)
        }
    }

    /// An entry, in a node that stays open.
    pub open spec fn entry_line(self) -> State {
        self.open(SyntaxKind::ENTRY).allow(SyntaxKind::NEWLINE).entry().0.disallow(
            SyntaxKind::NEWLINE,
        )
    }
}

/// The state after a whole text was parsed.
pub open spec fn document(toks: Seq<Tok>) -> State {
    State::initial(toks).open(SyntaxKind::ROOT).lines(false, false).close()
}

/// A later state of the same parse, in which no token came back.
pub open spec fn later(a: State, b: State) -> bool {
    &&& b.toks == a.toks
    &&& b.skip_whitespace == a.skip_whitespace
    &&& b.whitelist == a.whitelist
    &&& a.pos <= b.pos
    &&& a.pos <= a.toks.len() ==> b.pos <= b.toks.len()
    &&& b.left() <= a.left()
}

pub proof fn lemma_step(s: State)
    ensures
        later(State { current: None, ..s }, s.step()),
        s.step().current is None ==> s.step().pos >= s.toks.len(),
    decreases s.toks.len() - s.pos,
{
    if s.pos < s.toks.len() {
        let n = State { current: None, ..s }.next();
        let kind = s.toks[s.pos].kind;
        if kind == SyntaxKind::COMMENT {
            lemma_step(
                n.report_at(
                    forbidden_offsets(n.text, false),
                    "invalid character in comment"@,
                ).emit(kind, n.text),
            );
        } else if kind == SyntaxKind::WHITESPACE && s.skip_whitespace {
            lemma_step(n.emit(kind, n.text));
        } else if kind == SyntaxKind::ERROR {
            lemma_step(n.emit(kind, n.text).report("unexpected token"@));
        }
    }
}

pub proof fn lemma_peek(s: State)
    ensures
        later(s, s.peek()),
        s.peek().current is None ==> s.peek().pos >= s.toks.len(),
{
    lemma_step(s);
}

pub proof fn lemma_token_as(s: State, kind: SyntaxKind)
    ensures
        later(s, s.token_as(kind).0),
        s.token_as(kind).1 ==> s.token_as(kind).0.left() < s.left(),
        s.current is Some ==> s.token_as(kind).1,
{
    lemma_peek(s);
    lemma_step(s.peek().emit(kind, s.peek().text));
}

pub proof fn lemma_token(s: State)
    ensures
        later(s, s.token().0),
        s.token().1 ==> s.token().0.left() < s.left(),
        s.current is Some ==> s.token().1,
{
    lemma_peek(s);
    if s.peek().current is Some {
        lemma_token_as(s.peek(), s.peek().current->0);
    }
}

pub proof fn lemma_error(s: State, message: Seq<char>)
    ensures
        later(s, s.error(message)),
        s.current is Some && !s.whitelisted(s.current->0) ==> s.error(message).left() < s.left(),
        s.current is Some && s.whitelisted(s.current->0) ==> s.error(message).current == s.current,
{
    lemma_token_as(s.report(message), SyntaxKind::ERROR);
}

pub proof fn lemma_expect(s: State, kind: SyntaxKind, message: Seq<char>)
    ensures
        later(s, s.expect(kind, message).0),
        s.expect(kind, message).1 ==> s.expect(kind, message).0.left() < s.left(),
{
    lemma_peek(s);
    lemma_token(s.peek());
    lemma_error(s.peek(), message);
}

pub proof fn lemma_ident(s: State)
    ensures
        later(s, s.ident().0),
        s.ident().1 ==> s.ident().0.left() < s.left(),
{
    lemma_peek(s);
    let p = s.peek();
    lemma_token(p);
    lemma_token_as(p, SyntaxKind::IDENT);
    lemma_token_as(
        p.report_at(
            forbidden_offsets(p.text, false),
            "invalid control character in string literal"@,
        ),
        SyntaxKind::IDENT,
    );
    lemma_token_as(
        p.report_at(forbidden_offsets(p.text, false), "invalid character in string"@).report_at(
            escape_errors(p.text, 0),
            "invalid escape sequence"@,
        ),
        SyntaxKind::IDENT,
    );
    lemma_step(State { tree: p.tree + dotted(p.text), ..p });
    lemma_error(p, "expected identifier"@);
}

pub proof fn lemma_key_rest(s: State, after_period: bool)
    ensures
        later(s, s.key_rest(after_period).0),
    decreases s.left(),
{
    lemma_peek(s);
    let p = s.peek();
    lemma_error(p, "unexpected end of input"@);
    lemma_error(p, "unexpected \".\""@);
    lemma_token(p);
    lemma_ident(p);
    lemma_error(p.ident().0, "expected identifier"@);
    if p.current == Some(SyntaxKind::PERIOD) {
        if !after_period && p.token().1 {
            lemma_key_rest(p.token().0, true);
        }
    } else if p.current is Some && after_period && p.ident().1 {
        lemma_key_rest(p.ident().0, false);
    }
}

pub proof fn lemma_key(s: State)
    ensures
        later(s, s.key().0),
{
    lemma_ident(s);
    lemma_key_rest(s.ident().0, false);
    lemma_error(s.ident().0, "expected identifier"@);
}

} // verus!
