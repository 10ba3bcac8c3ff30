//! The parser.

use rowan::cursor;
use rowan::GreenNode;
use rowan::GreenNodeBuilder;
use vstd::prelude::*;
use vstd::string::StringSliceAdditionalSpecFns;
use vstd::utf8::{
    encode_utf8_decode_utf8, is_ascii_chars_encode_utf8, is_char_boundary,
    is_char_boundary_start_end_of_seq, valid_utf8,
};

use crate::acceptance::documents_are_accepted;
use crate::acceptance::shape::trees_are_derivations;
use crate::derivation::document_walk;
use crate::error::{error_views, Error, ErrorView, TextRange};
use crate::grammar::{is_document, is_trivia};
use crate::laws::{
    added_errors_differ, allowing_is_undone, errors_are_in_text, errors_have_messages,
    looking_twice_is_looking_once, messages_are_not_empty, same_error_is_added_once,
    tree_has_one_root, tree_is_lossless,
};
use crate::lexer::{covers, lemma_toks_text, lemma_toks_tiled, toks_of, Lexeme, Lexer};
use crate::lexical::{lex, toks_in};
use crate::model::{
    document, dotted, last_period, lemma_error, lemma_expect, lemma_ident, lemma_peek, lemma_token,
    push_error, push_errors_at, zero_padded, State,
};
use crate::order::{in_order, trees_are_in_order};
use crate::preserved::{
    errors_differ, errors_fit, errors_known, keeps, known_message, lemma_keeps_array,
    lemma_keeps_array_element, lemma_keeps_entry, lemma_keeps_entry_line, lemma_keeps_error,
    lemma_keeps_expect, lemma_keeps_header_line, lemma_keeps_inline_table, lemma_keeps_key,
    lemma_keeps_lines, lemma_keeps_node, lemma_keeps_peek, lemma_keeps_refl,
    lemma_keeps_table_array_header, lemma_keeps_table_element, lemma_keeps_table_header,
    lemma_keeps_token, lemma_keeps_value, lemma_nested_push, lemma_nested_refl, lemma_nested_trans,
    lemma_walk_push, lemma_whitelist_bits, moves, nested, none_empty, table_moves, texts_from,
    tiled, valid, whole_text,
};
use crate::schema::{
    all_fit, all_reported, all_suit, all_told, all_true, breaks_left, error_tokens_are_reported,
    errors_are_true, leaves_suit, leaves_suit_their_kinds, line_breaks_are_no_errors,
    tokens_suit_their_kinds, trees_fit_the_schema, wrong_texts_are_reported,
};
use crate::syntax::SyntaxKind;
use crate::text::{lemma_boundary_after_ascii, lemma_str_is_utf8, slice};
use crate::tree::{
    add_token, builder_events, clone_green, finish, finish_node, green_events, has_parent,
    new_builder, new_root, open_nodes, start_node, syntax_events, tree_text, TreeEvent,
};
use crate::util::allowed_chars;
use crate::util::allowed_chars::{forbidden_offsets, lemma_forbidden_offsets_in_text};
use crate::util::escape::{check_escape, escape_errors, lemma_escape_errors_in_text};
use crate::util::reports;
use crate::util::underscores::check_underscores;

verus! {

/// This is just a convenience type during parsing.
/// It allows using "?", making the code cleaner.
type ParserResult<T> = Result<T, ()>;

struct Parser<'p> {
    skip_whitespace: bool,
    current_token: Option<SyntaxKind>,
    error_whitelist: u16,
    lexer: Lexer<'p>,
    builder: GreenNodeBuilder<'static>,
    errors: Vec<Error>,
}

impl<'p> View for Parser<'p> {
    type V = State;

    closed spec fn view(&self) -> State {
        State {
            toks: self.lexer.toks(),
            pos: self.lexer.pos(),
            start: self.lexer.start(),
            text: self.lexer.text(),
            current: self.current_token,
            skip_whitespace: self.skip_whitespace,
            whitelist: self.error_whitelist,
            tree: builder_events(self.builder),
            errors: error_views(self.errors@),
        }
    }
}

impl<'p> Parser<'p> {
    /// The parser can report errors and read tokens.
    closed spec fn ready(self) -> bool {
        &&& self.lexer.inv()
        &&& self.skip_whitespace ==> (self.current_token matches Some(t) ==> !is_trivia(t))
    }

    /// The parser can build nodes, too.
    closed spec fn sound(self) -> bool {
        &&& self.ready()
        &&& valid(self@)
        &&& whole_text(self@).len() <= u32::MAX
    }

    fn new(source: &'p str, lexemes: Vec<Lexeme>) -> (parser: Self)
        requires
            covers(lexemes@, source.spec_bytes()),
            source.spec_bytes().len() <= u32::MAX,
        ensures
            parser.ready(),
            parser@ == State::initial(toks_of(lexemes@, source.spec_bytes())),
    {
        let parser = Parser {
            current_token: None,
            skip_whitespace: true,
            error_whitelist: 0,
            lexer: Lexer::new(source, lexemes),
            builder: new_builder(),
            errors: Vec::new(),
        };
        assert(error_views(parser.errors@) =~= Seq::<ErrorView>::empty());
        parser
    }

    fn error(&mut self, message: &str) -> (res: ParserResult<()>)
        requires
            old(self).ready(),
        ensures
            final(self).ready(),
            final(self)@ == old(self)@.error(message@),
            res is Err,
    {
        let span = self.lexer.span();
        self.add_error(
            &Error {
                range: TextRange { start: span.0, end: span.1 },
                message: message.to_owned(),
            },
        );
        assert(self@ =~= old(self)@.report(message@));
        if let Some(t) = self.current_token {
            if !self.whitelisted(t) {
                let _ = self.token_as(SyntaxKind::ERROR);
            }
        }
        Err(())
    }

    /// Reports an error without consuming the current token.
    fn report_error(&mut self, message: &str) -> (res: ParserResult<()>)
        requires
            old(self).ready(),
        ensures
            final(self).ready(),
            final(self)@ == old(self)@.report(message@),
            res is Err,
    {
        let span = self.lexer.span();
        self.add_error(
            &Error {
                range: TextRange { start: span.0, end: span.1 },
                message: message.to_owned(),
            },
        );
        Err(())
    }

    fn add_error(&mut self, e: &Error)
        ensures
            final(self).lexer == old(self).lexer,
            final(self)@ == (State { errors: push_error(old(self)@.errors, e@), ..old(self)@ }),
            final(self).errors@.len() > 0,
            final(self).errors@.last()@ == e@,
            old(self)@.errors.is_prefix_of(final(self)@.errors),
            push_error(final(self)@.errors, e@) == final(self)@.errors,
            errors_differ(old(self)@.errors) ==> errors_differ(final(self)@.errors),
    {
        proof {
            same_error_is_added_once(self@.errors, e@);
            if errors_differ(self@.errors) {
                added_errors_differ(self@.errors, e@);
            }
        }
        let len = self.errors.len();
        if len > 0 {
            let last_err = &self.errors[len - 1];
            assert(error_views(self.errors@).last() == last_err@);
            if last_err.range == e.range && last_err.message == e.message {
                return;
            }
        }
        self.errors.push(e.clone());
        assert(error_views(self.errors@) =~= error_views(old(self).errors@).push(e@));
    }

    /// Reports an error for each offset in the text of the current token.
    fn add_errors_at(&mut self, offsets: Vec<usize>, message: &str)
        requires
            old(self).ready(),
            forall|i: int|
                0 <= i < offsets@.len() ==> #[trigger] offsets@[i] < old(self)@.text.len(),
        ensures
            final(self).ready(),
            final(self)@ == old(self)@.report_at(
                offsets@.map_values(|o: usize| o as int),
                message@,
            ),
    {
        let ghost all = offsets@.map_values(|o: usize| o as int);
        let start: u32 = self.lexer.span().0;
        proof {
            self.lexer.lemma_in_text();
            assert(all.take(0) =~= Seq::<int>::empty());
        }
        let mut i: usize = 0;
        while i < offsets.len()
            invariant
                i <= offsets@.len(),
                self.ready(),
                start == self@.start,
                start + self@.text.len() <= u32::MAX,
                all == offsets@.map_values(|o: usize| o as int),
                forall|j: int|
                    0 <= j < offsets@.len() ==> #[trigger] offsets@[j] < self@.text.len(),
                self@ == old(self)@.report_at(all.take(i as int), message@),
            decreases offsets.len() - i,
        {
            let at: u32 = start + offsets[i] as u32;
            self.add_error(
                &Error { range: TextRange { start: at, end: at }, message: message.to_owned() },
            );
            proof {
                let next = all.take(i + 1);
                assert(next.drop_last() =~= all.take(i as int));
                assert(next.last() == offsets@[i as int]);
                assert(push_errors_at(old(self)@.errors, old(self)@.start, next, message@)
                    == push_error(
                    push_errors_at(
                        old(self)@.errors,
                        old(self)@.start,
                        next.drop_last(),
                        message@,
                    ),
                    ErrorView { start: at as int, end: at as int, message: message@ },
                ));
                assert(self@ =~= old(self)@.report_at(next, message@));
            }
            i = i + 1;
        }
        assert(all.take(i as int) =~= all);
    }

    #[inline]
    fn whitelist_token(&mut self, token: SyntaxKind)
        ensures
            final(self).lexer == old(self).lexer,
            final(self)@ == old(self)@.allow(token),
    {
        self.error_whitelist = self.error_whitelist | token.code();
    }

    #[inline]
    fn blacklist_token(&mut self, token: SyntaxKind)
        ensures
            final(self).lexer == old(self).lexer,
            final(self)@ == old(self)@.disallow(token),
            forall|s: State|
                s.whitelist == 0 && old(self)@ == #[trigger] s.allow(token) ==> final(self)@ == s,
    {
        proof {
            assert forall|s: State|
                s.whitelist == 0 && self@ == #[trigger] s.allow(token) implies self@.disallow(token)
                == s by {
                allowing_is_undone(s, token);
            }
        }
        self.error_whitelist = self.error_whitelist & !token.code();
    }

    #[inline]
    fn whitelisted(&self, token: SyntaxKind) -> (yes: bool)
        ensures
            yes == self@.whitelisted(token),
    {
        self.error_whitelist & token.code() != 0
    }

    fn insert_token(&mut self, kind: SyntaxKind, s: &str)
        ensures
            final(self).lexer == old(self).lexer,
            final(self)@ == old(self)@.emit(kind, s.spec_bytes()),
    {
        add_token(&mut self.builder, kind.code(), s)
    }

    fn must_token_or(&mut self, kind: SyntaxKind, message: &str) -> (res: ParserResult<()>)
        requires
            old(self).ready(),
        ensures
            final(self).ready(),
            final(self)@ == old(self)@.expect(kind, message@).0,
            res is Ok == old(self)@.expect(kind, message@).1,
    {
        match self.get_token() {
            Ok(t) => {
                if kind == t {
                    self.token()
                } else {
                    self.error(message)
                }
            },
            Err(_) => self.report_error("unexpected EOF"),
        }
    }

    fn token(&mut self) -> (res: ParserResult<()>)
        requires
            old(self).ready(),
        ensures
            final(self).ready(),
            final(self)@ == old(self)@.token().0,
            res is Ok == old(self)@.token().1,
    {
        match self.get_token() {
            Err(_) => Err(()),
            Ok(token) => self.token_as(token),
        }
    }

    fn token_as(&mut self, kind: SyntaxKind) -> (res: ParserResult<()>)
        requires
            old(self).ready(),
        ensures
            final(self).ready(),
            final(self)@ == old(self)@.token_as(kind).0,
            res is Ok == old(self)@.token_as(kind).1,
    {
        match self.get_token() {
            Err(_) => return Err(()),
            Ok(_) => {
                let text = self.lexer.slice();
                self.insert_token(kind, text);
            },
        }
        self.step();
        Ok(())
    }

    fn step(&mut self)
        requires
            old(self).ready(),
        ensures
            final(self).ready(),
            final(self)@ == old(self)@.step(),
    {
        self.current_token = None;
        loop
            invariant_except_break
                self.ready(),
                self.current_token is None,
                self@.step() == old(self)@.step(),
            ensures
                self.ready(),
                self@ == old(self)@.step(),
            decreases self.lexer.toks().len() - self.lexer.pos(),
        {
            let ghost before = self@;
            let next = self.lexer.next();
            assert(self@ =~= State { current: None, ..before }.next());
            let token = match next {
                Some(token) => token,
                None => {
                    break;
                },
            };
            match token {
                SyntaxKind::COMMENT => {
                    let text = self.lexer.slice();
                    proof {
                        lemma_forbidden_offsets_in_text(text.spec_bytes(), false);
                    }
                    self.check_text(
                        allowed_chars::comment(text),
                        Ghost(forbidden_offsets(text.spec_bytes(), false)),
                        "invalid character in comment",
                    );
                    self.insert_token(token, text);
                },
                SyntaxKind::WHITESPACE => {
                    if self.skip_whitespace {
                        let text = self.lexer.slice();
                        self.insert_token(token, text);
                    } else {
                        self.current_token = Some(token);
                        break;
                    }
                },
                SyntaxKind::ERROR => {
                    let text = self.lexer.slice();
                    self.insert_token(token, text);
                    let _ = self.report_error("unexpected token");
                },
                _ => {
                    self.current_token = Some(token);
                    break;
                },
            }
        }
    }

    fn get_token(&mut self) -> (res: ParserResult<SyntaxKind>)
        requires
            old(self).ready(),
        ensures
            final(self).ready(),
            final(self)@ == old(self)@.peek(),
            res == (match old(self)@.peek().current {
                Some(token) => Ok::<SyntaxKind, ()>(token),
                None => Err::<SyntaxKind, ()>(()),
            }),
            forall|t: SyntaxKind|
                res == Ok::<SyntaxKind, ()>(t) <==> final(self)@.current == Some(t),
            final(self)@.peek() == final(self)@,
            final(self)@.skip_whitespace ==> (res matches Ok(t) ==> !is_trivia(t)),
    {
        proof {
            looking_twice_is_looking_once(self@);
        }
        if self.current_token.is_none() {
            self.step();
        }
        match self.current_token {
            Some(token) => Ok(token),
            None => Err(()),
        }
    }

    /// Reports what a check of the current token's text has found.
    fn check_text(
        &mut self,
        outcome: Result<(), Vec<usize>>,
        Ghost(offsets): Ghost<Seq<int>>,
        message: &str,
    )
        requires
            old(self).ready(),
            reports(outcome, offsets),
            forall|i: int|
                0 <= i < offsets.len() ==> 0 <= #[trigger] offsets[i] < old(self)@.text.len(),
        ensures
            final(self).ready(),
            final(self)@ == old(self)@.report_at(offsets, message@),
    {
        match outcome {
            Ok(_) => {
                assert(offsets =~= Seq::<int>::empty());
            },
            Err(err_indices) => {
                assert(err_indices@.map_values(|o: usize| o as int) =~= offsets);
                self.add_errors_at(err_indices, message);
            },
        }
    }

    fn parse_root(&mut self) -> (res: ParserResult<()>)
        requires
            old(self).sound(),
            old(self)@.whitelist == 0,
            open_nodes(old(self)@.tree) >= 0,
        ensures
            final(self).ready(),
            final(self)@ == old(self)@.lines(false, false),
            res is Ok,
    {
        // Ensure we have newlines between entries
        let mut not_newline = false;

        // We want to make sure that an entry spans the
        // entire line, so we start/close its node manually.
        let mut entry_started = false;

        let ghost base = self@.tree;
        let ghost mut depth: int = 0;
        proof {
            lemma_nested_refl(base);
        }
        loop
            invariant_except_break
                self.sound(),
                self@.whitelist == 0,
                open_nodes(base) >= 0,
                depth == (if entry_started {
                    1int
                } else {
                    0int
                }),
                nested(base, self@.tree, depth),
                self@.lines(not_newline, entry_started) == old(self)@.lines(false, false),
            ensures
                self.sound(),
                open_nodes(base) >= 0,
                nested(
                    base,
                    self@.tree,
                    if entry_started {
                        1
                    } else {
                        0
                    },
                ),
                self@.close_entry(entry_started) == old(self)@.lines(false, false),
            decreases
                    self@.left(),
                    if not_newline {
                        0int
                    } else {
                        1int
                    },
        {
            let ghost before = self@;
            proof {
                lemma_keeps_peek(before);
                lemma_peek(before);
                lemma_nested_trans(base, before.tree, before.peek().tree, depth);
                lemma_whitelist_bits();
            }
            let token = match self.get_token() {
                Ok(token) => token,
                Err(_) => {
                    break;
                },
            };
            match token {
                SyntaxKind::BRACKET_START => {
                    if entry_started {
                        self.finish_entry(Ghost(base));
                        entry_started = false;
                        proof {
                            depth = 0;
                        }
                    }
                    let ghost closed = self@;
                    proof {
                        lemma_keeps_error(closed, "expected new line"@);
                        lemma_error(closed, "expected new line"@);
                        lemma_keeps_header_line(closed);
                        lemma_nested_trans(
                            base,
                            closed.tree,
                            closed.error("expected new line"@).tree,
                            0,
                        );
                        lemma_nested_trans(base, closed.tree, closed.header_line().tree, 0);
                    }
                    if not_newline {
                        let _ = self.error("expected new line");
                        continue;
                    }
                    not_newline = true;
                    self.parse_header_line();
                },
                SyntaxKind::NEWLINE => {
                    not_newline = false;
                    if entry_started {
                        self.finish_entry(Ghost(base));
                        entry_started = false;
                        proof {
                            depth = 0;
                        }
                    }
                    let ghost closed = self@;
                    proof {
                        lemma_keeps_token(closed);
                        lemma_token(closed);
                        lemma_nested_trans(base, closed.tree, closed.token().0.tree, 0);
                    }
                    let _ = self.token();
                },
                _ => {
                    let ghost peeked = self@;
                    if not_newline {
                        proof {
                            lemma_keeps_error(peeked, "expected new line"@);
                            lemma_error(peeked, "expected new line"@);
                            lemma_nested_trans(
                                base,
                                peeked.tree,
                                peeked.error("expected new line"@).tree,
                                depth,
                            );
                        }
                        let _ = self.error("expected new line");
                        continue;
                    }
                    if entry_started {
                        self.finish_entry(Ghost(base));
                    }
                    let ghost closed = self@;
                    not_newline = true;
                    proof {
                        lemma_keeps_entry_line(closed);
                        let event = TreeEvent::Open { kind: SyntaxKind::ENTRY.number() };
                        lemma_nested_push(base, closed.tree, 0, event);
                        lemma_nested_trans(
                            base,
                            closed.tree.push(event),
                            closed.entry_line().tree,
                            1,
                        );
                        depth = 1;
                        lemma_whitelist_bits();
                    }
                    start_node(&mut self.builder, SyntaxKind::ENTRY.code());
                    entry_started = true;
                    let ghost opened = self@;
                    self.whitelist_token(SyntaxKind::NEWLINE);
                    let ghost allowed = self@;
                    assert(whole_text(allowed) == whole_text(opened));
                    let _ = self.parse_entry();
                    self.blacklist_token(SyntaxKind::NEWLINE);
                },
            }
        }
        if entry_started {
            self.finish_entry(Ghost(base));
        }
        Ok(())
    }

    /// Leaves the node of an entry.
    fn finish_entry(&mut self, Ghost(base): Ghost<Seq<TreeEvent>>)
        requires
            old(self).sound(),
            open_nodes(base) >= 0,
            nested(base, old(self)@.tree, 1),
        ensures
            final(self).sound(),
            final(self)@ == old(self)@.close(),
            whole_text(final(self)@) == whole_text(old(self)@),
            nested(base, final(self)@.tree, 0),
    {
        proof {
            lemma_walk_push(self@.tree, TreeEvent::Close);
            lemma_nested_push(base, self@.tree, 1, TreeEvent::Close);
        }
        finish_node(&mut self.builder);
        assert(whole_text(self@) =~= whole_text(old(self)@));
    }

    /// Leaves the node that was entered when the parser was at `before`.
    fn finish_node_since(&mut self, Ghost(before): Ghost<State>, Ghost(kind): Ghost<SyntaxKind>)
        requires
            old(self).ready(),
            valid(before),
            whole_text(before).len() <= u32::MAX,
            open_nodes(before.tree) >= 0,
            keeps(before.open(kind), old(self)@),
        ensures
            final(self).sound(),
            final(self)@ == old(self)@.close(),
            keeps(before, final(self)@),
    {
        proof {
            lemma_keeps_node(before, kind, self@);
            lemma_walk_push(before.tree, TreeEvent::Open { kind: kind.number() });
        }
        finish_node(&mut self.builder);
    }

    fn parse_header_line(&mut self)
        requires
            old(self).sound(),
            old(self)@.whitelist == 0,
            open_nodes(old(self)@.tree) >= 0,
        ensures
            final(self).sound(),
            final(self)@ == old(self)@.header_line(),
    {
        proof {
            lemma_whitelist_bits();
            lemma_keeps_header_line(self@);
        }
        let rest = self.lexer.remainder().as_bytes();
        let bracket = rest.len() > 0 && rest[0] == 0x5b;
        assert(bracket == self@.bracket_follows());
        self.whitelist_token(SyntaxKind::NEWLINE);
        let ghost allowed = self@;
        assert(whole_text(allowed) == whole_text(old(self)@));
        if bracket {
            proof {
                self.lemma_open(SyntaxKind::TABLE_ARRAY_HEADER);
            }
            start_node(&mut self.builder, SyntaxKind::TABLE_ARRAY_HEADER.code());
            let ghost opened = self@;
            proof {
                lemma_keeps_table_array_header(opened);
            }
            let _ = self.parse_table_array_header();
            self.finish_node_since(Ghost(allowed), Ghost(SyntaxKind::TABLE_ARRAY_HEADER));
        } else {
            proof {
                self.lemma_open(SyntaxKind::TABLE_HEADER);
            }
            start_node(&mut self.builder, SyntaxKind::TABLE_HEADER.code());
            let ghost opened = self@;
            proof {
                lemma_keeps_table_header(opened);
            }
            let _ = self.parse_table_header();
            self.finish_node_since(Ghost(allowed), Ghost(SyntaxKind::TABLE_HEADER));
        }
        self.blacklist_token(SyntaxKind::NEWLINE);
    }

    /// A parser that can build nodes can do so inside of a new node.
    proof fn lemma_open(self, kind: SyntaxKind)
        requires
            self.sound(),
        ensures
            valid(self@.open(kind)),
            whole_text(self@.open(kind)) == whole_text(self@),
            open_nodes(self@.open(kind).tree) == open_nodes(self@.tree) + 1,
    {
        lemma_walk_push(self@.tree, TreeEvent::Open { kind: kind.number() });
        assert(whole_text(self@.open(kind)) =~= whole_text(self@));
    }

    /// Parses a key in a node of its own.
    fn parse_key_node(&mut self) -> (res: ParserResult<()>)
        requires
            old(self).sound(),
            open_nodes(old(self)@.tree) >= 0,
        ensures
            final(self).sound(),
            final(self)@ == old(self)@.open(SyntaxKind::KEY).key().0.close(),
            keeps(old(self)@, final(self)@),
            res is Ok == old(self)@.open(SyntaxKind::KEY).key().1,
    {
        let ghost before = self@;
        proof {
            self.lemma_open(SyntaxKind::KEY);
            lemma_keeps_key(before.open(SyntaxKind::KEY));
        }
        start_node(&mut self.builder, SyntaxKind::KEY.code());
        let res = self.parse_key();
        self.finish_node_since(Ghost(before), Ghost(SyntaxKind::KEY));
        res
    }

    fn parse_table_header(&mut self) -> (res: ParserResult<()>)
        requires
            old(self).sound(),
            open_nodes(old(self)@.tree) >= 0,
        ensures
            final(self).ready(),
            final(self)@ == old(self)@.table_header().0,
            res is Ok == old(self)@.table_header().1,
    {
        proof {
            lemma_keeps_expect(self@, SyntaxKind::BRACKET_START, "expected \"[\""@);
        }
        self.must_token_or(SyntaxKind::BRACKET_START, "expected \"[\"")?;
        let _ = self.parse_key_node();
        self.must_token_or(SyntaxKind::BRACKET_END, "expected \"]\"")?;
        Ok(())
    }

    fn parse_table_array_header(&mut self) -> (res: ParserResult<()>)
        requires
            old(self).sound(),
            open_nodes(old(self)@.tree) >= 0,
        ensures
            final(self).ready(),
            final(self)@ == old(self)@.table_array_header().0,
            res is Ok == old(self)@.table_array_header().1,
    {
        proof {
            lemma_keeps_expect(self@, SyntaxKind::BRACKET_START, "expected \"[[\""@);
        }
        self.must_token_or(SyntaxKind::BRACKET_START, "expected \"[[\"")?;
        proof {
            lemma_keeps_expect(self@, SyntaxKind::BRACKET_START, "expected \"[[\""@);
        }
        self.must_token_or(SyntaxKind::BRACKET_START, "expected \"[[\"")?;
        let _ = self.parse_key_node();
        let _ = self.must_token_or(SyntaxKind::BRACKET_END, "expected \"]]\"");
        let _ = self.must_token_or(SyntaxKind::BRACKET_END, "expected \"]]\"");
        Ok(())
    }

    #[verifier::rlimit(50)]
    fn parse_entry(&mut self) -> (res: ParserResult<()>)
        requires
            old(self).sound(),
            open_nodes(old(self)@.tree) >= 0,
        ensures
            final(self).ready(),
            final(self)@ == old(self)@.entry().0,
            res is Ok == old(self)@.entry().1,
        decreases old(self)@.left(), 6int,
    {
        self.parse_key_node()?;
        let ghost keyed = self@;
        proof {
            lemma_keeps_expect(keyed, SyntaxKind::EQ, "expected \"=\""@);
        }
        self.must_token_or(SyntaxKind::EQ, "expected \"=\"")?;
        let ghost before = self@;
        proof {
            self.lemma_open(SyntaxKind::VALUE);
            lemma_keeps_value(before.open(SyntaxKind::VALUE));
        }
        start_node(&mut self.builder, SyntaxKind::VALUE.code());
        let res = self.parse_value();
        self.finish_node_since(Ghost(before), Ghost(SyntaxKind::VALUE));
        res
    }

    fn parse_key(&mut self) -> (res: ParserResult<()>)
        requires
            old(self).ready(),
        ensures
            final(self).ready(),
            final(self)@ == old(self)@.key().0,
            res is Ok == old(self)@.key().1,
    {
        if self.parse_ident().is_err() {
            return self.error("expected identifier");
        }
        let mut after_period = false;
        loop
            invariant_except_break
                self.ready(),
                self@.key_rest(after_period) == old(self)@.key(),
            ensures
                self.ready(),
                old(self)@.key() == (self@, true),
            decreases self@.left(),
        {
            proof {
                lemma_peek(self@);
                lemma_token(self@.peek());
                lemma_ident(self@.peek());
            }
            let t = match self.get_token() {
                Ok(token) => token,
                Err(_) => {
                    if !after_period {
                        return Ok(());
                    }
                    return self.error("unexpected end of input");
                },
            };
            match t {
                SyntaxKind::PERIOD => {
                    if after_period {
                        return self.error("unexpected \".\"");
                    } else {
                        self.token()?;
                        after_period = true;
                    }
                },
                _ => {
                    if after_period {
                        match self.parse_ident() {
                            Ok(_) => {},
                            Err(_) => return self.error("expected identifier"),
                        }
                        after_period = false;
                    } else {
                        break;
                    }
                },
            }
        }
        Ok(())
    }

    fn parse_ident(&mut self) -> (res: ParserResult<()>)
        requires
            old(self).ready(),
        ensures
            final(self).ready(),
            final(self)@ == old(self)@.ident().0,
            res is Ok == old(self)@.ident().1,
    {
        let t = self.get_token()?;
        match t {
            SyntaxKind::IDENT => self.token(),
            SyntaxKind::INTEGER => {
                if starts_with_plus(self.lexer.slice()) {
                    Err(())
                } else {
                    self.token_as(SyntaxKind::IDENT)
                }
            },
            SyntaxKind::STRING_LITERAL => {
                self.check_string_literal();
                self.token_as(SyntaxKind::IDENT)
            },
            SyntaxKind::STRING => {
                self.check_string();
                // We proceed normally even if
                // the string contains invalid escapes.
                // It shouldn't affect the rest of the parsing.
                self.token_as(SyntaxKind::IDENT)
            },
            SyntaxKind::FLOAT => {
                let text = self.lexer.slice();
                if starts_with_plus(text) {
                    Err(())
                } else {
                    self.insert_dotted(text);
                    self.step();
                    Ok(())
                }
            },
            _ => self.error("expected identifier"),
        }
    }

    /// Inserts the parts of a text between its periods.
    fn insert_dotted(&mut self, text: &str)
        ensures
            final(self).lexer == old(self).lexer,
            final(self)@ == (State {
                tree: old(self)@.tree + dotted(text.spec_bytes()),
                ..old(self)@
            }),
    {
        let bytes = text.as_bytes();
        let ghost all = bytes@;
        let mut from: usize = 0;
        let mut i: usize = 0;
        proof {
            lemma_str_is_utf8(text);
            is_char_boundary_start_end_of_seq(all);
            assert(all.take(0).subrange(0, 0) =~= all.subrange(0, 0));
            assert(old(self)@.tree + dotted(all.take(0)) =~= old(self)@.tree.push(
                TreeEvent::Token {
                    kind: SyntaxKind::IDENT.number(),
                    text: all.subrange(0, 0),
                },
            ));
        }
        while i < bytes.len()
            invariant
                bytes@ == all,
                text.spec_bytes() == all,
                valid_utf8(all),
                from <= i <= all.len(),
                from == last_period(all.take(i as int)) + 1,
                is_char_boundary(all, from as int),
                is_char_boundary(all, all.len() as int),
                self.lexer == old(self).lexer,
                self@ == (State { tree: self@.tree, ..old(self)@ }),
                self@.tree.push(
                    TreeEvent::Token {
                        kind: SyntaxKind::IDENT.number(),
                        text: all.subrange(from as int, i as int),
                    },
                ) == old(self)@.tree + dotted(all.take(i as int)),
            decreases bytes.len() - i,
        {
            let ghost head = all.take(i as int);
            let ghost next = all.take(i + 1);
            proof {
                assert(next.drop_last() =~= head);
                assert(head.subrange(from as int, i as int) =~= all.subrange(
                    from as int,
                    i as int,
                ));
            }
            if bytes[i] == 0x2e {
                proof {
                    lemma_boundary_after_ascii(all, i as int);
                }
                self.insert_token(SyntaxKind::IDENT, slice(text, from, i));
                self.insert_token(SyntaxKind::PERIOD, ".");
                proof {
                    lemma_period_text();
                    assert(next.take(i as int) =~= head);
                    assert(next.subrange(i + 1, i + 1) =~= all.subrange(i + 1, i + 1));
                    assert(self@.tree.push(
                        TreeEvent::Token {
                            kind: SyntaxKind::IDENT.number(),
                            text: all.subrange(i + 1, i + 1),
                        },
                    ) =~= old(self)@.tree + dotted(next));
                }
                from = i + 1;
            } else {
                proof {
                    let at = from as int - 1;
                    assert(last_period(next) == at);
                    assert(next.subrange(from as int, i + 1) =~= all.subrange(
                        from as int,
                        i + 1,
                    ));
                    if at >= 0 {
                        assert(next.take(at) =~= head.take(at));
                    }
                    assert(dotted(next).drop_last() =~= dotted(head).drop_last());
                    let done = old(self)@.tree + dotted(head);
                    assert(done.drop_last() =~= old(self)@.tree + dotted(head).drop_last());
                    assert(done.drop_last() =~= self@.tree);
                    assert(self@.tree.push(
                        TreeEvent::Token {
                            kind: SyntaxKind::IDENT.number(),
                            text: all.subrange(from as int, i + 1),
                        },
                    ) =~= old(self)@.tree + dotted(next));
                }
            }
            i = i + 1;
        }
        assert(all.take(i as int) =~= all);
        self.insert_token(SyntaxKind::IDENT, slice(text, from, i));
    }

    /// Checks the text of a literal string on one line.
    fn check_string_literal(&mut self)
        requires
            old(self).ready(),
        ensures
            final(self).ready(),
            final(self)@ == old(self)@.report_at(
                forbidden_offsets(old(self)@.text, false),
                "invalid control character in string literal"@,
            ),
    {
        let text = self.lexer.slice();
        proof {
            lemma_forbidden_offsets_in_text(text.spec_bytes(), false);
        }
        self.check_text(
            allowed_chars::string_literal(text),
            Ghost(forbidden_offsets(text.spec_bytes(), false)),
            "invalid control character in string literal",
        );
    }

    /// Checks the text of a string on one line.
    fn check_string(&mut self)
        requires
            old(self).ready(),
        ensures
            final(self).ready(),
            final(self)@ == old(self)@.report_at(
                forbidden_offsets(old(self)@.text, false),
                "invalid character in string"@,
            ).report_at(escape_errors(old(self)@.text, 0), "invalid escape sequence"@),
    {
        let text = self.lexer.slice();
        proof {
            lemma_forbidden_offsets_in_text(text.spec_bytes(), false);
            lemma_escape_errors_in_text(text.spec_bytes(), 0);
        }
        self.check_text(
            allowed_chars::string(text),
            Ghost(forbidden_offsets(text.spec_bytes(), false)),
            "invalid character in string",
        );
        self.check_text(
            check_escape(text),
            Ghost(escape_errors(text.spec_bytes(), 0)),
            "invalid escape sequence",
        );
    }

    /// Checks the text of a string over several lines.
    fn check_multi_line_string(&mut self)
        requires
            old(self).ready(),
        ensures
            final(self).ready(),
            final(self)@ == old(self)@.report_at(
                forbidden_offsets(old(self)@.text, true),
                "invalid character in string"@,
            ).report_at(escape_errors(old(self)@.text, 0), "invalid escape sequence"@),
    {
        let text = self.lexer.slice();
        proof {
            lemma_forbidden_offsets_in_text(text.spec_bytes(), true);
            lemma_escape_errors_in_text(text.spec_bytes(), 0);
        }
        self.check_text(
            allowed_chars::multi_line_string(text),
            Ghost(forbidden_offsets(text.spec_bytes(), true)),
            "invalid character in string",
        );
        self.check_text(
            check_escape(text),
            Ghost(escape_errors(text.spec_bytes(), 0)),
            "invalid escape sequence",
        );
    }

    /// Checks the text of a literal string over several lines.
    fn check_multi_line_string_literal(&mut self)
        requires
            old(self).ready(),
        ensures
            final(self).ready(),
            final(self)@ == old(self)@.report_at(
                forbidden_offsets(old(self)@.text, true),
                "invalid character in string"@,
            ),
    {
        let text = self.lexer.slice();
        proof {
            lemma_forbidden_offsets_in_text(text.spec_bytes(), true);
        }
        self.check_text(
            allowed_chars::multi_line_string_literal(text),
            Ghost(forbidden_offsets(text.spec_bytes(), true)),
            "invalid character in string",
        );
    }

    /// A number whose underscores have to stand between digits.
    fn parse_number(&mut self, radix: u32) -> (res: ParserResult<()>)
        requires
            old(self).ready(),
            2 <= radix <= 36,
        ensures
            final(self).ready(),
            final(self)@ == old(self)@.number(radix).0,
            res is Ok == old(self)@.number(radix).1,
    {
        let text = self.lexer.slice();
        proof {
            encode_utf8_decode_utf8(text@);
        }
        if !check_underscores(text, radix) {
            self.error("invalid underscores")
        } else {
            self.token()
        }
    }

    #[verifier::rlimit(50)]
    fn parse_value(&mut self) -> (res: ParserResult<()>)
        requires
            old(self).sound(),
            open_nodes(old(self)@.tree) >= 0,
        ensures
            final(self).ready(),
            final(self)@ == old(self)@.value().0,
            res is Ok == old(self)@.value().1,
        decreases old(self)@.left(), 5int,
    {
        proof {
            lemma_keeps_peek(self@);
            lemma_peek(self@);
        }
        let t = match self.get_token() {
            Ok(t) => t,
            Err(_) => return self.error("expected value"),
        };
        match t {
            SyntaxKind::BOOL | SyntaxKind::DATE => self.token(),
            SyntaxKind::INTEGER_BIN => self.parse_number(2),
            SyntaxKind::INTEGER_HEX => self.parse_number(16),
            SyntaxKind::INTEGER_OCT => self.parse_number(8),
            SyntaxKind::FLOAT => self.parse_number(10),
            SyntaxKind::STRING_LITERAL => {
                self.check_string_literal();
                self.token()
            },
            SyntaxKind::MULTI_LINE_STRING_LITERAL => {
                self.check_multi_line_string_literal();
                self.token()
            },
            SyntaxKind::STRING => {
                self.check_string();
                // We proceed normally even if
                // the string contains invalid escapes.
                // It shouldn't affect the rest of the parsing.
                self.token()
            },
            SyntaxKind::MULTI_LINE_STRING => {
                self.check_multi_line_string();
                // We proceed normally even if
                // the string contains invalid escapes.
                // It shouldn't affect the rest of the parsing.
                self.token()
            },
            SyntaxKind::INTEGER => {
                if is_zero_padded(self.lexer.slice()) {
                    self.error("zero-padded integers are not allowed")
                } else {
                    self.parse_number(10)
                }
            },
            SyntaxKind::BRACKET_START => {
                let ghost before = self@;
                proof {
                    self.lemma_open(SyntaxKind::ARRAY);
                    lemma_keeps_array(before.open(SyntaxKind::ARRAY));
                }
                start_node(&mut self.builder, SyntaxKind::ARRAY.code());
                let res = self.parse_array();
                self.finish_node_since(Ghost(before), Ghost(SyntaxKind::ARRAY));
                res
            },
            SyntaxKind::BRACE_START => {
                let ghost before = self@;
                proof {
                    self.lemma_open(SyntaxKind::INLINE_TABLE);
                    lemma_keeps_inline_table(before.open(SyntaxKind::INLINE_TABLE));
                }
                start_node(&mut self.builder, SyntaxKind::INLINE_TABLE.code());
                let res = self.parse_inline_table();
                self.finish_node_since(Ghost(before), Ghost(SyntaxKind::INLINE_TABLE));
                res
            },
            _ => self.error("expected value"),
        }
    }

    fn parse_inline_table(&mut self) -> (res: ParserResult<()>)
        requires
            old(self).sound(),
            open_nodes(old(self)@.tree) >= 0,
        ensures
            final(self).ready(),
            final(self)@ == old(self)@.inline_table().0,
            res is Ok == old(self)@.inline_table().1,
        decreases old(self)@.left(), 4int,
    {
        proof {
            lemma_keeps_expect(self@, SyntaxKind::BRACE_START, "expected \"{\""@);
            lemma_expect(self@, SyntaxKind::BRACE_START, "expected \"{\""@);
        }
        self.must_token_or(SyntaxKind::BRACE_START, "expected \"{\"")?;

        let mut first = true;
        let mut comma_last = false;
        let mut was_newline = false;
        loop
            invariant_except_break
                self.sound(),
                open_nodes(self@.tree) >= 0,
                self@.left() < old(self)@.left(),
                table_moves(self@, first || comma_last, was_newline),
                self@.table_rest(first, comma_last, was_newline) == old(self)@.inline_table(),
            ensures
                self.ready(),
                old(self)@.inline_table() == (self@, true),
            decreases
                    self@.left(),
                    (if first {
                        4int
                    } else {
                        0int
                    }) + (if comma_last {
                        2int
                    } else {
                        0int
                    }) + (if was_newline {
                        0int
                    } else {
                        1int
                    }),
        {
            proof {
                lemma_keeps_peek(self@);
                lemma_peek(self@);
                lemma_whitelist_bits();
            }
            let t = self.get_token()?;
            let ghost peeked = self@;
            match t {
                SyntaxKind::BRACE_END => {
                    if comma_last {
                        // it is still reported as a syntax error,
                        // but we can still analyze it as if it was a valid
                        // table.
                        let _ = self.report_error("expected value, trailing comma is not allowed");
                    }
                    self.token()?;
                    break;
                },
                SyntaxKind::NEWLINE => {
                    // To avoid infinite loop in case
                    // new lines are whitelisted.
                    if was_newline {
                        break;
                    }
                    proof {
                        let message = "newline is not allowed in an inline table"@;
                        lemma_keeps_error(peeked, message);
                        lemma_error(peeked, message);
                    }
                    let _ = self.error("newline is not allowed in an inline table");
                    was_newline = true;
                },
                SyntaxKind::COMMA => {
                    if first {
                        proof {
                            lemma_keeps_error(peeked, "unexpected \",\""@);
                            lemma_error(peeked, "unexpected \",\""@);
                        }
                        let _ = self.error("unexpected \",\"");
                    } else {
                        proof {
                            lemma_keeps_token(peeked);
                            lemma_token(peeked);
                        }
                        self.token()?;
                    }
                    comma_last = true;
                    was_newline = false;
                },
                _ => {
                    was_newline = false;
                    proof {
                        lemma_keeps_table_element(peeked, first || comma_last);
                    }
                    self.parse_table_element(first || comma_last);
                    comma_last = false;
                },
            }
            first = false;
        }
        Ok(())
    }

    /// An entry of an inline table, which has to stand behind a comma unless
    /// it is the first one.
    fn parse_table_element(&mut self, in_place: bool)
        requires
            old(self).sound(),
            old(self)@.current is Some,
            open_nodes(old(self)@.tree) >= 0,
            moves(old(self)@, in_place),
        ensures
            final(self).ready(),
            final(self)@ == old(self)@.table_element(in_place),
        decreases old(self)@.left(), 9int,
    {
        proof {
            lemma_keeps_error(self@, "expected \",\""@);
            lemma_error(self@, "expected \",\""@);
        }
        if !in_place {
            let _ = self.error("expected \",\"");
        }
        let ghost s = self@;
        proof {
            lemma_whitelist_bits();
        }
        self.whitelist_token(SyntaxKind::COMMA);
        let ghost allowed = self@;
        assert(whole_text(allowed) == whole_text(s));
        proof {
            self.lemma_open(SyntaxKind::ENTRY);
            lemma_keeps_entry(allowed.open(SyntaxKind::ENTRY));
        }
        start_node(&mut self.builder, SyntaxKind::ENTRY.code());
        let _ = self.parse_entry();
        self.finish_node_since(Ghost(allowed), Ghost(SyntaxKind::ENTRY));
        self.blacklist_token(SyntaxKind::COMMA);
    }

    fn parse_array(&mut self) -> (res: ParserResult<()>)
        requires
            old(self).sound(),
            open_nodes(old(self)@.tree) >= 0,
        ensures
            final(self).ready(),
            final(self)@ == old(self)@.array().0,
            res is Ok == old(self)@.array().1,
        decreases old(self)@.left(), 4int,
    {
        proof {
            lemma_keeps_expect(self@, SyntaxKind::BRACKET_START, "expected \"[\""@);
            lemma_expect(self@, SyntaxKind::BRACKET_START, "expected \"[\""@);
        }
        self.must_token_or(SyntaxKind::BRACKET_START, "expected \"[\"")?;

        let mut first = true;
        let mut comma_last = false;
        loop
            invariant_except_break
                self.sound(),
                open_nodes(self@.tree) >= 0,
                self@.left() < old(self)@.left(),
                moves(self@, first || comma_last),
                self@.array_rest(first, comma_last) == old(self)@.array(),
            ensures
                self.ready(),
                old(self)@.array() == (self@, true),
            decreases
                    self@.left(),
                    if first || comma_last {
                        1int
                    } else {
                        0int
                    },
        {
            proof {
                lemma_keeps_peek(self@);
                lemma_peek(self@);
                lemma_whitelist_bits();
            }
            let t = self.get_token()?;
            let ghost peeked = self@;
            match t {
                SyntaxKind::BRACKET_END => {
                    self.token()?;
                    break;
                },
                SyntaxKind::NEWLINE => {
                    proof {
                        lemma_keeps_token(peeked);
                        lemma_token(peeked);
                    }
                    self.token()?;
                    continue;  // as if it wasn't there, so it doesn't count as a first token
                },
                SyntaxKind::COMMA => {
                    proof {
                        lemma_keeps_refl(peeked);
                        lemma_keeps_error(peeked, "unexpected \",\""@);
                        lemma_error(peeked, "unexpected \",\""@);
                    }
                    if first || comma_last {
                        let _ = self.error("unexpected \",\"");
                    }
                    proof {
                        lemma_keeps_token(self@);
                        lemma_token(self@);
                    }
                    self.token()?;
                    comma_last = true;
                },
                _ => {
                    proof {
                        lemma_keeps_array_element(peeked, first || comma_last);
                    }
                    self.parse_array_element(first || comma_last);
                    comma_last = false;
                },
            }
            first = false;
        }
        Ok(())
    }

    /// An element of an array, which has to stand behind a comma unless it
    /// is the first one.
    fn parse_array_element(&mut self, in_place: bool)
        requires
            old(self).sound(),
            old(self)@.current is Some,
            open_nodes(old(self)@.tree) >= 0,
            moves(old(self)@, in_place),
        ensures
            final(self).ready(),
            final(self)@ == old(self)@.array_element(in_place),
        decreases old(self)@.left(), 9int,
    {
        proof {
            lemma_keeps_error(self@, "expected \",\""@);
            lemma_error(self@, "expected \",\""@);
        }
        if !in_place {
            let _ = self.error("expected \",\"");
        }
        let ghost s = self@;
        proof {
            lemma_whitelist_bits();
        }
        self.whitelist_token(SyntaxKind::COMMA);
        let ghost allowed = self@;
        assert(whole_text(allowed) == whole_text(s));
        proof {
            self.lemma_open(SyntaxKind::VALUE);
            lemma_keeps_value(allowed.open(SyntaxKind::VALUE));
        }
        start_node(&mut self.builder, SyntaxKind::VALUE.code());
        let _ = self.parse_value();
        self.finish_node_since(Ghost(allowed), Ghost(SyntaxKind::VALUE));
        self.blacklist_token(SyntaxKind::COMMA);
    }

    fn parse(self) -> (result: Parse)
        requires
            self.ready(),
            self@ == State::initial(self@.toks),
            tiled(self@.toks),
            texts_from(self@.toks, 0).len() <= u32::MAX,
        ensures
            green_events(result.green_node) == document(self@.toks).tree,
            error_views(result.errors@) == document(self@.toks).errors,
    {
        let ghost toks = self@.toks;
        let mut parser = self;
        start_node(&mut parser.builder, SyntaxKind::ROOT.code());
        let ghost opened = parser@;
        proof {
            let root = TreeEvent::Open { kind: SyntaxKind::ROOT.number() };
            lemma_walk_push(Seq::empty(), root);
            assert(opened.tree =~= seq![root]);
            assert(tree_text(Seq::<TreeEvent>::empty()) =~= Seq::empty());
            assert(whole_text(opened) =~= texts_from(toks, 0));
            lemma_nested_refl(opened.tree);
            lemma_keeps_lines(opened.tree, opened, false, false);
        }
        let _ = parser.parse_root();
        finish_node(&mut parser.builder);
        assert(parser@ == document(toks));
        proof {
            tree_has_one_root(toks);
        }
        Parse { green_node: finish(parser.builder), errors: parser.errors }
    }
}

/// The text of a period.
proof fn lemma_period_text()
    ensures
        ".".spec_bytes() == seq![0x2eu8],
{
    reveal_strlit(".");
    is_ascii_chars_encode_utf8("."@);
    assert(".".spec_bytes() =~= seq![0x2eu8]);
}

fn starts_with_plus(text: &str) -> (yes: bool)
    ensures
        yes == (text.spec_bytes().len() > 0 && text.spec_bytes()[0] == 0x2b),
{
    let bytes = text.as_bytes();
    bytes.len() > 0 && bytes[0] == 0x2b
}

fn is_zero_padded(text: &str) -> (yes: bool)
    ensures
        yes == zero_padded(text.spec_bytes()),
{
    let bytes = text.as_bytes();
    (bytes.len() > 1 && bytes[0] == 0x30) || (bytes.len() > 2 && (bytes[0] == 0x2b || bytes[0]
        == 0x2d) && bytes[1] == 0x30)
}

/// The final results of a parsing.
/// It contains the green tree, and
/// the errors that occurred during parsing.
#[derive(Debug)]
pub struct Parse {
    pub green_node: GreenNode,
    pub errors: Vec<Error>,
}

impl Clone for Parse {
    fn clone(&self) -> (copy: Self)
        ensures
            green_events(copy.green_node) == green_events(self.green_node),
            copy.errors@ == self.errors@,
    {
        let errors = self.errors.clone();
        assert(errors@ =~= self.errors@);
        Parse { green_node: clone_green(&self.green_node), errors }
    }
}

impl Parse {
    /// Turn the parse into a syntax node, which is a root.
    pub fn into_syntax(self) -> (node: cursor::SyntaxNode)
        ensures
            syntax_events(node) == green_events(self.green_node),
            !has_parent(node),
    {
        new_root(self.green_node)
    }
}

/// Parses a text.
///
/// Values are parsed by recursion, so the stack bounds how deeply they can be
/// nested.
pub fn parse(source: &str) -> (result: Parse)
    requires
        source.spec_bytes().len() <= u32::MAX,
    ensures
        green_events(result.green_node) == document(toks_in(source.spec_bytes())).tree,
        error_views(result.errors@) == document(toks_in(source.spec_bytes())).errors,
        tree_text(green_events(result.green_node)) == source.spec_bytes(),
        result.errors@.len() == 0 <==> is_document(toks_in(source.spec_bytes())),
        result.errors@.len() == 0 ==> document_walk(
            toks_in(source.spec_bytes()),
            green_events(result.green_node),
        ),
        errors_fit(error_views(result.errors@), source.spec_bytes().len() as int),
        errors_differ(error_views(result.errors@)),
        errors_known(error_views(result.errors@)),
        forall|i: int|
            0 <= i < result.errors@.len() ==> #[trigger] result.errors@[i].message@.len() > 0,
        tiled(toks_in(source.spec_bytes())),
        none_empty(toks_in(source.spec_bytes())),
        all_fit(green_events(result.green_node)),
        in_order(green_events(result.green_node)),
        leaves_suit(green_events(result.green_node)),
        all_told(green_events(result.green_node), error_views(result.errors@)),
        all_true(toks_in(source.spec_bytes()), error_views(result.errors@)),
        all_reported(green_events(result.green_node), error_views(result.errors@)),
        breaks_left(toks_in(source.spec_bytes()), green_events(result.green_node)),
{
    let lexemes = lex(source);
    proof {
        tokens_suit_their_kinds(lexemes@, source.spec_bytes());
    }
    parse_lexemes(source, lexemes)
}

/// Parses a text whose tokens are given.
pub fn parse_lexemes(source: &str, lexemes: Vec<Lexeme>) -> (result: Parse)
    requires
        source.spec_bytes().len() <= u32::MAX,
        covers(lexemes@, source.spec_bytes()),
    ensures
        green_events(result.green_node) == document(
            toks_of(lexemes@, source.spec_bytes()),
        ).tree,
        error_views(result.errors@) == document(toks_of(lexemes@, source.spec_bytes())).errors,
        tree_text(green_events(result.green_node)) == source.spec_bytes(),
        result.errors@.len() == 0 <==> is_document(toks_of(lexemes@, source.spec_bytes())),
        result.errors@.len() == 0 ==> document_walk(
            toks_of(lexemes@, source.spec_bytes()),
            green_events(result.green_node),
        ),
        errors_fit(error_views(result.errors@), source.spec_bytes().len() as int),
        errors_differ(error_views(result.errors@)),
        errors_known(error_views(result.errors@)),
        forall|i: int|
            0 <= i < result.errors@.len() ==> #[trigger] result.errors@[i].message@.len() > 0,
        tiled(toks_of(lexemes@, source.spec_bytes())),
        none_empty(toks_of(lexemes@, source.spec_bytes())),
        all_fit(green_events(result.green_node)),
        in_order(green_events(result.green_node)),
        all_suit(toks_of(lexemes@, source.spec_bytes())) ==> leaves_suit(
            green_events(result.green_node),
        ) && all_told(green_events(result.green_node), error_views(result.errors@)),
        all_true(toks_of(lexemes@, source.spec_bytes()), error_views(result.errors@)),
        all_reported(green_events(result.green_node), error_views(result.errors@)),
        breaks_left(
            toks_of(lexemes@, source.spec_bytes()),
            green_events(result.green_node),
        ),
{
    proof {
        let bytes = source.spec_bytes();
        lemma_toks_tiled(lexemes@, bytes);
        trees_fit_the_schema(toks_of(lexemes@, bytes));
        trees_are_in_order(toks_of(lexemes@, bytes));
        errors_are_true(toks_of(lexemes@, bytes));
        error_tokens_are_reported(toks_of(lexemes@, bytes));
        line_breaks_are_no_errors(toks_of(lexemes@, bytes));
        if all_suit(toks_of(lexemes@, bytes)) {
            leaves_suit_their_kinds(toks_of(lexemes@, bytes));
            wrong_texts_are_reported(toks_of(lexemes@, bytes));
        }
        lemma_toks_text(lexemes@, bytes, 0);
        assert(bytes.subrange(0, bytes.len() as int) =~= bytes);
        tree_is_lossless(toks_of(lexemes@, bytes));
        documents_are_accepted(toks_of(lexemes@, bytes));
        if is_document(toks_of(lexemes@, bytes)) {
            trees_are_derivations(toks_of(lexemes@, bytes));
        }
        errors_are_in_text(toks_of(lexemes@, bytes));
        errors_have_messages(toks_of(lexemes@, bytes));
    }
    let result = Parser::new(source, lexemes).parse();
    proof {
        let views = error_views(result.errors@);
        assert forall|i: int| 0 <= i < result.errors@.len() implies #[trigger]
            result.errors@[i].message@.len() > 0 by {
            assert(known_message(views[i].message));
            messages_are_not_empty(views[i].message);
        }
    }
    result
}

} // verus!
