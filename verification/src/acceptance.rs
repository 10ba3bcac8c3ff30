//! Exactly the documents of the grammar parse without errors, and every token
//! of a text finds its place in the tree.

use vstd::prelude::*;

use crate::error::ErrorView;
use crate::grammar::{
    all_clean, clean, elements, entries, entry, ident, is_document, is_trivia, key, line, lines,
    scalar, splits, value, word, word_is, words, Word,
};
use crate::leaves::{
    can_be, leaves, lemma_leaves_dotted, lemma_leaves_push, lemma_spells_add, lemma_spells_push,
    spells,
};
use crate::model::{
    document, dotted, last_period, lemma_error, lemma_expect, lemma_ident, lemma_key, lemma_peek,
    lemma_token, push_errors_at, State, Tok,
};
use crate::preserved::{lemma_keeps_lines, lemma_nested_refl, tiled};
use crate::syntax::SyntaxKind;
use crate::tree::TreeEvent;
use crate::util::allowed_chars::forbidden_offsets;
use crate::util::escape::escape_errors;

pub mod shape;

verus! {

broadcast use lemma_leaves_push;

/// All words of the text that is parsed.
spec fn all(s: State) -> Seq<Word> {
    words(s.toks, s.toks.len() as int)
}

/// How many words are in the tree.
spec fn at(s: State) -> int {
    words(s.toks, s.pos).len() - if s.current is Some {
        1int
    } else {
        0int
    }
}

/// A token that stands where none of its kind can.
pub open spec fn is_error_token(e: TreeEvent) -> bool {
    e matches TreeEvent::Token { kind, .. } && kind == SyntaxKind::ERROR.number()
}

/// No token of a walk is in a wrong place.
pub open spec fn no_error_tokens(tree: Seq<TreeEvent>) -> bool {
    forall|i: int| 0 <= i < tree.len() ==> !#[trigger] is_error_token(tree[i])
}

/// The parser stands between two tokens.
spec fn between(s: State) -> bool {
    &&& 0 <= s.pos <= s.toks.len()
    &&& s.skip_whitespace
    &&& s.errors.len() == 0 ==> all_clean(s.toks, s.pos) && no_error_tokens(s.tree)
    &&& spells(leaves(s.tree), s.toks, s.pos)
}

/// The parser stands between two tokens, or at one of them.
spec fn good(s: State) -> bool {
    &&& 0 <= s.pos <= s.toks.len()
    &&& s.skip_whitespace
    &&& s.errors.len() == 0 ==> all_clean(s.toks, s.pos) && no_error_tokens(s.tree)
    &&& spells(
        leaves(s.tree),
        s.toks,
        if s.current is Some {
            s.pos - 1
        } else {
            s.pos
        },
    )
    &&& s.current is Some ==> {
        &&& s.pos > 0
        &&& s.current->0 == s.toks[s.pos - 1].kind
        &&& s.text == s.toks[s.pos - 1].text
        &&& !is_trivia(s.current->0)
    }
}

/// The parser goes on from `a` to `b`, and errors stay.
spec fn goes(a: State, b: State) -> bool {
    &&& b.toks == a.toks
    &&& good(b)
    &&& a.errors.len() > 0 ==> b.errors.len() > 0
}

/// The text is clean up to the `k`-th word, with what stands in front of it.
#[verifier::opaque]
spec fn clean_to(toks: Seq<Tok>, k: int) -> bool {
    forall|i: int|
        0 <= i < toks.len() && words(toks, i).len() <= k ==> clean(#[trigger] toks[i])
}

/// The text is clean up to the `k`-th word, and there was no error yet.
spec fn fine(s: State, k: int) -> bool {
    clean_to(s.toks, k) && s.errors.len() == 0
}

proof fn lemma_clean_at(toks: Seq<Tok>, i: int, k: int)
    requires
        0 <= i < toks.len(),
        words(toks, i).len() <= k,
    ensures
        clean_to(toks, k) ==> clean(toks[i]),
{
    reveal(clean_to);
}

proof fn lemma_clean_before(toks: Seq<Tok>, k: int, j: int)
    requires
        k <= j,
    ensures
        clean_to(toks, j) ==> clean_to(toks, k),
{
    reveal(clean_to);
}

proof fn lemma_words_prefix(toks: Seq<Tok>, n: int, m: int)
    requires
        0 <= n <= m <= toks.len(),
    ensures
        words(toks, n).len() <= words(toks, m).len(),
        forall|i: int|
            0 <= i < words(toks, n).len() ==> #[trigger] words(toks, n)[i] == words(toks, m)[i],
    decreases m - n,
{
    if n < m {
        lemma_words_prefix(toks, n, m - 1);
        let front = words(toks, m - 1);
        assert forall|i: int| 0 <= i < words(toks, n).len() implies #[trigger] words(toks, n)[i]
            == words(toks, m)[i] by {
            assert(words(toks, n)[i] == front[i]);
        }
    }
}

/// The current token is the word that comes next.
proof fn lemma_current(s: State)
    requires
        good(s),
    ensures
        0 <= at(s) <= all(s).len(),
        s.current is Some ==> {
            &&& at(s) < all(s).len()
            &&& all(s)[at(s)] == word(s.toks, s.pos - 1)
            &&& all(s)[at(s)].kind == s.current->0
            &&& all(s)[at(s)].text == s.text
            &&& all(s)[at(s)].bracket_next == s.bracket_follows()
        },
        s.current is None && s.pos == s.toks.len() ==> at(s) == all(s).len(),
{
    lemma_words_prefix(s.toks, s.pos, s.toks.len() as int);
    if s.current is Some {
        assert(words(s.toks, s.pos) == words(s.toks, s.pos - 1).push(word(s.toks, s.pos - 1)));
        assert(words(s.toks, s.pos)[at(s)] == word(s.toks, s.pos - 1));
    }
}

/// Where words were read, tokens were.
proof fn lemma_at_left(a: State, b: State)
    requires
        good(a),
        good(b),
        a.toks == b.toks,
        at(a) < at(b),
    ensures
        b.left() < a.left(),
{
    lemma_current(a);
    lemma_current(b);
    if b.pos < a.pos {
        lemma_words_prefix(a.toks, b.pos, a.pos);
        if a.current is Some {
            lemma_words_prefix(a.toks, b.pos, a.pos - 1);
        }
    } else if b.pos == a.pos + 1 && b.current is Some && a.current is None {
        assert(words(b.toks, b.pos).len() == words(a.toks, a.pos).len() + 1);
    }
}

proof fn lemma_push_errors_len(
    errors: Seq<ErrorView>,
    start: int,
    offsets: Seq<int>,
    message: Seq<char>,
)
    ensures
        errors.len() > 0 ==> push_errors_at(errors, start, offsets, message).len() > 0,
        offsets.len() > 0 ==> push_errors_at(errors, start, offsets, message).len() > 0,
        offsets.len() == 0 ==> push_errors_at(errors, start, offsets, message) == errors,
    decreases offsets.len(),
{
    if offsets.len() > 0 {
        lemma_push_errors_len(errors, start, offsets.drop_last(), message);
    }
}

proof fn lemma_report_at(s: State, offsets: Seq<int>, message: Seq<char>)
    requires
        good(s),
    ensures
        goes(s, s.report_at(offsets, message)),
        at(s.report_at(offsets, message)) == at(s),
        s.report_at(offsets, message).errors.len() == 0 <==> s.errors.len() == 0 && offsets.len()
            == 0,
{
    lemma_push_errors_len(s.errors, s.start, offsets, message);
}

proof fn lemma_g_step(s: State)
    requires
        between(s),
    ensures
        goes(s, s.step()),
        at(s.step()) == words(s.toks, s.pos).len(),
        fine(s, at(s.step())) ==> s.step().errors.len() == 0,
        s.step().current is None ==> s.step().pos == s.toks.len(),
    decreases s.toks.len() - s.pos,
{
    if s.pos < s.toks.len() {
        let n = State { current: None, ..s }.next();
        let tok = s.toks[s.pos];
        let kind = tok.kind;
        lemma_spells_push(leaves(s.tree), s.toks, s.pos, kind);
        lemma_clean_at(s.toks, s.pos, words(s.toks, s.pos).len() as int);
        if kind == SyntaxKind::COMMENT {
            let offsets = forbidden_offsets(n.text, false);
            let message = "invalid character in comment"@;
            lemma_push_errors_len(n.errors, n.start, offsets, message);
            let e = n.report_at(offsets, message).emit(kind, n.text);
            assert(between(e)) by {
                if e.errors.len() == 0 {
                    assert(clean(tok));
                }
            }
            lemma_g_step(e);
        } else if kind == SyntaxKind::WHITESPACE {
            let e = n.emit(kind, n.text);
            assert(clean(tok));
            lemma_g_step(e);
        } else if kind == SyntaxKind::ERROR {
            let e = n.emit(kind, n.text).report("unexpected token"@);
            lemma_g_step(e);
        } else {
            assert(clean(tok));
        }
    }
}

proof fn lemma_g_peek(s: State)
    requires
        good(s),
    ensures
        goes(s, s.peek()),
        at(s.peek()) == at(s),
        fine(s, at(s)) ==> s.peek().errors.len() == 0,
        s.peek().current is None ==> at(s) == all(s).len() && s.peek().pos == s.toks.len(),
        s.peek().current is Some ==> {
            &&& 0 <= at(s) < all(s).len()
            &&& all(s)[at(s)].kind == s.peek().current->0
            &&& all(s)[at(s)].text == s.peek().text
            &&& all(s)[at(s)].bracket_next == s.peek().bracket_follows()
        },
{
    if s.current is None {
        lemma_g_step(s);
    }
    lemma_current(s.peek());
}

proof fn lemma_g_token_as(s: State, kind: SyntaxKind)
    requires
        good(s),
        kind == SyntaxKind::ERROR ==> s.errors.len() > 0,
        s.peek().current is Some ==> can_be(s.toks[s.peek().pos - 1], kind),
    ensures
        goes(s, s.token_as(kind).0),
        s.token_as(kind).1 <==> at(s) < all(s).len(),
        s.token_as(kind).1 ==> at(s.token_as(kind).0) == at(s) + 1,
        fine(s, at(s) + 1) ==> s.token_as(kind).0.errors.len() == 0,
{
    lemma_clean_before(s.toks, at(s), at(s) + 1);
    lemma_g_peek(s);
    let p = s.peek();
    if p.current is Some {
        lemma_spells_push(leaves(p.tree), p.toks, p.pos - 1, kind);
        lemma_g_step(p.emit(kind, p.text));
    }
}

proof fn lemma_g_token(s: State)
    requires
        good(s),
    ensures
        goes(s, s.token().0),
        s.token().1 <==> at(s) < all(s).len(),
        s.token().1 ==> at(s.token().0) == at(s) + 1,
        fine(s, at(s) + 1) ==> s.token().0.errors.len() == 0,
{
    lemma_clean_before(s.toks, at(s), at(s) + 1);
    lemma_g_peek(s);
    let p = s.peek();
    if p.current is Some {
        lemma_g_token_as(p, p.current->0);
    }
}

proof fn lemma_g_error(s: State, message: Seq<char>)
    requires
        good(s),
    ensures
        goes(s, s.error(message)),
        s.error(message).errors.len() > 0,
{
    let r = s.report(message);
    assert(r.errors.len() > 0);
    lemma_g_token_as(r, SyntaxKind::ERROR);
}

proof fn lemma_g_expect(s: State, kind: SyntaxKind, message: Seq<char>)
    requires
        good(s),
    ensures
        goes(s, s.expect(kind, message).0),
        s.expect(kind, message).0.errors.len() == 0 ==> {
            &&& s.expect(kind, message).1
            &&& word_is(all(s), at(s), kind)
            &&& at(s.expect(kind, message).0) == at(s) + 1
        },
        fine(s, at(s) + 1) && word_is(all(s), at(s), kind) ==> s.expect(
            kind,
            message,
        ).0.errors.len() == 0,
{
    lemma_clean_before(s.toks, at(s), at(s) + 1);
    lemma_g_peek(s);
    let p = s.peek();
    if p.current is None {
        assert(p.report("unexpected EOF"@).errors.len() > 0);
    } else if p.current->0 == kind {
        lemma_g_token(p);
    } else {
        lemma_g_error(p, message);
    }
}

/// The parts of a dotted text are no errors.
proof fn lemma_dotted_kinds(text: Seq<u8>)
    ensures
        no_error_tokens(dotted(text)),
    decreases text.len(),
{
    let at = last_period(text);
    if 0 <= at < text.len() {
        lemma_dotted_kinds(text.take(at));
    }
}

proof fn lemma_g_ident(s: State)
    requires
        good(s),
    ensures
        goes(s, s.ident().0),
        s.ident().0.errors.len() == 0 && s.ident().1 ==> {
            &&& 0 <= at(s) < all(s).len()
            &&& ident(all(s)[at(s)])
            &&& at(s.ident().0) == at(s) + 1
        },
        fine(s, at(s) + 1) && 0 <= at(s) < all(s).len() && ident(all(s)[at(s)]) ==> {
            &&& s.ident().1
            &&& s.ident().0.errors.len() == 0
        },
{
    lemma_clean_before(s.toks, at(s), at(s) + 1);
    lemma_g_peek(s);
    let p = s.peek();
    if p.current is Some {
        let t = p.current->0;
        if t == SyntaxKind::IDENT {
            lemma_g_token(p);
        } else if t == SyntaxKind::INTEGER {
            lemma_g_token_as(p, SyntaxKind::IDENT);
        } else if t == SyntaxKind::STRING_LITERAL {
            let offsets = forbidden_offsets(p.text, false);
            let message = "invalid control character in string literal"@;
            lemma_report_at(p, offsets, message);
            lemma_g_token_as(p.report_at(offsets, message), SyntaxKind::IDENT);
        } else if t == SyntaxKind::STRING {
            let offsets = forbidden_offsets(p.text, false);
            let message = "invalid character in string"@;
            lemma_report_at(p, offsets, message);
            let q = p.report_at(offsets, message);
            lemma_report_at(q, escape_errors(p.text, 0), "invalid escape sequence"@);
            lemma_g_token_as(
                q.report_at(escape_errors(p.text, 0), "invalid escape sequence"@),
                SyntaxKind::IDENT,
            );
        } else if t == SyntaxKind::FLOAT {
            lemma_dotted_kinds(p.text);
            lemma_leaves_dotted(p.tree, p.text);
            lemma_spells_add(leaves(p.tree), p.toks, p.pos - 1, dotted(p.text));
            lemma_g_step(State { tree: p.tree + dotted(p.text), ..p });
        } else {
            lemma_g_error(p, "expected identifier"@);
        }
    }
}

/// What was read of a key by its rest.
spec fn key_part(ws: Seq<Word>, i: int, j: int, after_period: bool) -> bool {
    if after_period {
        key(ws, i, j)
    } else {
        j == i || (word_is(ws, i, SyntaxKind::PERIOD) && key(ws, i + 1, j))
    }
}

proof fn lemma_g_key_rest(s: State, after_period: bool)
    requires
        good(s),
    ensures
        goes(s, s.key_rest(after_period).0),
        s.key_rest(after_period).0.errors.len() == 0 ==> {
            let r = s.key_rest(after_period);
            &&& r.1
            &&& key_part(all(s), at(s), at(r.0), after_period)
        },
    decreases s.left(),
{
    lemma_g_peek(s);
    lemma_peek(s);
    let p = s.peek();
    if p.current is None {
        lemma_g_error(p, "unexpected end of input"@);
    } else if p.current->0 == SyntaxKind::PERIOD {
        if after_period {
            lemma_g_error(p, "unexpected \".\""@);
        } else {
            lemma_g_token(p);
            lemma_token(p);
            lemma_g_key_rest(p.token().0, true);
        }
    } else if after_period {
        lemma_g_ident(p);
        lemma_ident(p);
        let r = p.ident();
        if r.1 {
            lemma_g_key_rest(r.0, false);
        } else {
            lemma_g_error(r.0, "expected identifier"@);
        }
    }
}

#[verifier::rlimit(40)]
proof fn lemma_c_key_rest(s: State, after_period: bool, j: int)
    requires
        good(s),
        fine(s, j),
        key_part(all(s), at(s), j, after_period),
        !word_is(all(s), j, SyntaxKind::PERIOD),
    ensures
        s.key_rest(after_period).1,
        s.key_rest(after_period).0.errors.len() == 0,
        at(s.key_rest(after_period).0) == j,
    decreases s.left(),
{
    lemma_clean_before(s.toks, at(s), j);
    if at(s) < j {
        lemma_clean_before(s.toks, at(s) + 1, j);
    }
    lemma_g_peek(s);
    lemma_peek(s);
    let p = s.peek();
    if p.current is None {
    } else if p.current->0 == SyntaxKind::PERIOD {
        lemma_g_token(p);
        lemma_token(p);
        lemma_c_key_rest(p.token().0, true, j);
    } else if after_period {
        lemma_g_ident(p);
        lemma_ident(p);
        lemma_c_key_rest(p.ident().0, false, j);
    }
}

proof fn lemma_g_key(s: State)
    requires
        good(s),
    ensures
        goes(s, s.key().0),
        s.key().0.errors.len() == 0 ==> {
            &&& s.key().1
            &&& key(all(s), at(s), at(s.key().0))
        },
{
    lemma_g_ident(s);
    let r = s.ident();
    if r.1 {
        lemma_g_key_rest(r.0, false);
    } else {
        lemma_g_error(r.0, "expected identifier"@);
    }
}

proof fn lemma_c_key(s: State, j: int)
    requires
        good(s),
        fine(s, j),
        key(all(s), at(s), j),
        !word_is(all(s), j, SyntaxKind::PERIOD),
    ensures
        s.key().1,
        s.key().0.errors.len() == 0,
        at(s.key().0) == j,
{
    lemma_clean_before(s.toks, at(s) + 1, j);
    lemma_g_ident(s);
    lemma_c_key_rest(s.ident().0, false, j);
}

/// A single word as a value.
proof fn lemma_g_scalar(s: State)
    requires
        good(s),
        s.current is Some,
        s.current->0 != SyntaxKind::BRACKET_START,
        s.current->0 != SyntaxKind::BRACE_START,
    ensures
        goes(s, s.value().0),
        s.value().0.errors.len() == 0 ==> {
            &&& s.value().1
            &&& scalar(all(s)[at(s)])
            &&& at(s.value().0) == at(s) + 1
        },
        fine(s, at(s) + 1) && scalar(all(s)[at(s)]) ==> s.value().0.errors.len() == 0,
{
    lemma_clean_before(s.toks, at(s), at(s) + 1);
    lemma_g_peek(s);
    lemma_current(s);
    lemma_g_token(s);
    let t = s.current->0;
    if t == SyntaxKind::BOOL || t == SyntaxKind::DATE {
    } else if t == SyntaxKind::INTEGER_BIN || t == SyntaxKind::INTEGER_HEX || t
        == SyntaxKind::INTEGER_OCT || t == SyntaxKind::FLOAT {
        lemma_g_error(s, "invalid underscores"@);
    } else if t == SyntaxKind::INTEGER {
        lemma_g_error(s, "invalid underscores"@);
        lemma_g_error(s, "zero-padded integers are not allowed"@);
    } else if t == SyntaxKind::STRING_LITERAL {
        let offsets = forbidden_offsets(s.text, false);
        let message = "invalid control character in string literal"@;
        lemma_report_at(s, offsets, message);
        lemma_g_token(s.report_at(offsets, message));
    } else if t == SyntaxKind::MULTI_LINE_STRING_LITERAL {
        let offsets = forbidden_offsets(s.text, true);
        let message = "invalid character in string"@;
        lemma_report_at(s, offsets, message);
        lemma_g_token(s.report_at(offsets, message));
    } else if t == SyntaxKind::STRING || t == SyntaxKind::MULTI_LINE_STRING {
        let offsets = forbidden_offsets(s.text, t == SyntaxKind::MULTI_LINE_STRING);
        let message = "invalid character in string"@;
        lemma_report_at(s, offsets, message);
        let q = s.report_at(offsets, message);
        lemma_report_at(q, escape_errors(s.text, 0), "invalid escape sequence"@);
        lemma_g_token(q.report_at(escape_errors(s.text, 0), "invalid escape sequence"@));
    } else {
        lemma_g_error(s, "expected value"@);
    }
}

proof fn lemma_g_value(s: State)
    requires
        good(s),
    ensures
        goes(s, s.value().0),
        s.value().0.errors.len() == 0 ==> value(all(s), at(s), at(s.value().0)),
    decreases s.left(), 5int,
{
    lemma_g_peek(s);
    lemma_peek(s);
    let p = s.peek();
    if p.current is None {
        lemma_g_error(p, "expected value"@);
    } else {
        assert(p.peek() == p);
        assert(s.value() == p.value());
        if p.current->0 == SyntaxKind::BRACKET_START {
            lemma_g_array(p.open(SyntaxKind::ARRAY));
        } else if p.current->0 == SyntaxKind::BRACE_START {
            lemma_g_inline_table(p.open(SyntaxKind::INLINE_TABLE));
        } else {
            lemma_g_scalar(p);
        }
    }
}

/// What was read behind an opening bracket: the elements and the closing
/// bracket, or elements up to the end of the text.
spec fn array_part(ws: Seq<Word>, i: int, j: int, value_next: bool) -> bool {
    ||| j == ws.len() && elements(ws, i, j, value_next)
    ||| i < j && word_is(ws, j - 1, SyntaxKind::BRACKET_END) && elements(ws, i, j - 1, value_next)
}

/// What was read behind an opening brace: the entries and the closing
/// brace, or entries up to the end of the text.
spec fn table_part(ws: Seq<Word>, i: int, j: int, first: bool, comma_last: bool) -> bool {
    ||| j == ws.len() && entries(ws, i, j, first, comma_last)
    ||| {
        &&& i < j
        &&& word_is(ws, j - 1, SyntaxKind::BRACE_END)
        &&& entries(ws, i, j - 1, first, comma_last)
    }
}

proof fn lemma_g_array(s: State)
    requires
        good(s),
    ensures
        goes(s, s.array().0),
        s.array().0.errors.len() == 0 ==> {
            &&& word_is(all(s), at(s), SyntaxKind::BRACKET_START)
            &&& array_part(all(s), at(s) + 1, at(s.array().0), true)
        },
    decreases s.left(), 4int,
{
    let message = "expected \"[\""@;
    lemma_g_expect(s, SyntaxKind::BRACKET_START, message);
    lemma_expect(s, SyntaxKind::BRACKET_START, message);
    let r = s.expect(SyntaxKind::BRACKET_START, message);
    if r.1 {
        lemma_g_array_rest(r.0, true, false);
    }
}

proof fn lemma_g_array_rest(s: State, first: bool, comma_last: bool)
    requires
        good(s),
    ensures
        goes(s, s.array_rest(first, comma_last).0),
        s.array_rest(first, comma_last).0.errors.len() == 0 ==> array_part(
            all(s),
            at(s),
            at(s.array_rest(first, comma_last).0),
            first || comma_last,
        ),
    decreases
            s.left(),
            if first || comma_last {
                11int
            } else {
                10int
            },
{
    lemma_g_peek(s);
    lemma_peek(s);
    lemma_current(s);
    let p = s.peek();
    let r = s.array_rest(first, comma_last);
    if p.current is Some {
        let t = p.current->0;
        if t == SyntaxKind::BRACKET_END {
            lemma_g_token(p);
        } else if t == SyntaxKind::NEWLINE {
            lemma_g_token(p);
            lemma_token(p);
            lemma_g_array_rest(p.token().0, first, comma_last);
        } else if t == SyntaxKind::COMMA {
            lemma_g_error(p, "unexpected \",\""@);
            lemma_error(p, "unexpected \",\""@);
            let s1 = if first || comma_last {
                p.error("unexpected \",\""@)
            } else {
                p
            };
            lemma_g_token(s1);
            lemma_token(s1);
            if s1.token().1 {
                lemma_g_array_rest(s1.token().0, false, true);
            }
        } else {
            let in_place = first || comma_last;
            lemma_g_array_element(p, in_place);
            let s2 = p.array_element(in_place);
            if s2.errors.len() == 0 {
                lemma_at_left(p, s2);
            }
            if s.goes_on(s2, in_place) {
                lemma_g_array_rest(s2, false, false);
                if r.0.errors.len() == 0 {
                    assert(splits(at(s), at(s2), at(r.0)) || at(s2) > at(r.0));
                    assert(splits(at(s), at(s2), at(r.0) - 1) || at(s2) > at(r.0) - 1);
                }
            }
        }
    }
}

proof fn lemma_g_array_element(s: State, in_place: bool)
    requires
        good(s),
    ensures
        goes(s, s.array_element(in_place)),
        s.array_element(in_place).errors.len() == 0 ==> in_place && value(
            all(s),
            at(s),
            at(s.array_element(in_place)),
        ),
    decreases s.left(), 9int,
{
    lemma_g_error(s, "expected \",\""@);
    lemma_error(s, "expected \",\""@);
    let s1 = if in_place {
        s
    } else {
        s.error("expected \",\""@)
    };
    lemma_g_value(s1.allow(SyntaxKind::COMMA).open(SyntaxKind::VALUE));
}

proof fn lemma_g_inline_table(s: State)
    requires
        good(s),
    ensures
        goes(s, s.inline_table().0),
        s.inline_table().0.errors.len() == 0 ==> {
            &&& word_is(all(s), at(s), SyntaxKind::BRACE_START)
            &&& table_part(all(s), at(s) + 1, at(s.inline_table().0), true, false)
        },
    decreases s.left(), 4int,
{
    let message = "expected \"{\""@;
    lemma_g_expect(s, SyntaxKind::BRACE_START, message);
    lemma_expect(s, SyntaxKind::BRACE_START, message);
    let r = s.expect(SyntaxKind::BRACE_START, message);
    if r.1 {
        lemma_g_table_rest(r.0, true, false, false);
    }
}

proof fn lemma_g_table_rest(s: State, first: bool, comma_last: bool, was_newline: bool)
    requires
        good(s),
        was_newline ==> s.errors.len() > 0,
    ensures
        goes(s, s.table_rest(first, comma_last, was_newline).0),
        s.table_rest(first, comma_last, was_newline).0.errors.len() == 0 ==> table_part(
            all(s),
            at(s),
            at(s.table_rest(first, comma_last, was_newline).0),
            first,
            comma_last,
        ),
    decreases
            s.left(),
            10 + (if first {
                4int
            } else {
                0int
            }) + (if comma_last {
                2int
            } else {
                0int
            }) + (if was_newline {
                0int
            } else {
                1int
            }),
{
    lemma_g_peek(s);
    lemma_peek(s);
    lemma_current(s);
    let p = s.peek();
    let r = s.table_rest(first, comma_last, was_newline);
    if p.current is Some {
        let t = p.current->0;
        if t == SyntaxKind::BRACE_END {
            let message = "expected value, trailing comma is not allowed"@;
            lemma_g_token(p);
            assert(p.report(message).errors.len() > 0);
            lemma_g_token(p.report(message));
        } else if t == SyntaxKind::NEWLINE {
            if !was_newline {
                let message = "newline is not allowed in an inline table"@;
                lemma_g_error(p, message);
                lemma_error(p, message);
                lemma_g_table_rest(p.error(message), false, comma_last, true);
            }
        } else if t == SyntaxKind::COMMA {
            if first {
                lemma_g_error(p, "unexpected \",\""@);
                lemma_error(p, "unexpected \",\""@);
                lemma_g_table_rest(p.error("unexpected \",\""@), false, true, false);
            } else {
                lemma_g_token(p);
                lemma_token(p);
                lemma_g_table_rest(p.token().0, false, true, false);
            }
        } else {
            let in_place = first || comma_last;
            lemma_g_table_element(p, in_place);
            let s2 = p.table_element(in_place);
            if s2.errors.len() == 0 {
                lemma_at_left(p, s2);
            }
            if s.goes_on(s2, in_place) {
                lemma_g_table_rest(s2, false, false, false);
                if r.0.errors.len() == 0 {
                    assert(splits(at(s), at(s2), at(r.0)) || at(s2) > at(r.0));
                    assert(splits(at(s), at(s2), at(r.0) - 1) || at(s2) > at(r.0) - 1);
                }
            }
        }
    }
}

proof fn lemma_g_table_element(s: State, in_place: bool)
    requires
        good(s),
    ensures
        goes(s, s.table_element(in_place)),
        s.table_element(in_place).errors.len() == 0 ==> {
            &&& in_place
            &&& at(s) < at(s.table_element(in_place))
            &&& entry(all(s), at(s), at(s.table_element(in_place)))
        },
    decreases s.left(), 9int,
{
    lemma_g_error(s, "expected \",\""@);
    lemma_error(s, "expected \",\""@);
    let s1 = if in_place {
        s
    } else {
        s.error("expected \",\""@)
    };
    lemma_g_entry(s1.allow(SyntaxKind::COMMA).open(SyntaxKind::ENTRY));
}

proof fn lemma_g_entry(s: State)
    requires
        good(s),
    ensures
        goes(s, s.entry().0),
        s.entry().0.errors.len() == 0 ==> {
            &&& at(s) < at(s.entry().0)
            &&& entry(all(s), at(s), at(s.entry().0))
        },
    decreases s.left(), 6int,
{
    let o = s.open(SyntaxKind::KEY);
    lemma_g_key(o);
    lemma_key(o);
    let k = o.key();
    let c = k.0.close();
    if k.1 {
        let message = "expected \"=\""@;
        lemma_g_expect(c, SyntaxKind::EQ, message);
        lemma_expect(c, SyntaxKind::EQ, message);
        let r = c.expect(SyntaxKind::EQ, message);
        if r.1 {
            lemma_g_value(r.0.open(SyntaxKind::VALUE));
            if s.entry().0.errors.len() == 0 {
                assert(splits(at(s), at(c), at(s.entry().0) - 1));
            }
        }
    }
}

proof fn lemma_c_value(s: State, j: int)
    requires
        good(s),
        fine(s, j),
        value(all(s), at(s), j),
    ensures
        s.value().0.errors.len() == 0,
        at(s.value().0) == j,
    decreases s.left(), 5int,
{
    lemma_clean_before(s.toks, at(s), j);
    lemma_clean_before(s.toks, at(s) + 1, j);
    lemma_g_peek(s);
    lemma_peek(s);
    let p = s.peek();
    assert(p.peek() == p);
    assert(s.value() == p.value());
    if p.current->0 == SyntaxKind::BRACKET_START {
        lemma_c_array(p.open(SyntaxKind::ARRAY), j);
    } else if p.current->0 == SyntaxKind::BRACE_START {
        lemma_c_inline_table(p.open(SyntaxKind::INLINE_TABLE), j);
    } else {
        lemma_g_scalar(p);
    }
}

proof fn lemma_c_array(s: State, j: int)
    requires
        good(s),
        fine(s, j),
        word_is(all(s), at(s), SyntaxKind::BRACKET_START),
        array_part(all(s), at(s) + 1, j, true),
    ensures
        s.array().0.errors.len() == 0,
        at(s.array().0) == j,
    decreases s.left(), 4int,
{
    lemma_clean_before(s.toks, at(s) + 1, j);
    let message = "expected \"[\""@;
    lemma_g_expect(s, SyntaxKind::BRACKET_START, message);
    lemma_expect(s, SyntaxKind::BRACKET_START, message);
    lemma_c_array_rest(s.expect(SyntaxKind::BRACKET_START, message).0, true, false, j);
}

#[verifier::rlimit(40)]
proof fn lemma_c_array_rest(s: State, first: bool, comma_last: bool, j: int)
    requires
        good(s),
        fine(s, j),
        array_part(all(s), at(s), j, first || comma_last),
    ensures
        s.array_rest(first, comma_last).0.errors.len() == 0,
        at(s.array_rest(first, comma_last).0) == j,
    decreases
            s.left(),
            if first || comma_last {
                11int
            } else {
                10int
            },
{
    lemma_clean_before(s.toks, at(s), j);
    if at(s) < j {
        lemma_clean_before(s.toks, at(s) + 1, j);
    }
    lemma_g_peek(s);
    lemma_peek(s);
    lemma_current(s);
    let p = s.peek();
    let t = p.current->0;
    let in_place = first || comma_last;
    let ws = all(s);
    let end = if j == ws.len() && elements(ws, at(s), j, in_place) {
        j
    } else {
        j - 1
    };
    assert(elements(ws, at(s), end, in_place));
    if p.current is Some && (t == SyntaxKind::BRACKET_END || t == SyntaxKind::NEWLINE || t
        == SyntaxKind::COMMA) {
        assert(!scalar(ws[at(s)]));
        assert forall|k: int| #[trigger] splits(at(s), k, end) implies !value(ws, at(s), k) by {}
    }
    if p.current is None {
    } else if t == SyntaxKind::BRACKET_END {
        lemma_g_token(p);
    } else if t == SyntaxKind::NEWLINE {
        assert(elements(ws, at(s) + 1, end, in_place));
        lemma_g_token(p);
        lemma_token(p);
        lemma_c_array_rest(p.token().0, first, comma_last, j);
    } else if t == SyntaxKind::COMMA {
        assert(!in_place && elements(ws, at(s) + 1, end, true));
        lemma_g_token(p);
        lemma_token(p);
        lemma_c_array_rest(p.token().0, false, true, j);
    } else {
        let k = choose|k: int| #[trigger]
            splits(at(s), k, end) && value(ws, at(s), k) && elements(ws, k, end, false);
        let o = p.allow(SyntaxKind::COMMA).open(SyntaxKind::VALUE);
        lemma_clean_before(s.toks, k, j);
        lemma_c_value(o, k);
        lemma_g_value(o);
        let s2 = p.array_element(true);
        assert(s2 == o.value().0.close().disallow(SyntaxKind::COMMA));
        lemma_at_left(p, s2);
        lemma_c_array_rest(s2, false, false, j);
    }
}

proof fn lemma_c_inline_table(s: State, j: int)
    requires
        good(s),
        fine(s, j),
        word_is(all(s), at(s), SyntaxKind::BRACE_START),
        table_part(all(s), at(s) + 1, j, true, false),
    ensures
        s.inline_table().0.errors.len() == 0,
        at(s.inline_table().0) == j,
    decreases s.left(), 4int,
{
    lemma_clean_before(s.toks, at(s) + 1, j);
    let message = "expected \"{\""@;
    lemma_g_expect(s, SyntaxKind::BRACE_START, message);
    lemma_expect(s, SyntaxKind::BRACE_START, message);
    lemma_c_table_rest(s.expect(SyntaxKind::BRACE_START, message).0, true, false, j);
}

/// An entry starts with a part of a key.
proof fn lemma_entry_start(ws: Seq<Word>, i: int, j: int)
    requires
        entry(ws, i, j),
    ensures
        0 <= i < ws.len(),
        ident(ws[i]),
{
    let k = choose|k: int| #[trigger]
        splits(i, k, j - 1) && key(ws, i, k) && word_is(ws, k, SyntaxKind::EQ) && value(
            ws,
            k + 1,
            j,
        );
    assert(key(ws, i, k));
}

#[verifier::rlimit(40)]
proof fn lemma_c_table_rest(s: State, first: bool, comma_last: bool, j: int)
    requires
        good(s),
        fine(s, j),
        table_part(all(s), at(s), j, first, comma_last),
    ensures
        s.table_rest(first, comma_last, false).0.errors.len() == 0,
        at(s.table_rest(first, comma_last, false).0) == j,
    decreases
            s.left(),
            11 + (if first {
                4int
            } else {
                0int
            }) + (if comma_last {
                2int
            } else {
                0int
            }),
{
    lemma_clean_before(s.toks, at(s), j);
    if at(s) < j {
        lemma_clean_before(s.toks, at(s) + 1, j);
    }
    lemma_g_peek(s);
    lemma_peek(s);
    lemma_current(s);
    let p = s.peek();
    let t = p.current->0;
    let in_place = first || comma_last;
    let ws = all(s);
    let end = if j == ws.len() && entries(ws, at(s), j, first, comma_last) {
        j
    } else {
        j - 1
    };
    assert(entries(ws, at(s), end, first, comma_last));
    if p.current is None {
    } else if t == SyntaxKind::BRACE_END || t == SyntaxKind::NEWLINE || t == SyntaxKind::COMMA {
        lemma_g_token(p);
        if in_place && exists|k: int| #[trigger]
            splits(at(s), k, end) && entry(ws, at(s), k) && entries(ws, k, end, false, false) {
            let k = choose|k: int| #[trigger]
                splits(at(s), k, end) && entry(ws, at(s), k) && entries(ws, k, end, false, false);
            lemma_entry_start(ws, at(s), k);
        }
        if t == SyntaxKind::COMMA {
            lemma_token(p);
            lemma_c_table_rest(p.token().0, false, true, j);
        }
    } else {
        let k = choose|k: int| #[trigger]
            splits(at(s), k, end) && entry(ws, at(s), k) && entries(ws, k, end, false, false);
        let o = p.allow(SyntaxKind::COMMA).open(SyntaxKind::ENTRY);
        lemma_clean_before(s.toks, k, j);
        lemma_c_entry(o, k);
        lemma_g_entry(o);
        let s2 = p.table_element(true);
        assert(s2 == o.entry().0.close().disallow(SyntaxKind::COMMA));
        lemma_at_left(p, s2);
        lemma_c_table_rest(s2, false, false, j);
    }
}

proof fn lemma_c_entry(s: State, j: int)
    requires
        good(s),
        fine(s, j),
        entry(all(s), at(s), j),
    ensures
        s.entry().0.errors.len() == 0,
        at(s.entry().0) == j,
    decreases s.left(), 6int,
{
    let ws = all(s);
    let i = at(s);
    let m = choose|k: int| #[trigger]
        splits(i, k, j - 1) && key(ws, i, k) && word_is(ws, k, SyntaxKind::EQ) && value(
            ws,
            k + 1,
            j,
        );
    let o = s.open(SyntaxKind::KEY);
    lemma_clean_before(s.toks, m, j);
    lemma_clean_before(s.toks, m + 1, j);
    lemma_c_key(o, m);
    lemma_g_key(o);
    lemma_key(o);
    let c = o.key().0.close();
    let message = "expected \"=\""@;
    lemma_g_expect(c, SyntaxKind::EQ, message);
    lemma_expect(c, SyntaxKind::EQ, message);
    let r = c.expect(SyntaxKind::EQ, message);
    lemma_c_value(r.0.open(SyntaxKind::VALUE), j);
}

proof fn lemma_g_table_array_header(s: State)
    requires
        good(s),
    ensures
        goes(s, s.table_array_header().0),
        s.table_array_header().0.errors.len() == 0 ==> {
            let j = at(s.table_array_header().0);
            &&& word_is(all(s), at(s), SyntaxKind::BRACKET_START)
            &&& word_is(all(s), at(s) + 1, SyntaxKind::BRACKET_START)
            &&& key(all(s), at(s) + 2, j - 2)
            &&& word_is(all(s), j - 2, SyntaxKind::BRACKET_END)
            &&& word_is(all(s), j - 1, SyntaxKind::BRACKET_END)
        },
{
    let start = "expected \"[[\""@;
    let stop = "expected \"]]\""@;
    lemma_g_expect(s, SyntaxKind::BRACKET_START, start);
    let r = s.expect(SyntaxKind::BRACKET_START, start);
    if r.1 {
        lemma_g_expect(r.0, SyntaxKind::BRACKET_START, start);
        let q = r.0.expect(SyntaxKind::BRACKET_START, start);
        if q.1 {
            lemma_g_key(q.0.open(SyntaxKind::KEY));
            let k = q.0.open(SyntaxKind::KEY).key().0.close();
            lemma_g_expect(k, SyntaxKind::BRACKET_END, stop);
            let e = k.expect(SyntaxKind::BRACKET_END, stop).0;
            lemma_g_expect(e, SyntaxKind::BRACKET_END, stop);
        }
    }
}

proof fn lemma_g_table_header(s: State)
    requires
        good(s),
    ensures
        goes(s, s.table_header().0),
        s.table_header().0.errors.len() == 0 ==> {
            let j = at(s.table_header().0);
            &&& word_is(all(s), at(s), SyntaxKind::BRACKET_START)
            &&& key(all(s), at(s) + 1, j - 1)
            &&& word_is(all(s), j - 1, SyntaxKind::BRACKET_END)
        },
{
    lemma_g_expect(s, SyntaxKind::BRACKET_START, "expected \"[\""@);
    let r = s.expect(SyntaxKind::BRACKET_START, "expected \"[\""@);
    if r.1 {
        lemma_g_key(r.0.open(SyntaxKind::KEY));
        let k = r.0.open(SyntaxKind::KEY).key().0.close();
        lemma_g_expect(k, SyntaxKind::BRACKET_END, "expected \"]\""@);
    }
}

proof fn lemma_g_header_line(s: State)
    requires
        good(s),
        s.current == Some(SyntaxKind::BRACKET_START),
    ensures
        goes(s, s.header_line()),
        s.header_line().errors.len() == 0 ==> {
            &&& at(s) < at(s.header_line())
            &&& line(all(s), at(s), at(s.header_line()))
        },
{
    lemma_current(s);
    let a = s.allow(SyntaxKind::NEWLINE);
    if s.bracket_follows() {
        lemma_g_table_array_header(a.open(SyntaxKind::TABLE_ARRAY_HEADER));
    } else {
        lemma_g_table_header(a.open(SyntaxKind::TABLE_HEADER));
    }
}

#[verifier::rlimit(40)]
proof fn lemma_c_header_line(s: State, j: int)
    requires
        good(s),
        fine(s, j),
        s.current == Some(SyntaxKind::BRACKET_START),
        line(all(s), at(s), j),
    ensures
        s.header_line().errors.len() == 0,
        at(s.header_line()) == j,
{
    lemma_current(s);
    if entry(all(s), at(s), j) {
        lemma_entry_start(all(s), at(s), j);
    }
    let i = at(s);
    lemma_clean_before(s.toks, i + 1, j);
    lemma_clean_before(s.toks, j - 1, j);
    lemma_clean_before(s.toks, i + 2, j);
    lemma_clean_before(s.toks, j - 2, j);
    if s.bracket_follows() {
        let o = s.allow(SyntaxKind::NEWLINE).open(SyntaxKind::TABLE_ARRAY_HEADER);
        let start = "expected \"[[\""@;
        let stop = "expected \"]]\""@;
        lemma_g_expect(o, SyntaxKind::BRACKET_START, start);
        let r = o.expect(SyntaxKind::BRACKET_START, start);
        lemma_g_expect(r.0, SyntaxKind::BRACKET_START, start);
        let q = r.0.expect(SyntaxKind::BRACKET_START, start);
        lemma_g_key(q.0.open(SyntaxKind::KEY));
        lemma_c_key(q.0.open(SyntaxKind::KEY), j - 2);
        let k = q.0.open(SyntaxKind::KEY).key().0.close();
        lemma_g_expect(k, SyntaxKind::BRACKET_END, stop);
        lemma_g_expect(
            k.expect(SyntaxKind::BRACKET_END, stop).0,
            SyntaxKind::BRACKET_END,
            stop,
        );
    } else {
        let o = s.allow(SyntaxKind::NEWLINE).open(SyntaxKind::TABLE_HEADER);
        lemma_g_expect(o, SyntaxKind::BRACKET_START, "expected \"[\""@);
        let r = o.expect(SyntaxKind::BRACKET_START, "expected \"[\""@);
        lemma_g_key(r.0.open(SyntaxKind::KEY));
        lemma_c_key(r.0.open(SyntaxKind::KEY), j - 1);
        let k = r.0.open(SyntaxKind::KEY).key().0.close();
        lemma_g_expect(k, SyntaxKind::BRACKET_END, "expected \"]\""@);
    }
}

proof fn lemma_g_lines(s: State, not_newline: bool, entry_started: bool)
    requires
        good(s),
    ensures
        goes(s, s.lines(not_newline, entry_started)),
        s.lines(not_newline, entry_started).errors.len() == 0 ==> {
            &&& lines(all(s), at(s), !not_newline)
            &&& s.lines(not_newline, entry_started).pos == s.toks.len()
        },
    decreases
            s.left(),
            if not_newline {
                0int
            } else {
                1int
            },
{
    lemma_g_peek(s);
    lemma_peek(s);
    lemma_current(s);
    let p = s.peek();
    let r = s.lines(not_newline, entry_started);
    if p.current is Some {
        let t = p.current->0;
        let c = p.close_entry(entry_started);
        if t == SyntaxKind::NEWLINE {
            lemma_g_token(c);
            lemma_token(c);
            lemma_g_lines(c.token().0, false, false);
        } else if t == SyntaxKind::BRACKET_START {
            lemma_g_error(c, "expected new line"@);
            let s2 = if not_newline {
                c.error("expected new line"@)
            } else {
                c.header_line()
            };
            lemma_g_header_line(c);
            if s2.errors.len() == 0 {
                lemma_at_left(p, s2);
            }
            if s.goes_on(s2, !not_newline) {
                lemma_g_lines(s2, true, false);
                if r.errors.len() == 0 {
                    assert(line(all(s), at(s), at(s2)));
                }
            }
        } else if not_newline {
            lemma_g_error(p, "expected new line"@);
            let s2 = p.error("expected new line"@);
            if s.goes_on(s2, false) {
                lemma_g_lines(s2, true, entry_started);
            }
        } else {
            let o = c.open(SyntaxKind::ENTRY).allow(SyntaxKind::NEWLINE);
            lemma_g_entry(o);
            let s2 = c.entry_line();
            if s2.errors.len() == 0 {
                lemma_at_left(p, s2);
            }
            if s.goes_on(s2, true) {
                lemma_g_lines(s2, true, true);
                if r.errors.len() == 0 {
                    assert(line(all(s), at(s), at(s2)));
                }
            }
        }
    }
}

#[verifier::rlimit(40)]
proof fn lemma_c_lines(s: State, not_newline: bool, entry_started: bool)
    requires
        good(s),
        fine(s, all(s).len() as int),
        lines(all(s), at(s), !not_newline),
    ensures
        s.lines(not_newline, entry_started).errors.len() == 0,
    decreases
            s.left(),
            if not_newline {
                0int
            } else {
                1int
            },
{
    let size = all(s).len() as int;
    lemma_clean_before(s.toks, at(s), size);
    if at(s) < size {
        lemma_clean_before(s.toks, at(s) + 1, size);
    }
    lemma_g_peek(s);
    lemma_peek(s);
    lemma_current(s);
    let p = s.peek();
    let ws = all(s);
    if p.current is Some {
        let t = p.current->0;
        let c = p.close_entry(entry_started);
        let j = choose|j: int|
            at(s) < j <= ws.len() && #[trigger] line(ws, at(s), j) && lines(ws, j, false);
        if t == SyntaxKind::NEWLINE {
            lemma_g_token(c);
            lemma_token(c);
            if !lines(ws, at(s) + 1, true) {
                if entry(ws, at(s), j) {
                    lemma_entry_start(ws, at(s), j);
                }
            }
            lemma_c_lines(c.token().0, false, false);
        } else if t == SyntaxKind::BRACKET_START {
            lemma_clean_before(s.toks, j, size);
            lemma_c_header_line(c, j);
            lemma_g_header_line(c);
            let s2 = c.header_line();
            lemma_at_left(p, s2);
            lemma_c_lines(s2, true, false);
        } else {
            let o = c.open(SyntaxKind::ENTRY).allow(SyntaxKind::NEWLINE);
            lemma_clean_before(s.toks, j, size);
            lemma_c_entry(o, j);
            lemma_g_entry(o);
            let s2 = c.entry_line();
            lemma_at_left(p, s2);
            lemma_c_lines(s2, true, true);
        }
    }
}

proof fn lemma_start(toks: Seq<Tok>)
    ensures
        good(State::initial(toks).open(SyntaxKind::ROOT)),
        at(State::initial(toks).open(SyntaxKind::ROOT)) == 0,
{
    reveal_with_fuel(spells, 1);
    assert(leaves(State::initial(toks).tree) == Seq::<TreeEvent>::empty());
}

/// Every token of a text stands in its tree, in the order of the text: as
/// itself, as an identifier or several of them in a key, or as an error.
pub proof fn tokens_are_kept(toks: Seq<Tok>)
    requires
        tiled(toks),
    ensures
        spells(leaves(document(toks).tree), toks, toks.len() as int),
{
    let s = State::initial(toks).open(SyntaxKind::ROOT);
    lemma_start(toks);
    lemma_g_lines(s, false, false);
    lemma_nested_refl(s.tree);
    lemma_keeps_lines(s.tree, s, false, false);
}

/// Where a text parses without errors, its tree holds no error tokens.
pub proof fn trees_without_errors(toks: Seq<Tok>)
    requires
        document(toks).errors.len() == 0,
    ensures
        no_error_tokens(document(toks).tree),
{
    let s = State::initial(toks).open(SyntaxKind::ROOT);
    lemma_start(toks);
    lemma_g_lines(s, false, false);
}

/// A text parses without errors if and only if its tokens are those of a
/// document of the grammar.
pub proof fn documents_are_accepted(toks: Seq<Tok>)
    ensures
        document(toks).errors.len() == 0 <==> is_document(toks),
{
    let s = State::initial(toks).open(SyntaxKind::ROOT);
    lemma_start(toks);
    lemma_g_lines(s, false, false);
    if is_document(toks) {
        reveal(clean_to);
        lemma_c_lines(s, false, false);
    }
}

} // verus!
