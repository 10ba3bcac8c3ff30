//! What every step of the parser keeps.

use vstd::prelude::*;

use crate::error::ErrorView;
use crate::grammar::is_trivia;
use crate::model::{
    dotted, last_period, lemma_error, lemma_expect, lemma_ident, lemma_peek, lemma_token,
    push_error, push_errors_at, State, Tok,
};
use crate::syntax::SyntaxKind;
use crate::tree::{open_nodes, tree_text, TreeEvent};
use crate::util::allowed_chars::{forbidden_offsets, lemma_forbidden_offsets_in_text};
use crate::util::escape::{escape_errors, lemma_escape_errors_in_text};

verus! {

/// The end of the first `n` tokens.
pub open spec fn end_of(toks: Seq<Tok>, n: int) -> int {
    if n <= 0 {
        0
    } else {
        toks[n - 1].start + toks[n - 1].text.len()
    }
}

/// Every token starts where the one before it ends.
pub open spec fn tiled(toks: Seq<Tok>) -> bool {
    forall|i: int| 0 <= i < toks.len() ==> toks[i].start == #[trigger] end_of(toks, i)
}

/// No token is empty.
pub open spec fn none_empty(toks: Seq<Tok>) -> bool {
    forall|i: int| 0 <= i < toks.len() ==> (#[trigger] toks[i]).text.len() > 0
}

/// The texts of the tokens from the `n`-th on, one after the other.
pub open spec fn texts_from(toks: Seq<Tok>, n: int) -> Seq<u8>
    decreases toks.len() - n,
{
    if 0 <= n < toks.len() {
        toks[n].text + texts_from(toks, n + 1)
    } else {
        Seq::empty()
    }
}

/// The text that was read, or is still to be read.
pub open spec fn whole_text(s: State) -> Seq<u8> {
    tree_text(s.tree) + (if s.current is Some {
        s.text
    } else {
        Seq::empty()
    }) + texts_from(s.toks, s.pos)
}

/// The walk goes on from `a` to `b`, never leaves a node that was open at
/// `a`, and has entered `d` more in the end.
pub open spec fn nested(a: Seq<TreeEvent>, b: Seq<TreeEvent>, d: int) -> bool {
    &&& a.len() <= b.len()
    &&& b.take(a.len() as int) == a
    &&& open_nodes(b) == open_nodes(a) + d
    &&& forall|i: int|
        a.len() <= i <= b.len() ==> open_nodes(#[trigger] b.take(i)) >= open_nodes(a)
}

/// Every error lies in a text of the given length.
pub open spec fn errors_fit(errors: Seq<ErrorView>, size: int) -> bool {
    forall|i: int|
        0 <= i < errors.len() ==> 0 <= (#[trigger] errors[i]).start <= errors[i].end <= size
}

/// No error is the same as the one before it.
pub open spec fn errors_differ(errors: Seq<ErrorView>) -> bool {
    forall|i: int, j: int| 0 <= i && j == i + 1 && j < errors.len() ==> errors[i] != errors[j]
}

/// The messages that errors can have.
pub open spec fn known_message(message: Seq<char>) -> bool {
    ||| message == "unexpected token"@
    ||| message == "expected new line"@
    ||| message == "expected identifier"@
    ||| message == "unexpected \".\""@
    ||| message == "unexpected end of input"@
    ||| message == "unexpected EOF"@
    ||| message == "expected \"=\""@
    ||| message == "expected value"@
    ||| message == "invalid underscores"@
    ||| message == "zero-padded integers are not allowed"@
    ||| message == "invalid character in comment"@
    ||| message == "invalid character in string"@
    ||| message == "invalid control character in string literal"@
    ||| message == "invalid escape sequence"@
    ||| message == "unexpected \",\""@
    ||| message == "expected \",\""@
    ||| message == "expected value, trailing comma is not allowed"@
    ||| message == "newline is not allowed in an inline table"@
    ||| message == "expected \"[\""@
    ||| message == "expected \"]\""@
    ||| message == "expected \"[[\""@
    ||| message == "expected \"]]\""@
    ||| message == "expected \"{\""@
}

/// Every error has one of the messages that errors can have.
pub open spec fn errors_known(errors: Seq<ErrorView>) -> bool {
    forall|i: int| 0 <= i < errors.len() ==> #[trigger] known_message(errors[i].message)
}

/// A state that a parse can be in.
pub open spec fn valid(s: State) -> bool {
    &&& tiled(s.toks)
    &&& 0 <= s.pos <= s.toks.len()
    &&& 0 <= s.start
    &&& s.end() == end_of(s.toks, s.pos)
    &&& s.current is Some ==> {
        &&& s.pos > 0
        &&& s.text == s.toks[s.pos - 1].text
        &&& s.current == Some(s.toks[s.pos - 1].kind)
        &&& s.skip_whitespace ==> !is_trivia(s.current->0)
    }
    &&& s.whitelist == 0 || s.whitelist == 1 || s.whitelist == 5
    &&& errors_fit(s.errors, s.end())
    &&& errors_differ(s.errors)
    &&& errors_known(s.errors)
}

/// The parse goes on from `a` to `b` and loses nothing.
pub open spec fn keeps(a: State, b: State) -> bool {
    &&& b.toks == a.toks
    &&& b.skip_whitespace == a.skip_whitespace
    &&& a.pos <= b.pos
    &&& b.left() <= a.left()
    &&& b.whitelist == a.whitelist || b.whitelist == 0
    &&& valid(b)
    &&& whole_text(b) == whole_text(a)
    &&& nested(a.tree, b.tree, 0)
    &&& a.errors.is_prefix_of(b.errors)
}

/// What a walk adds to another one is added to its text and to its nodes.
pub proof fn lemma_walk_push(a: Seq<TreeEvent>, e: TreeEvent)
    ensures
        tree_text(a.push(e)) == tree_text(a) + (match e {
            TreeEvent::Token { text, .. } => text,
            _ => Seq::empty(),
        }),
        open_nodes(a.push(e)) == open_nodes(a) + (match e {
            TreeEvent::Open { .. } => 1int,
            TreeEvent::Token { .. } => 0int,
            TreeEvent::Close => -1int,
        }),
{
    assert(a.push(e).drop_last() =~= a);
}

pub proof fn lemma_nested_refl(a: Seq<TreeEvent>)
    ensures
        nested(a, a, 0),
{
    assert(a.take(a.len() as int) =~= a);
}

pub proof fn lemma_nested_push(a: Seq<TreeEvent>, b: Seq<TreeEvent>, d: int, e: TreeEvent)
    requires
        nested(a, b, d),
        e is Close ==> d > 0,
        d >= 0,
    ensures
        nested(
            a,
            b.push(e),
            d + (match e {
                TreeEvent::Open { .. } => 1int,
                TreeEvent::Token { .. } => 0int,
                TreeEvent::Close => -1int,
            }),
        ),
{
    let c = b.push(e);
    lemma_walk_push(b, e);
    assert(c.take(a.len() as int) =~= b.take(a.len() as int));
    assert forall|i: int| a.len() <= i <= c.len() implies open_nodes(#[trigger] c.take(i))
        >= open_nodes(a) by {
        if i <= b.len() {
            assert(c.take(i) =~= b.take(i));
        } else {
            assert(c.take(i) =~= c);
        }
    }
}

pub proof fn lemma_nested_trans(
    a: Seq<TreeEvent>,
    b: Seq<TreeEvent>,
    c: Seq<TreeEvent>,
    d: int,
)
    requires
        nested(a, b, d),
        nested(b, c, 0),
        d >= 0,
    ensures
        nested(a, c, d),
{
    assert(c.take(a.len() as int) =~= b.take(a.len() as int)) by {
        assert(c.take(b.len() as int).take(a.len() as int) =~= c.take(a.len() as int));
    }
    assert forall|i: int| a.len() <= i <= c.len() implies open_nodes(#[trigger] c.take(i))
        >= open_nodes(a) by {
        if i <= b.len() {
            assert(c.take(b.len() as int).take(i) =~= c.take(i));
            assert(c.take(i) == b.take(i));
        }
    }
}

pub proof fn lemma_keeps_refl(s: State)
    requires
        valid(s),
    ensures
        keeps(s, s),
{
    lemma_nested_refl(s.tree);
}

pub proof fn lemma_keeps_trans(a: State, b: State, c: State)
    requires
        keeps(a, b),
        keeps(b, c),
    ensures
        keeps(a, c),
{
    lemma_nested_trans(a.tree, b.tree, c.tree, 0);
    assert forall|i: int| 0 <= i < a.errors.len() implies a.errors[i] == c.errors[i] by {
        assert(a.errors[i] == b.errors[i]);
        assert(b.errors[i] == c.errors[i]);
    }
}

proof fn lemma_push_error(errors: Seq<ErrorView>, e: ErrorView, size: int)
    requires
        errors_fit(errors, size),
        errors_differ(errors),
        errors_known(errors),
        0 <= e.start <= e.end <= size,
        known_message(e.message),
    ensures
        errors_fit(push_error(errors, e), size),
        errors_differ(push_error(errors, e)),
        errors_known(push_error(errors, e)),
        errors.is_prefix_of(push_error(errors, e)),
{
}

proof fn lemma_push_errors_at(
    errors: Seq<ErrorView>,
    start: int,
    offsets: Seq<int>,
    message: Seq<char>,
    size: int,
)
    requires
        errors_fit(errors, size),
        errors_differ(errors),
        errors_known(errors),
        forall|i: int| 0 <= i < offsets.len() ==> 0 <= start + #[trigger] offsets[i] <= size,
        known_message(message),
    ensures
        errors_fit(push_errors_at(errors, start, offsets, message), size),
        errors_differ(push_errors_at(errors, start, offsets, message)),
        errors_known(push_errors_at(errors, start, offsets, message)),
        errors.is_prefix_of(push_errors_at(errors, start, offsets, message)),
    decreases offsets.len(),
{
    if offsets.len() > 0 {
        let front = offsets.drop_last();
        assert forall|i: int| 0 <= i < front.len() implies 0 <= start + #[trigger] front[i]
            <= size by {
            assert(front[i] == offsets[i]);
        }
        lemma_push_errors_at(errors, start, front, message, size);
        let at = start + offsets.last();
        let before = push_errors_at(errors, start, front, message);
        let e = ErrorView { start: at, end: at, message };
        lemma_push_error(before, e, size);
        let after = push_error(before, e);
        assert forall|i: int| 0 <= i < errors.len() implies errors[i] == after[i] by {
            assert(errors[i] == before[i]);
            assert(before[i] == after[i]);
        }
    }
}

pub proof fn lemma_keeps_report(s: State, message: Seq<char>)
    requires
        valid(s),
        known_message(message),
    ensures
        keeps(s, s.report(message)),
{
    lemma_nested_refl(s.tree);
    lemma_push_error(
        s.errors,
        ErrorView { start: s.start, end: s.end(), message },
        s.end(),
    );
}

pub proof fn lemma_keeps_report_at(s: State, offsets: Seq<int>, message: Seq<char>)
    requires
        valid(s),
        known_message(message),
        forall|i: int| 0 <= i < offsets.len() ==> 0 <= #[trigger] offsets[i] < s.text.len(),
    ensures
        keeps(s, s.report_at(offsets, message)),
{
    lemma_nested_refl(s.tree);
    lemma_push_errors_at(s.errors, s.start, offsets, message, s.end());
}

/// The current token is put into the tree.
proof fn lemma_keeps_emit(s: State, kind: SyntaxKind)
    requires
        valid(s),
        s.current is Some,
    ensures
        keeps(s, State { current: None, ..s.emit(kind, s.text) }),
{
    let e = TreeEvent::Token { kind: kind.number(), text: s.text };
    lemma_nested_refl(s.tree);
    lemma_nested_push(s.tree, s.tree, 0, e);
    lemma_walk_push(s.tree, e);
    let t = State { current: None, ..s.emit(kind, s.text) };
    assert(whole_text(t) =~= whole_text(s));
}

/// The lexer hands out a token that matters, which becomes the current one.
proof fn lemma_keeps_next(s: State)
    requires
        valid(s),
        s.current is None,
        s.pos < s.toks.len(),
        s.skip_whitespace ==> !is_trivia(s.toks[s.pos].kind),
    ensures
        keeps(s, State { current: Some(s.toks[s.pos].kind), ..s.next() }),
{
    let t = State { current: Some(s.toks[s.pos].kind), ..s.next() };
    lemma_nested_refl(s.tree);
    assert(s.toks[s.pos].start == end_of(s.toks, s.pos));
    assert(end_of(s.toks, s.pos + 1) == t.end());
    assert(whole_text(t) =~= whole_text(s));
}

/// The lexer hands out a token, which is put into the tree.
proof fn lemma_keeps_skip(s: State, kind: SyntaxKind)
    requires
        valid(s),
        s.current is None,
        s.pos < s.toks.len(),
    ensures
        keeps(s, s.next().emit(kind, s.toks[s.pos].text)),
{
    let e = TreeEvent::Token { kind: kind.number(), text: s.toks[s.pos].text };
    let t = s.next().emit(kind, s.toks[s.pos].text);
    lemma_nested_refl(s.tree);
    lemma_nested_push(s.tree, s.tree, 0, e);
    lemma_walk_push(s.tree, e);
    assert(s.toks[s.pos].start == end_of(s.toks, s.pos));
    assert(end_of(s.toks, s.pos + 1) == t.end());
    assert(whole_text(t) =~= whole_text(s));
}

pub proof fn lemma_keeps_step(s: State)
    requires
        valid(State { current: None, ..s }),
    ensures
        keeps(State { current: None, ..s }, s.step()),
    decreases s.toks.len() - s.pos,
{
    let s0 = State { current: None, ..s };
    let n = s0.next();
    if s.pos >= s.toks.len() {
        lemma_nested_refl(s.tree);
    } else {
        let kind = s.toks[s.pos].kind;
        let e = n.emit(kind, n.text);
        lemma_keeps_skip(s0, kind);
        if kind == SyntaxKind::COMMENT {
            let offsets = forbidden_offsets(n.text, false);
            let message = "invalid character in comment"@;
            lemma_forbidden_offsets_in_text(n.text, false);
            lemma_keeps_report_at(e, offsets, message);
            let r = e.report_at(offsets, message);
            assert(r == n.report_at(offsets, message).emit(kind, n.text));
            lemma_keeps_step(r);
            lemma_keeps_trans(s0, e, r);
            lemma_keeps_trans(s0, r, r.step());
        } else if kind == SyntaxKind::WHITESPACE && s.skip_whitespace {
            lemma_keeps_step(e);
            lemma_keeps_trans(s0, e, e.step());
        } else if kind == SyntaxKind::ERROR {
            lemma_keeps_report(e, "unexpected token"@);
            let r = e.report("unexpected token"@);
            lemma_keeps_step(r);
            lemma_keeps_trans(s0, e, r);
            lemma_keeps_trans(s0, r, r.step());
        } else {
            lemma_keeps_next(s0);
        }
    }
}

pub proof fn lemma_keeps_peek(s: State)
    requires
        valid(s),
    ensures
        keeps(s, s.peek()),
{
    if s.current is None {
        assert(State { current: None, ..s } == s);
        lemma_keeps_step(s);
    } else {
        lemma_keeps_refl(s);
    }
}

pub proof fn lemma_keeps_token_as(s: State, kind: SyntaxKind)
    requires
        valid(s),
    ensures
        keeps(s, s.token_as(kind).0),
{
    lemma_keeps_peek(s);
    let p = s.peek();
    if p.current is Some {
        let e = p.emit(kind, p.text);
        lemma_keeps_emit(p, kind);
        lemma_keeps_step(e);
        lemma_keeps_trans(s, p, State { current: None, ..e });
        lemma_keeps_trans(s, State { current: None, ..e }, e.step());
    }
}

pub proof fn lemma_keeps_token(s: State)
    requires
        valid(s),
    ensures
        keeps(s, s.token().0),
{
    lemma_keeps_peek(s);
    let p = s.peek();
    if p.current is Some {
        lemma_keeps_token_as(p, p.current->0);
        lemma_keeps_trans(s, p, p.token_as(p.current->0).0);
    }
}

pub proof fn lemma_keeps_error(s: State, message: Seq<char>)
    requires
        valid(s),
        known_message(message),
    ensures
        keeps(s, s.error(message)),
        s.error(message).whitelist == s.whitelist,
{
    lemma_error(s, message);
    lemma_keeps_report(s, message);
    let r = s.report(message);
    lemma_keeps_token_as(r, SyntaxKind::ERROR);
    lemma_keeps_trans(s, r, r.token_as(SyntaxKind::ERROR).0);
}

pub proof fn lemma_keeps_expect(s: State, kind: SyntaxKind, message: Seq<char>)
    requires
        valid(s),
        known_message(message),
    ensures
        keeps(s, s.expect(kind, message).0),
{
    lemma_keeps_peek(s);
    let p = s.peek();
    lemma_keeps_token(p);
    lemma_keeps_error(p, message);
    lemma_keeps_report(p, "unexpected EOF"@);
    lemma_keeps_trans(s, p, p.token().0);
    lemma_keeps_trans(s, p, p.error(message));
    lemma_keeps_trans(s, p, p.report("unexpected EOF"@));
}

proof fn lemma_last_period(text: Seq<u8>)
    ensures
        -1 <= last_period(text) < text.len(),
        last_period(text) >= 0 ==> text[last_period(text)] == 0x2e,
    decreases text.len(),
{
    if text.len() > 0 && text.last() != 0x2e {
        lemma_last_period(text.drop_last());
    }
}

/// The walk over the parts of a text has just that text.
pub proof fn lemma_dotted(a: Seq<TreeEvent>, text: Seq<u8>)
    ensures
        tree_text(a + dotted(text)) == tree_text(a) + text,
        nested(a, a + dotted(text), 0),
    decreases text.len(),
{
    lemma_last_period(text);
    let at = last_period(text);
    let part_text = text.subrange(at + 1, text.len() as int);
    let part = TreeEvent::Token { kind: SyntaxKind::IDENT.number(), text: part_text };
    if at >= 0 {
        let front = text.take(at);
        let period = TreeEvent::Token { kind: SyntaxKind::PERIOD.number(), text: seq![0x2eu8] };
        lemma_dotted(a, front);
        let b = a + dotted(front);
        lemma_walk_push(b, period);
        lemma_nested_push(a, b, 0, period);
        lemma_walk_push(b.push(period), part);
        lemma_nested_push(a, b.push(period), 0, part);
        assert(a + dotted(text) =~= b.push(period).push(part));
        assert(tree_text(a) + front + seq![0x2eu8] + part_text =~= tree_text(a) + text);
    } else {
        lemma_nested_refl(a);
        lemma_walk_push(a, part);
        lemma_nested_push(a, a, 0, part);
        assert(a + dotted(text) =~= a.push(part));
        assert(part_text =~= text);
    }
}

pub proof fn lemma_keeps_ident(s: State)
    requires
        valid(s),
    ensures
        keeps(s, s.ident().0),
{
    lemma_keeps_peek(s);
    let p = s.peek();
    if p.current is Some {
        let t = p.current->0;
        if t == SyntaxKind::IDENT {
            lemma_keeps_token(p);
        } else if t == SyntaxKind::INTEGER {
            lemma_keeps_token_as(p, SyntaxKind::IDENT);
        } else if t == SyntaxKind::STRING_LITERAL {
            let offsets = forbidden_offsets(p.text, false);
            let message = "invalid control character in string literal"@;
            lemma_forbidden_offsets_in_text(p.text, false);
            lemma_keeps_report_at(p, offsets, message);
            let r = p.report_at(offsets, message);
            lemma_keeps_token_as(r, SyntaxKind::IDENT);
            lemma_keeps_trans(p, r, r.token_as(SyntaxKind::IDENT).0);
        } else if t == SyntaxKind::STRING {
            lemma_keeps_string_reports(p, false);
            let r = p.report_at(
                forbidden_offsets(p.text, false),
                "invalid character in string"@,
            ).report_at(escape_errors(p.text, 0), "invalid escape sequence"@);
            lemma_keeps_token_as(r, SyntaxKind::IDENT);
            lemma_keeps_trans(p, r, r.token_as(SyntaxKind::IDENT).0);
        } else if t == SyntaxKind::FLOAT {
            let d = State { tree: p.tree + dotted(p.text), ..p };
            let d0 = State { current: None, ..d };
            lemma_dotted(p.tree, p.text);
            assert(whole_text(d0) =~= whole_text(p));
            assert(keeps(p, d0));
            lemma_keeps_step(d);
            lemma_keeps_trans(p, d0, d.step());
        } else {
            lemma_keeps_error(p, "expected identifier"@);
        }
        lemma_keeps_refl(p);
        lemma_keeps_trans(s, p, s.ident().0);
    }
}

/// The reports on the text of a string.
pub proof fn lemma_keeps_string_reports(s: State, multi_line: bool)
    requires
        valid(s),
    ensures
        keeps(
            s,
            s.report_at(
                forbidden_offsets(s.text, multi_line),
                "invalid character in string"@,
            ).report_at(escape_errors(s.text, 0), "invalid escape sequence"@),
        ),
{
    let offsets = forbidden_offsets(s.text, multi_line);
    lemma_forbidden_offsets_in_text(s.text, multi_line);
    lemma_keeps_report_at(s, offsets, "invalid character in string"@);
    let r = s.report_at(offsets, "invalid character in string"@);
    lemma_escape_errors_in_text(s.text, 0);
    lemma_keeps_report_at(r, escape_errors(s.text, 0), "invalid escape sequence"@);
    lemma_keeps_trans(
        s,
        r,
        r.report_at(escape_errors(s.text, 0), "invalid escape sequence"@),
    );
}

pub proof fn lemma_keeps_key_rest(s: State, after_period: bool)
    requires
        valid(s),
    ensures
        keeps(s, s.key_rest(after_period).0),
    decreases s.left(),
{
    lemma_keeps_peek(s);
    lemma_peek(s);
    let p = s.peek();
    lemma_keeps_refl(p);
    let r = s.key_rest(after_period).0;
    if p.current is None {
        lemma_keeps_error(p, "unexpected end of input"@);
    } else if p.current->0 == SyntaxKind::PERIOD {
        if after_period {
            lemma_keeps_error(p, "unexpected \".\""@);
        } else {
            lemma_keeps_token(p);
            lemma_token(p);
            lemma_keeps_key_rest(p.token().0, true);
            lemma_keeps_trans(p, p.token().0, r);
        }
    } else if after_period {
        lemma_keeps_ident(p);
        lemma_ident(p);
        let i = p.ident().0;
        if p.ident().1 {
            lemma_keeps_key_rest(i, false);
        } else {
            lemma_keeps_error(i, "expected identifier"@);
        }
        lemma_keeps_trans(p, i, r);
    }
    lemma_keeps_trans(s, p, r);
}

pub proof fn lemma_keeps_key(s: State)
    requires
        valid(s),
    ensures
        keeps(s, s.key().0),
{
    lemma_keeps_ident(s);
    let i = s.ident().0;
    if s.ident().1 {
        lemma_keeps_key_rest(i, false);
    } else {
        lemma_keeps_error(i, "expected identifier"@);
    }
    lemma_keeps_trans(s, i, s.key().0);
}

/// A node around what keeps everything keeps everything.
pub proof fn lemma_keeps_node(s: State, kind: SyntaxKind, t: State)
    requires
        valid(s),
        valid(s.open(kind)) ==> keeps(s.open(kind), t),
    ensures
        valid(s.open(kind)),
        whole_text(s.open(kind)) == whole_text(s),
        keeps(s, t.close()),
{
    let o = s.open(kind);
    let e = TreeEvent::Open { kind: kind.number() };
    lemma_walk_push(s.tree, e);
    assert(whole_text(o) =~= whole_text(s));
    lemma_nested_refl(s.tree);
    lemma_nested_push(s.tree, s.tree, 0, e);
    lemma_nested_trans(s.tree, o.tree, t.tree, 1);
    lemma_walk_push(t.tree, TreeEvent::Close);
    lemma_nested_push(s.tree, t.tree, 1, TreeEvent::Close);
    assert(whole_text(t.close()) =~= whole_text(t));
}

/// The numbers that whitelists are made of.
pub proof fn lemma_whitelist_bits()
    ensures
        0u16 | 5u16 == 5u16,
        1u16 | 5u16 == 5u16,
        5u16 | 5u16 == 5u16,
        5u16 & !5u16 == 0u16,
        0u16 & !5u16 == 0u16,
        0u16 | 1u16 == 1u16,
        1u16 & !1u16 == 0u16,
        0u16 & !1u16 == 0u16,
        1u16 & 1u16 != 0u16,
        5u16 & 1u16 != 0u16,
        forall|n: u16| 0u16 & n == 0u16,
{
    assert(0u16 | 5u16 == 5u16 && 1u16 | 5u16 == 5u16 && 5u16 | 5u16 == 5u16 && 5u16 & !5u16
        == 0u16 && 0u16 & !5u16 == 0u16 && 0u16 | 1u16 == 1u16 && 1u16 & !1u16 == 0u16 && 0u16
        & !1u16 == 0u16 && 1u16 & 1u16 != 0u16 && 5u16 & 1u16 != 0u16) by (bit_vector);
    assert(forall|n: u16| 0u16 & n == 0u16) by (bit_vector);
}

/// A comma is whitelisted for as long as `t` is parsed.
pub proof fn lemma_keeps_allowing_comma(s: State, t: State)
    requires
        valid(s),
        valid(s.allow(SyntaxKind::COMMA)) ==> keeps(s.allow(SyntaxKind::COMMA), t),
    ensures
        valid(s.allow(SyntaxKind::COMMA)),
        keeps(s, t.disallow(SyntaxKind::COMMA)),
        t.disallow(SyntaxKind::COMMA).whitelist == 0,
{
    lemma_whitelist_bits();
    let a = s.allow(SyntaxKind::COMMA);
    assert(whole_text(a) == whole_text(s));
    assert(whole_text(t.disallow(SyntaxKind::COMMA)) == whole_text(t));
}

/// A line break is whitelisted for as long as `t` is parsed.
pub proof fn lemma_keeps_allowing_newline(s: State, t: State)
    requires
        valid(s),
        s.whitelist == 0,
        valid(s.allow(SyntaxKind::NEWLINE)) ==> keeps(s.allow(SyntaxKind::NEWLINE), t),
    ensures
        valid(s.allow(SyntaxKind::NEWLINE)),
        keeps(s, t.disallow(SyntaxKind::NEWLINE)),
        t.disallow(SyntaxKind::NEWLINE).whitelist == 0,
{
    lemma_whitelist_bits();
    let a = s.allow(SyntaxKind::NEWLINE);
    assert(whole_text(a) == whole_text(s));
    assert(whole_text(t.disallow(SyntaxKind::NEWLINE)) == whole_text(t));
}

/// A loop over the parts of an array or of a table can stand still once: it
/// is at its first part or behind a comma, or errors consume every token.
pub open spec fn moves(s: State, may_stay: bool) -> bool {
    may_stay || s.whitelist == 0
}

pub proof fn lemma_keeps_value(s: State)
    requires
        valid(s),
    ensures
        keeps(s, s.value().0),
    decreases s.left(), 5int,
{
    lemma_keeps_peek(s);
    lemma_peek(s);
    let p = s.peek();
    if p.current is None {
        lemma_keeps_error(p, "expected value"@);
    } else {
        match p.current->0 {
            SyntaxKind::BOOL | SyntaxKind::DATE => {
                lemma_keeps_token(p);
            },
            SyntaxKind::INTEGER_BIN
            | SyntaxKind::INTEGER_HEX
            | SyntaxKind::INTEGER_OCT
            | SyntaxKind::FLOAT => {
                lemma_keeps_token(p);
                lemma_keeps_error(p, "invalid underscores"@);
            },
            SyntaxKind::STRING_LITERAL => {
                let offsets = forbidden_offsets(p.text, false);
                let message = "invalid control character in string literal"@;
                lemma_forbidden_offsets_in_text(p.text, false);
                lemma_keeps_report_at(p, offsets, message);
                let r = p.report_at(offsets, message);
                lemma_keeps_token(r);
                lemma_keeps_trans(p, r, r.token().0);
            },
            SyntaxKind::MULTI_LINE_STRING_LITERAL => {
                let offsets = forbidden_offsets(p.text, true);
                let message = "invalid character in string"@;
                lemma_forbidden_offsets_in_text(p.text, true);
                lemma_keeps_report_at(p, offsets, message);
                let r = p.report_at(offsets, message);
                lemma_keeps_token(r);
                lemma_keeps_trans(p, r, r.token().0);
            },
            SyntaxKind::STRING => {
                lemma_keeps_string_value(p, false);
            },
            SyntaxKind::MULTI_LINE_STRING => {
                lemma_keeps_string_value(p, true);
            },
            SyntaxKind::INTEGER => {
                lemma_keeps_token(p);
                lemma_keeps_error(p, "invalid underscores"@);
                lemma_keeps_error(p, "zero-padded integers are not allowed"@);
            },
            SyntaxKind::BRACKET_START => {
                let o = p.open(SyntaxKind::ARRAY);
                if valid(o) {
                    lemma_keeps_array(o);
                }
                lemma_keeps_node(p, SyntaxKind::ARRAY, o.array().0);
            },
            SyntaxKind::BRACE_START => {
                let o = p.open(SyntaxKind::INLINE_TABLE);
                if valid(o) {
                    lemma_keeps_inline_table(o);
                }
                lemma_keeps_node(p, SyntaxKind::INLINE_TABLE, o.inline_table().0);
            },
            _ => {
                lemma_keeps_error(p, "expected value"@);
            },
        }
    }
    lemma_keeps_trans(s, p, s.value().0);
}

proof fn lemma_keeps_string_value(s: State, multi_line: bool)
    requires
        valid(s),
    ensures
        keeps(
            s,
            s.report_at(
                forbidden_offsets(s.text, multi_line),
                "invalid character in string"@,
            ).report_at(escape_errors(s.text, 0), "invalid escape sequence"@).token().0,
        ),
{
    lemma_keeps_string_reports(s, multi_line);
    let r = s.report_at(
        forbidden_offsets(s.text, multi_line),
        "invalid character in string"@,
    ).report_at(escape_errors(s.text, 0), "invalid escape sequence"@);
    lemma_keeps_token(r);
    lemma_keeps_trans(s, r, r.token().0);
}

pub proof fn lemma_keeps_array(s: State)
    requires
        valid(s),
    ensures
        keeps(s, s.array().0),
    decreases s.left(), 4int,
{
    let message = "expected \"[\""@;
    lemma_keeps_expect(s, SyntaxKind::BRACKET_START, message);
    lemma_expect(s, SyntaxKind::BRACKET_START, message);
    let r = s.expect(SyntaxKind::BRACKET_START, message);
    if r.1 {
        lemma_keeps_array_rest(r.0, true, false);
        lemma_keeps_trans(s, r.0, s.array().0);
    }
}

pub proof fn lemma_keeps_array_rest(s: State, first: bool, comma_last: bool)
    requires
        valid(s),
        moves(s, first || comma_last),
    ensures
        keeps(s, s.array_rest(first, comma_last).0),
    decreases
            s.left(),
            if first || comma_last {
                11int
            } else {
                10int
            },
{
    lemma_keeps_peek(s);
    lemma_peek(s);
    let p = s.peek();
    let result = s.array_rest(first, comma_last).0;
    if p.current is None {
        lemma_keeps_refl(p);
    } else {
        let t = p.current->0;
        if t == SyntaxKind::BRACKET_END {
            lemma_keeps_token(p);
        } else if t == SyntaxKind::NEWLINE {
            lemma_keeps_token(p);
            lemma_token(p);
            let r = p.token();
            lemma_keeps_array_rest(r.0, first, comma_last);
            lemma_keeps_trans(p, r.0, result);
        } else if t == SyntaxKind::COMMA {
            lemma_keeps_refl(p);
            lemma_keeps_error(p, "unexpected \",\""@);
            lemma_error(p, "unexpected \",\""@);
            let s1 = if first || comma_last {
                p.error("unexpected \",\""@)
            } else {
                p
            };
            lemma_keeps_token(s1);
            lemma_token(s1);
            let r = s1.token();
            lemma_keeps_trans(p, s1, r.0);
            if r.1 {
                lemma_keeps_array_rest(r.0, false, true);
                lemma_keeps_trans(p, r.0, result);
            }
        } else {
            lemma_keeps_array_element(p, first || comma_last);
            let s2 = p.array_element(first || comma_last);
            lemma_keeps_array_rest(s2, false, false);
            lemma_keeps_trans(p, s2, result);
        }
    }
    lemma_keeps_trans(s, p, result);
}

pub proof fn lemma_keeps_array_element(s: State, in_place: bool)
    requires
        valid(s),
        s.current is Some,
        moves(s, in_place),
    ensures
        keeps(s, s.array_element(in_place)),
        s.array_element(in_place).whitelist == 0,
        s.goes_on(s.array_element(in_place), in_place),
    decreases s.left(), 9int,
{
    let s1 = if in_place {
        s
    } else {
        s.error("expected \",\""@)
    };
    lemma_keeps_refl(s);
    lemma_keeps_error(s, "expected \",\""@);
    lemma_error(s, "expected \",\""@);
    lemma_whitelist_bits();
    let a = s1.allow(SyntaxKind::COMMA);
    let o = a.open(SyntaxKind::VALUE);
    if valid(a) {
        if valid(o) {
            lemma_keeps_value(o);
        }
        lemma_keeps_node(a, SyntaxKind::VALUE, o.value().0);
    }
    lemma_keeps_allowing_comma(s1, o.value().0.close());
    lemma_keeps_trans(s, s1, s.array_element(in_place));
}

pub proof fn lemma_keeps_inline_table(s: State)
    requires
        valid(s),
    ensures
        keeps(s, s.inline_table().0),
    decreases s.left(), 4int,
{
    let message = "expected \"{\""@;
    lemma_keeps_expect(s, SyntaxKind::BRACE_START, message);
    lemma_expect(s, SyntaxKind::BRACE_START, message);
    let r = s.expect(SyntaxKind::BRACE_START, message);
    if r.1 {
        lemma_keeps_table_rest(r.0, true, false, false);
        lemma_keeps_trans(s, r.0, s.inline_table().0);
    }
}

/// The same for an inline table, in which a line break that errors do not
/// consume ends the loop when it is met again.
pub open spec fn table_moves(s: State, may_stay: bool, was_newline: bool) -> bool {
    ||| moves(s, may_stay)
    ||| was_newline && s.current == Some(SyntaxKind::NEWLINE)
}

pub proof fn lemma_keeps_table_rest(
    s: State,
    first: bool,
    comma_last: bool,
    was_newline: bool,
)
    requires
        valid(s),
        table_moves(s, first || comma_last, was_newline),
    ensures
        keeps(s, s.table_rest(first, comma_last, was_newline).0),
    decreases
            s.left(),
            10 + (if first {
                4int
            } else {
                0int
            }) + (if comma_last {
                2int
            } else {
                0int
            }) + (if was_newline {
                0int
            } else {
                1int
            }),
{
    lemma_keeps_peek(s);
    lemma_peek(s);
    let p = s.peek();
    let result = s.table_rest(first, comma_last, was_newline).0;
    lemma_keeps_refl(p);
    if p.current is Some {
        let t = p.current->0;
        if t == SyntaxKind::BRACE_END {
            let message = "expected value, trailing comma is not allowed"@;
            lemma_keeps_token(p);
            lemma_keeps_report(p, message);
            lemma_keeps_token(p.report(message));
            lemma_keeps_trans(p, p.report(message), p.report(message).token().0);
        } else if t == SyntaxKind::NEWLINE {
            if !was_newline {
                let message = "newline is not allowed in an inline table"@;
                lemma_keeps_error(p, message);
                lemma_error(p, message);
                lemma_whitelist_bits();
                let e = p.error(message);
                lemma_keeps_table_rest(e, false, comma_last, true);
                lemma_keeps_trans(p, e, result);
            }
        } else if t == SyntaxKind::COMMA {
            if first {
                lemma_keeps_error(p, "unexpected \",\""@);
                lemma_error(p, "unexpected \",\""@);
                let e = p.error("unexpected \",\""@);
                lemma_keeps_table_rest(e, false, true, false);
                lemma_keeps_trans(p, e, result);
            } else {
                lemma_keeps_token(p);
                lemma_token(p);
                let r = p.token();
                lemma_keeps_table_rest(r.0, false, true, false);
                lemma_keeps_trans(p, r.0, result);
            }
        } else {
            lemma_keeps_table_element(p, first || comma_last);
            let s2 = p.table_element(first || comma_last);
            lemma_keeps_table_rest(s2, false, false, false);
            lemma_keeps_trans(p, s2, result);
        }
    }
    lemma_keeps_trans(s, p, result);
}

pub proof fn lemma_keeps_table_element(s: State, in_place: bool)
    requires
        valid(s),
        s.current is Some,
        moves(s, in_place),
    ensures
        keeps(s, s.table_element(in_place)),
        s.table_element(in_place).whitelist == 0,
        s.goes_on(s.table_element(in_place), in_place),
    decreases s.left(), 9int,
{
    let s1 = if in_place {
        s
    } else {
        s.error("expected \",\""@)
    };
    lemma_keeps_refl(s);
    lemma_keeps_error(s, "expected \",\""@);
    lemma_error(s, "expected \",\""@);
    lemma_whitelist_bits();
    let a = s1.allow(SyntaxKind::COMMA);
    let o = a.open(SyntaxKind::ENTRY);
    if valid(a) {
        if valid(o) {
            lemma_keeps_entry(o);
        }
        lemma_keeps_node(a, SyntaxKind::ENTRY, o.entry().0);
    }
    lemma_keeps_allowing_comma(s1, o.entry().0.close());
    lemma_keeps_trans(s, s1, s.table_element(in_place));
}

pub proof fn lemma_keeps_entry(s: State)
    requires
        valid(s),
    ensures
        keeps(s, s.entry().0),
    decreases s.left(), 6int,
{
    let o = s.open(SyntaxKind::KEY);
    let k = o.key();
    if valid(o) {
        lemma_keeps_key(o);
    }
    lemma_keeps_node(s, SyntaxKind::KEY, k.0);
    let c = k.0.close();
    if k.1 {
        lemma_keeps_expect(c, SyntaxKind::EQ, "expected \"=\""@);
        let r = c.expect(SyntaxKind::EQ, "expected \"=\""@);
        lemma_keeps_trans(s, c, r.0);
        if r.1 {
            let v = r.0.open(SyntaxKind::VALUE);
            if valid(v) {
                lemma_keeps_value(v);
            }
            lemma_keeps_node(r.0, SyntaxKind::VALUE, v.value().0);
            lemma_keeps_trans(s, r.0, s.entry().0);
        }
    }
}

pub proof fn lemma_keeps_table_header(s: State)
    requires
        valid(s),
    ensures
        keeps(s, s.table_header().0),
{
    lemma_keeps_expect(s, SyntaxKind::BRACKET_START, "expected \"[\""@);
    let r = s.expect(SyntaxKind::BRACKET_START, "expected \"[\""@);
    if r.1 {
        let c = lemma_keeps_key_node(r.0);
        lemma_keeps_expect(c, SyntaxKind::BRACKET_END, "expected \"]\""@);
        lemma_keeps_trans(s, r.0, c);
        lemma_keeps_trans(s, c, s.table_header().0);
    }
}

proof fn lemma_keeps_key_node(s: State) -> (c: State)
    requires
        valid(s),
    ensures
        c == s.open(SyntaxKind::KEY).key().0.close(),
        keeps(s, c),
{
    let o = s.open(SyntaxKind::KEY);
    if valid(o) {
        lemma_keeps_key(o);
    }
    lemma_keeps_node(s, SyntaxKind::KEY, o.key().0);
    o.key().0.close()
}

pub proof fn lemma_keeps_table_array_header(s: State)
    requires
        valid(s),
    ensures
        keeps(s, s.table_array_header().0),
{
    lemma_keeps_expect(s, SyntaxKind::BRACKET_START, "expected \"[[\""@);
    let r = s.expect(SyntaxKind::BRACKET_START, "expected \"[[\""@);
    if r.1 {
        lemma_keeps_expect(r.0, SyntaxKind::BRACKET_START, "expected \"[[\""@);
        let q = r.0.expect(SyntaxKind::BRACKET_START, "expected \"[[\""@);
        lemma_keeps_trans(s, r.0, q.0);
        if q.1 {
            let c = lemma_keeps_key_node(q.0);
            lemma_keeps_trans(s, q.0, c);
            lemma_keeps_expect(c, SyntaxKind::BRACKET_END, "expected \"]]\""@);
            let d = c.expect(SyntaxKind::BRACKET_END, "expected \"]]\""@).0;
            lemma_keeps_trans(s, c, d);
            lemma_keeps_expect(d, SyntaxKind::BRACKET_END, "expected \"]]\""@);
            lemma_keeps_trans(s, d, s.table_array_header().0);
        }
    }
}

pub proof fn lemma_keeps_header_line(s: State)
    requires
        valid(s),
        s.whitelist == 0,
    ensures
        keeps(s, s.header_line()),
        s.header_line().whitelist == 0,
{
    let a = s.allow(SyntaxKind::NEWLINE);
    if s.bracket_follows() {
        let o = a.open(SyntaxKind::TABLE_ARRAY_HEADER);
        let r = o.table_array_header().0;
        if valid(a) {
            if valid(o) {
                lemma_keeps_table_array_header(o);
            }
            lemma_keeps_node(a, SyntaxKind::TABLE_ARRAY_HEADER, r);
        }
        lemma_keeps_allowing_newline(s, r.close());
    } else {
        let o = a.open(SyntaxKind::TABLE_HEADER);
        let r = o.table_header().0;
        if valid(a) {
            if valid(o) {
                lemma_keeps_table_header(o);
            }
            lemma_keeps_node(a, SyntaxKind::TABLE_HEADER, r);
        }
        lemma_keeps_allowing_newline(s, r.close());
    }
}

/// An entry keeps everything from its open node on.
pub proof fn lemma_keeps_entry_line(s: State)
    requires
        valid(s),
        s.whitelist == 0,
    ensures
        valid(s.open(SyntaxKind::ENTRY)),
        whole_text(s.open(SyntaxKind::ENTRY)) == whole_text(s),
        keeps(s.open(SyntaxKind::ENTRY), s.entry_line()),
        s.entry_line().whitelist == 0,
{
    let o = s.open(SyntaxKind::ENTRY);
    lemma_walk_push(s.tree, TreeEvent::Open { kind: SyntaxKind::ENTRY.number() });
    assert(whole_text(o) =~= whole_text(s));
    let a = o.allow(SyntaxKind::NEWLINE);
    if valid(a) {
        lemma_keeps_entry(a);
    }
    lemma_keeps_allowing_newline(o, a.entry().0);
}

/// Parsing the lines of a document reads everything that is left, into the
/// nodes that were open at `base`.
pub proof fn lemma_keeps_lines(
    base: Seq<TreeEvent>,
    s: State,
    not_newline: bool,
    entry_started: bool,
)
    requires
        valid(s),
        s.whitelist == 0,
        nested(
            base,
            s.tree,
            if entry_started {
                1
            } else {
                0
            },
        ),
    ensures
        ({
            let r = s.lines(not_newline, entry_started);
            &&& r.toks == s.toks
            &&& valid(r)
            &&& r.current is None
            &&& r.pos == r.toks.len()
            &&& whole_text(r) == whole_text(s)
            &&& nested(base, r.tree, 0)
        }),
    decreases
            s.left(),
            if not_newline {
                0int
            } else {
                1int
            },
{
    lemma_keeps_peek(s);
    lemma_peek(s);
    let p = s.peek();
    let depth: int = if entry_started {
        1
    } else {
        0
    };
    lemma_nested_trans(base, s.tree, p.tree, depth);
    let c = lemma_close_entry(base, p, entry_started);
    if p.current is Some {
        let t = p.current->0;
        if t == SyntaxKind::NEWLINE {
            lemma_keeps_token(c);
            lemma_token(c);
            lemma_nested_trans(base, c.tree, c.token().0.tree, 0);
            lemma_keeps_lines(base, c.token().0, false, false);
        } else if t == SyntaxKind::BRACKET_START {
            lemma_keeps_error(c, "expected new line"@);
            lemma_error(c, "expected new line"@);
            lemma_whitelist_bits();
            lemma_keeps_header_line(c);
            let s2 = if not_newline {
                c.error("expected new line"@)
            } else {
                c.header_line()
            };
            lemma_nested_trans(base, c.tree, s2.tree, 0);
            lemma_keeps_lines(base, s2, true, false);
        } else if not_newline {
            lemma_keeps_error(p, "expected new line"@);
            lemma_error(p, "expected new line"@);
            lemma_whitelist_bits();
            let s2 = p.error("expected new line"@);
            lemma_nested_trans(base, p.tree, s2.tree, depth);
            lemma_keeps_lines(base, s2, true, entry_started);
        } else {
            lemma_keeps_entry_line(c);
            let o = c.open(SyntaxKind::ENTRY);
            let s2 = c.entry_line();
            lemma_nested_push(
                base,
                c.tree,
                0,
                TreeEvent::Open { kind: SyntaxKind::ENTRY.number() },
            );
            lemma_nested_trans(base, o.tree, s2.tree, 1);
            lemma_keeps_lines(base, s2, true, true);
        }
    }
}

proof fn lemma_close_entry(base: Seq<TreeEvent>, s: State, entry_started: bool) -> (c: State)
    requires
        valid(s),
        nested(
            base,
            s.tree,
            if entry_started {
                1
            } else {
                0
            },
        ),
    ensures
        c == s.close_entry(entry_started),
        valid(c),
        whole_text(c) == whole_text(s),
        nested(base, c.tree, 0),
{
    let c = s.close_entry(entry_started);
    if entry_started {
        lemma_walk_push(s.tree, TreeEvent::Close);
        lemma_nested_push(base, s.tree, 1, TreeEvent::Close);
        assert(whole_text(c) =~= whole_text(s));
    }
    c
}

} // verus!
