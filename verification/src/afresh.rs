//! What is parsed depends on what is still to be read, and on nothing that was
//! read before.

use vstd::prelude::*;

use crate::error::ErrorView;
use crate::laws::looking_twice_is_looking_once;
use crate::model::{
    document, dotted, lemma_error, lemma_expect, lemma_ident, lemma_key, lemma_peek, lemma_token,
    push_error, push_errors_at, State, Tok,
};
use crate::preserved::{
    end_of, errors_fit, lemma_keeps_entry_line, lemma_keeps_error, lemma_keeps_header_line,
    lemma_keeps_peek, lemma_keeps_table_array_header, lemma_keeps_table_header, lemma_walk_push,
    lemma_whitelist_bits, nested, texts_from, tiled, valid, whole_text,
};
use crate::syntax::SyntaxKind;
use crate::tree::{open_nodes, tree_text, TreeEvent};
use crate::under_root::line_breaks;
use crate::util::allowed_chars::forbidden_offsets;
use crate::util::escape::escape_errors;

verus! {

/// One list of errors behind another one, without the first of them where it
/// is the same as the one before it.
pub open spec fn join(a: Seq<ErrorView>, b: Seq<ErrorView>) -> Seq<ErrorView> {
    if a.len() > 0 && b.len() > 0 && a.last() == b[0] {
        a + b.skip(1)
    } else {
        a + b
    }
}

/// The same errors, further on in a text by `d`.
pub open spec fn shifted(errors: Seq<ErrorView>, d: int) -> Seq<ErrorView> {
    Seq::new(
        errors.len(),
        |i: int|
            ErrorView {
                start: errors[i].start + d,
                end: errors[i].end + d,
                message: errors[i].message,
            },
    )
}

/// The tokens from the `n`-th on, as those of a text of its own that starts at
/// the offset `d`.
pub open spec fn moved(toks: Seq<Tok>, n: int, d: int) -> Seq<Tok> {
    Seq::new(
        (toks.len() - n) as nat,
        |i: int|
            Tok {
                kind: toks[i + n].kind,
                start: toks[i + n].start - d,
                text: toks[i + n].text,
            },
    )
}

/// A state as if the first `n` tokens had never been, nor anything that became
/// of them.
pub open spec fn base(s: State, n: int, d: int) -> State {
    State {
        toks: moved(s.toks, n, d),
        pos: s.pos - n,
        start: s.start - d,
        tree: Seq::empty(),
        errors: Seq::empty(),
        ..s
    }
}

/// A state that was reached from the base of `s`, with what was left out of
/// that put back.
pub open spec fn lift(s: State, n: int, d: int, t: State) -> State {
    State {
        toks: s.toks,
        pos: t.pos + n,
        start: t.start + d,
        tree: s.tree + t.tree,
        errors: join(s.errors, shifted(t.errors, d)),
        ..t
    }
}

/// The first `n` tokens were read.
spec fn ok(s: State, n: int) -> bool {
    0 <= n <= s.toks.len() && n <= s.pos
}

/// From `s` the parser comes to `r`, as from the base of `s` to `r0`.
#[verifier::opaque]
spec fn local(s: State, n: int, d: int, r: State, r0: State) -> bool {
    &&& r == lift(s, n, d, r0)
    &&& r0.toks == moved(s.toks, n, d)
    &&& r0.pos >= 0
}

proof fn lemma_join(a: Seq<ErrorView>, b: Seq<ErrorView>, c: Seq<ErrorView>, d: int)
    ensures
        join(join(a, shifted(b, d)), shifted(c, d)) == join(a, shifted(join(b, shifted(c, 0)), d)),
{
    let x = shifted(b, d);
    let y = shifted(c, d);
    let z = join(b, shifted(c, 0));
    if c.len() == 0 {
        assert(join(join(a, x), y) =~= join(a, x));
        assert(z =~= b);
    } else if b.len() == 0 {
        assert(join(a, x) =~= a);
        assert(z =~= c);
    } else {
        let same = b.last() == c[0];
        assert(shifted(c, 0)[0] == c[0]);
        assert(same == (x.last() == y[0]));
        assert(join(a, x).last() == x.last());
        assert(shifted(z, d) =~= join(x, y));
        assert(join(join(a, x), y) =~= join(a, join(x, y)));
    }
}

proof fn lemma_join_push(a: Seq<ErrorView>, b: Seq<ErrorView>, e: ErrorView, d: int)
    ensures
        push_error(
            join(a, shifted(b, d)),
            (ErrorView { start: e.start + d, end: e.end + d, message: e.message }),
        ) == join(a, shifted(push_error(b, e), d)),
{
    let f = ErrorView { start: e.start + d, end: e.end + d, message: e.message };
    let x = shifted(b, d);
    if b.len() == 0 {
        assert(join(a, x) =~= a);
        assert(shifted(push_error(b, e), d) =~= seq![f]);
        assert(push_error(a, f) =~= join(a, seq![f]));
    } else {
        assert(x.last() == f <==> b.last() == e);
        assert(join(a, x).last() == x.last());
        if b.last() != e {
            assert(shifted(b.push(e), d) =~= x.push(f));
            assert(join(a, x).push(f) =~= join(a, x.push(f)));
        }
    }
}

proof fn lemma_join_offsets(
    a: Seq<ErrorView>,
    start: int,
    offsets: Seq<int>,
    message: Seq<char>,
    d: int,
)
    ensures
        push_errors_at(a, start + d, offsets, message) == join(
            a,
            shifted(push_errors_at(Seq::empty(), start, offsets, message), d),
        ),
    decreases offsets.len(),
{
    if offsets.len() == 0 {
        assert(join(a, shifted(Seq::empty(), d)) =~= a);
    } else {
        lemma_join_offsets(a, start, offsets.drop_last(), message, d);
        let at = start + offsets.last();
        lemma_join_push(
            a,
            push_errors_at(Seq::empty(), start, offsets.drop_last(), message),
            ErrorView { start: at, end: at, message },
            d,
        );
    }
}

/// What two runs see is the same, and so are their bases.
proof fn lemma_same(s: State, n: int, d: int, h: State, h0: State)
    requires
        ok(s, n),
        local(s, n, d, h, h0),
    ensures
        base(h, n, d) == base(h0, 0, 0),
        ok(h, n),
        ok(h0, 0),
        h.toks == s.toks,
        h.current == h0.current,
        h.text == h0.text,
        h.whitelist == h0.whitelist,
        h.skip_whitespace == h0.skip_whitespace,
        h.left() == h0.left(),
        h.bracket_follows() == h0.bracket_follows(),
{
    reveal(local);
    assert(moved(h0.toks, 0, 0) =~= h0.toks);
    assert(base(h, n, d) =~= base(h0, 0, 0));
}

/// One run behind another one.
proof fn lemma_then(
    s: State,
    n: int,
    d: int,
    h: State,
    h0: State,
    g: State,
    g0: State,
    gb: State,
)
    requires
        ok(s, n),
        local(s, n, d, h, h0),
        local(h, n, d, g, gb),
        local(h0, 0, 0, g0, gb),
    ensures
        local(s, n, d, g, g0),
{
    reveal(local);
    lemma_join(s.errors, h0.errors, gb.errors, d);
    assert(s.tree + h0.tree + gb.tree =~= s.tree + (h0.tree + gb.tree));
    assert(g =~= lift(s, n, d, g0));
}

/// Nothing happens.
proof fn lemma_l_stay(s: State, n: int, d: int)
    requires
        ok(s, n),
    ensures
        local(s, n, d, s, base(s, n, d)),
{
    reveal(local);
    assert(s.tree + Seq::<TreeEvent>::empty() =~= s.tree);
    assert(join(s.errors, shifted(Seq::empty(), d)) =~= s.errors);
    assert(s =~= lift(s, n, d, base(s, n, d)));
}

/// What touches the tree or the list of allowed kinds alone.
proof fn lemma_l_tree(s: State, n: int, d: int, more: Seq<TreeEvent>, whitelist: u16)
    requires
        ok(s, n),
    ensures
        local(
            s,
            n,
            d,
            State { tree: s.tree + more, whitelist, ..s },
            State { tree: base(s, n, d).tree + more, whitelist, ..base(s, n, d) },
        ),
{
    reveal(local);
    let b = base(s, n, d);
    assert(b.tree + more =~= more);
    assert(join(s.errors, shifted(Seq::empty(), d)) =~= s.errors);
    assert(State { tree: s.tree + more, whitelist, ..s } =~= lift(
        s,
        n,
        d,
        State { tree: b.tree + more, whitelist, ..b },
    ));
}

proof fn lemma_l_event(s: State, n: int, d: int, e: TreeEvent)
    requires
        ok(s, n),
    ensures
        local(
            s,
            n,
            d,
            State { tree: s.tree.push(e), ..s },
            State { tree: base(s, n, d).tree.push(e), ..base(s, n, d) },
        ),
{
    reveal(local);
    lemma_l_tree(s, n, d, seq![e], s.whitelist);
    assert(s.tree.push(e) =~= s.tree + seq![e]);
    assert(base(s, n, d).tree.push(e) =~= base(s, n, d).tree + seq![e]);
}

proof fn lemma_l_open(s: State, n: int, d: int, kind: SyntaxKind)
    requires
        ok(s, n),
    ensures
        local(s, n, d, s.open(kind), base(s, n, d).open(kind)),
{
    lemma_l_event(s, n, d, TreeEvent::Open { kind: kind.number() });
}

proof fn lemma_l_close(s: State, n: int, d: int)
    requires
        ok(s, n),
    ensures
        local(s, n, d, s.close(), base(s, n, d).close()),
{
    lemma_l_event(s, n, d, TreeEvent::Close);
}

proof fn lemma_l_allow(s: State, n: int, d: int, kind: SyntaxKind)
    requires
        ok(s, n),
    ensures
        local(s, n, d, s.allow(kind), base(s, n, d).allow(kind)),
        local(s, n, d, s.disallow(kind), base(s, n, d).disallow(kind)),
{
    reveal(local);
    let none = Seq::<TreeEvent>::empty();
    let b = base(s, n, d);
    assert(s.tree + none =~= s.tree);
    assert(b.tree + none =~= b.tree);
    lemma_l_tree(s, n, d, none, s.whitelist | kind.number());
    lemma_l_tree(s, n, d, none, s.whitelist & !kind.number());
}

proof fn lemma_l_report(s: State, n: int, d: int, message: Seq<char>)
    requires
        ok(s, n),
    ensures
        local(s, n, d, s.report(message), base(s, n, d).report(message)),
{
    reveal(local);
    let b = base(s, n, d);
    lemma_l_stay(s, n, d);
    lemma_join_push(
        s.errors,
        Seq::empty(),
        ErrorView { start: b.start, end: b.end(), message },
        d,
    );
    assert(s.report(message) =~= lift(s, n, d, b.report(message)));
}

proof fn lemma_l_report_at(s: State, n: int, d: int, offsets: Seq<int>, message: Seq<char>)
    requires
        ok(s, n),
    ensures
        local(s, n, d, s.report_at(offsets, message), base(s, n, d).report_at(offsets, message)),
{
    reveal(local);
    let b = base(s, n, d);
    lemma_l_stay(s, n, d);
    lemma_join_offsets(s.errors, b.start, offsets, message, d);
    assert(s.report_at(offsets, message) =~= lift(s, n, d, b.report_at(offsets, message)));
}

/// The lexer hands out a token, which goes into the tree or becomes the current one.
proof fn lemma_l_next(s: State, n: int, d: int, current: Option<SyntaxKind>)
    requires
        ok(s, n),
    ensures
        local(
            s,
            n,
            d,
            State { current, ..s.next() },
            State { current, ..base(s, n, d).next() },
        ),
{
    reveal(local);
    let b = base(s, n, d);
    lemma_l_stay(s, n, d);
    assert(State { current, ..s.next() } =~= lift(s, n, d, State { current, ..b.next() }));
}

proof fn lemma_l_step(s: State, n: int, d: int)
    requires
        ok(s, n),
    ensures
        local(s, n, d, s.step(), base(s, n, d).step()),
    decreases s.toks.len() - s.pos,
{
    let b = base(s, n, d);
    let c = State { current: None, ..s };
    lemma_l_next(s, n, d, None);
    let h = State { current: None, ..s.next() };
    let h0 = State { current: None, ..b.next() };
    assert(c.next() =~= h);
    assert(State { current: None, ..b }.next() =~= h0);
    if s.pos < s.toks.len() {
        let kind = s.toks[s.pos].kind;
        let token = TreeEvent::Token { kind: kind.number(), text: h.text };
        lemma_same(s, n, d, h, h0);
        if kind == SyntaxKind::COMMENT {
            let offsets = forbidden_offsets(h.text, false);
            let message = "invalid character in comment"@;
            let r = h.report_at(offsets, message);
            let r0 = h0.report_at(offsets, message);
            lemma_l_report_at(h, n, d, offsets, message);
            lemma_l_report_at(h0, 0, 0, offsets, message);
            lemma_then(s, n, d, h, h0, r, r0, base(h, n, d).report_at(offsets, message));
            let e = r.emit(kind, h.text);
            let e0 = r0.emit(kind, h.text);
            lemma_same(s, n, d, r, r0);
            lemma_l_event(r, n, d, token);
            lemma_l_event(r0, 0, 0, token);
            lemma_then(s, n, d, r, r0, e, e0, base(r, n, d).emit(kind, h.text));
            lemma_same(s, n, d, e, e0);
            lemma_l_step(e, n, d);
            lemma_l_step(e0, 0, 0);
            lemma_then(s, n, d, e, e0, e.step(), e0.step(), base(e, n, d).step());
        } else if kind == SyntaxKind::WHITESPACE && s.skip_whitespace {
            let e = h.emit(kind, h.text);
            let e0 = h0.emit(kind, h.text);
            lemma_l_event(h, n, d, token);
            lemma_l_event(h0, 0, 0, token);
            lemma_then(s, n, d, h, h0, e, e0, base(h, n, d).emit(kind, h.text));
            lemma_same(s, n, d, e, e0);
            lemma_l_step(e, n, d);
            lemma_l_step(e0, 0, 0);
            lemma_then(s, n, d, e, e0, e.step(), e0.step(), base(e, n, d).step());
        } else if kind == SyntaxKind::ERROR {
            let e = h.emit(kind, h.text);
            let e0 = h0.emit(kind, h.text);
            lemma_l_event(h, n, d, token);
            lemma_l_event(h0, 0, 0, token);
            lemma_then(s, n, d, h, h0, e, e0, base(h, n, d).emit(kind, h.text));
            let message = "unexpected token"@;
            let r = e.report(message);
            let r0 = e0.report(message);
            lemma_same(s, n, d, e, e0);
            lemma_l_report(e, n, d, message);
            lemma_l_report(e0, 0, 0, message);
            lemma_then(s, n, d, e, e0, r, r0, base(e, n, d).report(message));
            lemma_same(s, n, d, r, r0);
            lemma_l_step(r, n, d);
            lemma_l_step(r0, 0, 0);
            lemma_then(s, n, d, r, r0, r.step(), r0.step(), base(r, n, d).step());
        } else {
            lemma_l_next(s, n, d, Some(kind));
        }
    }
}

proof fn lemma_l_peek(s: State, n: int, d: int)
    requires
        ok(s, n),
    ensures
        local(s, n, d, s.peek(), base(s, n, d).peek()),
{
    if s.current is None {
        lemma_l_step(s, n, d);
    } else {
        lemma_l_stay(s, n, d);
    }
}

proof fn lemma_l_token_as(s: State, n: int, d: int, kind: SyntaxKind)
    requires
        ok(s, n),
    ensures
        local(s, n, d, s.token_as(kind).0, base(s, n, d).token_as(kind).0),
        s.token_as(kind).1 == base(s, n, d).token_as(kind).1,
{
    let b = base(s, n, d);
    lemma_l_peek(s, n, d);
    let h = s.peek();
    let h0 = b.peek();
    lemma_same(s, n, d, h, h0);
    if h.current is Some {
        let e = h.emit(kind, h.text);
        let e0 = h0.emit(kind, h.text);
        let token = TreeEvent::Token { kind: kind.number(), text: h.text };
        lemma_l_event(h, n, d, token);
        lemma_l_event(h0, 0, 0, token);
        lemma_then(s, n, d, h, h0, e, e0, base(h, n, d).emit(kind, h.text));
        lemma_same(s, n, d, e, e0);
        lemma_l_step(e, n, d);
        lemma_l_step(e0, 0, 0);
        lemma_then(s, n, d, e, e0, e.step(), e0.step(), base(e, n, d).step());
    }
}

proof fn lemma_l_token(s: State, n: int, d: int)
    requires
        ok(s, n),
    ensures
        local(s, n, d, s.token().0, base(s, n, d).token().0),
        s.token().1 == base(s, n, d).token().1,
{
    let b = base(s, n, d);
    lemma_l_peek(s, n, d);
    let h = s.peek();
    let h0 = b.peek();
    lemma_same(s, n, d, h, h0);
    if h.current is Some {
        let kind = h.current->0;
        lemma_same(s, n, d, h, h0);
        lemma_l_token_as(h, n, d, kind);
        lemma_l_token_as(h0, 0, 0, kind);
        lemma_then(
            s,
            n,
            d,
            h,
            h0,
            h.token_as(kind).0,
            h0.token_as(kind).0,
            base(h, n, d).token_as(kind).0,
        );
    }
}

proof fn lemma_l_error(s: State, n: int, d: int, message: Seq<char>)
    requires
        ok(s, n),
    ensures
        local(s, n, d, s.error(message), base(s, n, d).error(message)),
{
    let b = base(s, n, d);
    lemma_l_report(s, n, d, message);
    let h = s.report(message);
    let h0 = b.report(message);
    lemma_same(s, n, d, h, h0);
    lemma_l_token_as(h, n, d, SyntaxKind::ERROR);
    lemma_l_token_as(h0, 0, 0, SyntaxKind::ERROR);
    lemma_then(
        s,
        n,
        d,
        h,
        h0,
        h.token_as(SyntaxKind::ERROR).0,
        h0.token_as(SyntaxKind::ERROR).0,
        base(h, n, d).token_as(SyntaxKind::ERROR).0,
    );
}

proof fn lemma_l_expect(s: State, n: int, d: int, kind: SyntaxKind, message: Seq<char>)
    requires
        ok(s, n),
    ensures
        local(s, n, d, s.expect(kind, message).0, base(s, n, d).expect(kind, message).0),
        s.expect(kind, message).1 == base(s, n, d).expect(kind, message).1,
{
    let b = base(s, n, d);
    lemma_l_peek(s, n, d);
    let h = s.peek();
    let h0 = b.peek();
    lemma_same(s, n, d, h, h0);
    if h.current is None {
        let eof = "unexpected EOF"@;
        lemma_same(s, n, d, h, h0);
        lemma_l_report(h, n, d, eof);
        lemma_l_report(h0, 0, 0, eof);
        lemma_then(s, n, d, h, h0, h.report(eof), h0.report(eof), base(h, n, d).report(eof));
    } else if h.current->0 == kind {
        lemma_same(s, n, d, h, h0);
        lemma_l_token(h, n, d);
        lemma_l_token(h0, 0, 0);
        lemma_then(s, n, d, h, h0, h.token().0, h0.token().0, base(h, n, d).token().0);
    } else {
        lemma_same(s, n, d, h, h0);
        lemma_l_error(h, n, d, message);
        lemma_l_error(h0, 0, 0, message);
        lemma_then(
            s,
            n,
            d,
            h,
            h0,
            h.error(message),
            h0.error(message),
            base(h, n, d).error(message),
        );
    }
}

proof fn lemma_l_ident(s: State, n: int, d: int)
    requires
        ok(s, n),
    ensures
        local(s, n, d, s.ident().0, base(s, n, d).ident().0),
        s.ident().1 == base(s, n, d).ident().1,
{
    let b = base(s, n, d);
    lemma_l_peek(s, n, d);
    let h = s.peek();
    let h0 = b.peek();
    lemma_same(s, n, d, h, h0);
    if h.current is None {
    } else if h.current->0 == SyntaxKind::IDENT {
        lemma_same(s, n, d, h, h0);
        lemma_l_token(h, n, d);
        lemma_l_token(h0, 0, 0);
        lemma_then(s, n, d, h, h0, h.token().0, h0.token().0, base(h, n, d).token().0);
    } else if h.current->0 == SyntaxKind::INTEGER {
        lemma_same(s, n, d, h, h0);
        lemma_l_token_as(h, n, d, SyntaxKind::IDENT);
        lemma_l_token_as(h0, 0, 0, SyntaxKind::IDENT);
        lemma_then(
            s,
            n,
            d,
            h,
            h0,
            h.token_as(SyntaxKind::IDENT).0,
            h0.token_as(SyntaxKind::IDENT).0,
            base(h, n, d).token_as(SyntaxKind::IDENT).0,
        );
    } else if h.current->0 == SyntaxKind::STRING_LITERAL {
        let offsets = forbidden_offsets(h.text, false);
        let message = "invalid control character in string literal"@;
        let r = h.report_at(offsets, message);
        let r0 = h0.report_at(offsets, message);
        lemma_same(s, n, d, h, h0);
        lemma_l_report_at(h, n, d, offsets, message);
        lemma_l_report_at(h0, 0, 0, offsets, message);
        lemma_then(
            s,
            n,
            d,
            h,
            h0,
            h.report_at(offsets, message),
            h0.report_at(offsets, message),
            base(h, n, d).report_at(offsets, message),
        );
        lemma_same(s, n, d, r, r0);
        lemma_l_token_as(r, n, d, SyntaxKind::IDENT);
        lemma_l_token_as(r0, 0, 0, SyntaxKind::IDENT);
        lemma_then(
            s,
            n,
            d,
            r,
            r0,
            r.token_as(SyntaxKind::IDENT).0,
            r0.token_as(SyntaxKind::IDENT).0,
            base(r, n, d).token_as(SyntaxKind::IDENT).0,
        );
    } else if h.current->0 == SyntaxKind::STRING {
        let offsets = forbidden_offsets(h.text, false);
        let message = "invalid character in string"@;
        let escapes = escape_errors(h.text, 0);
        let bad = "invalid escape sequence"@;
        let r = h.report_at(offsets, message);
        let r0 = h0.report_at(offsets, message);
        lemma_same(s, n, d, h, h0);
        lemma_l_report_at(h, n, d, offsets, message);
        lemma_l_report_at(h0, 0, 0, offsets, message);
        lemma_then(
            s,
            n,
            d,
            h,
            h0,
            h.report_at(offsets, message),
            h0.report_at(offsets, message),
            base(h, n, d).report_at(offsets, message),
        );
        let q = r.report_at(escapes, bad);
        let q0 = r0.report_at(escapes, bad);
        lemma_same(s, n, d, r, r0);
        lemma_l_report_at(r, n, d, escapes, bad);
        lemma_l_report_at(r0, 0, 0, escapes, bad);
        lemma_then(
            s,
            n,
            d,
            r,
            r0,
            r.report_at(escapes, bad),
            r0.report_at(escapes, bad),
            base(r, n, d).report_at(escapes, bad),
        );
        lemma_same(s, n, d, q, q0);
        lemma_l_token_as(q, n, d, SyntaxKind::IDENT);
        lemma_l_token_as(q0, 0, 0, SyntaxKind::IDENT);
        lemma_then(
            s,
            n,
            d,
            q,
            q0,
            q.token_as(SyntaxKind::IDENT).0,
            q0.token_as(SyntaxKind::IDENT).0,
            base(q, n, d).token_as(SyntaxKind::IDENT).0,
        );
    } else if h.current->0 == SyntaxKind::FLOAT {
        let parts = dotted(h.text);
        let e = State { tree: h.tree + parts, ..h };
        let e0 = State { tree: h0.tree + parts, ..h0 };
        let eb = State { tree: base(h, n, d).tree + parts, ..base(h, n, d) };
        lemma_l_tree(h, n, d, parts, h.whitelist);
        lemma_l_tree(h0, 0, 0, parts, h0.whitelist);
        lemma_then(s, n, d, h, h0, e, e0, eb);
        lemma_same(s, n, d, e, e0);
        lemma_l_step(e, n, d);
        lemma_l_step(e0, 0, 0);
        lemma_then(s, n, d, e, e0, e.step(), e0.step(), base(e, n, d).step());
    } else {
        let message = "expected identifier"@;
        lemma_same(s, n, d, h, h0);
        lemma_l_error(h, n, d, message);
        lemma_l_error(h0, 0, 0, message);
        lemma_then(
            s,
            n,
            d,
            h,
            h0,
            h.error(message),
            h0.error(message),
            base(h, n, d).error(message),
        );
    }
}

proof fn lemma_l_key_rest(s: State, n: int, d: int, after_period: bool)
    requires
        ok(s, n),
    ensures
        local(s, n, d, s.key_rest(after_period).0, base(s, n, d).key_rest(after_period).0),
        s.key_rest(after_period).1 == base(s, n, d).key_rest(after_period).1,
    decreases s.left(),
{
    let b = base(s, n, d);
    lemma_l_peek(s, n, d);
    let h = s.peek();
    let h0 = b.peek();
    lemma_same(s, n, d, h, h0);
    lemma_peek(s);
    lemma_peek(b);
    if h.current is None {
        let message = "unexpected end of input"@;
        lemma_same(s, n, d, h, h0);
        lemma_l_error(h, n, d, message);
        lemma_l_error(h0, 0, 0, message);
        lemma_then(
            s,
            n,
            d,
            h,
            h0,
            h.error(message),
            h0.error(message),
            base(h, n, d).error(message),
        );
    } else if h.current->0 == SyntaxKind::PERIOD {
        if after_period {
            let message = "unexpected \".\""@;
            lemma_same(s, n, d, h, h0);
            lemma_l_error(h, n, d, message);
            lemma_l_error(h0, 0, 0, message);
            lemma_then(
                s,
                n,
                d,
                h,
                h0,
                h.error(message),
                h0.error(message),
                base(h, n, d).error(message),
            );
        } else {
            lemma_same(s, n, d, h, h0);
            lemma_l_token(h, n, d);
            lemma_l_token(h0, 0, 0);
            lemma_then(s, n, d, h, h0, h.token().0, h0.token().0, base(h, n, d).token().0);
            lemma_token(h);
            lemma_token(h0);
            let q = h.token().0;
            let q0 = h0.token().0;
            lemma_same(s, n, d, q, q0);
            lemma_l_key_rest(q, n, d, true);
            lemma_l_key_rest(q0, 0, 0, true);
            lemma_then(
                s,
                n,
                d,
                q,
                q0,
                q.key_rest(true).0,
                q0.key_rest(true).0,
                base(q, n, d).key_rest(true).0,
            );
        }
    } else if after_period {
        lemma_same(s, n, d, h, h0);
        lemma_l_ident(h, n, d);
        lemma_l_ident(h0, 0, 0);
        lemma_then(s, n, d, h, h0, h.ident().0, h0.ident().0, base(h, n, d).ident().0);
        lemma_ident(h);
        lemma_ident(h0);
        let q = h.ident().0;
        let q0 = h0.ident().0;
        if h.ident().1 {
            lemma_same(s, n, d, q, q0);
            lemma_l_key_rest(q, n, d, false);
            lemma_l_key_rest(q0, 0, 0, false);
            lemma_then(
                s,
                n,
                d,
                q,
                q0,
                q.key_rest(false).0,
                q0.key_rest(false).0,
                base(q, n, d).key_rest(false).0,
            );
        } else {
            let message = "expected identifier"@;
            lemma_same(s, n, d, q, q0);
            lemma_l_error(q, n, d, message);
            lemma_l_error(q0, 0, 0, message);
            lemma_then(
                s,
                n,
                d,
                q,
                q0,
                q.error(message),
                q0.error(message),
                base(q, n, d).error(message),
            );
        }
    }
}

proof fn lemma_l_key(s: State, n: int, d: int)
    requires
        ok(s, n),
    ensures
        local(s, n, d, s.key().0, base(s, n, d).key().0),
        s.key().1 == base(s, n, d).key().1,
{
    let b = base(s, n, d);
    lemma_l_ident(s, n, d);
    let q = s.ident().0;
    let q0 = b.ident().0;
    if s.ident().1 {
        lemma_same(s, n, d, q, q0);
        lemma_l_key_rest(q, n, d, false);
        lemma_l_key_rest(q0, 0, 0, false);
        lemma_then(
            s,
            n,
            d,
            q,
            q0,
            q.key_rest(false).0,
            q0.key_rest(false).0,
            base(q, n, d).key_rest(false).0,
        );
    } else {
        let message = "expected identifier"@;
        lemma_same(s, n, d, q, q0);
        lemma_l_error(q, n, d, message);
        lemma_l_error(q0, 0, 0, message);
        lemma_then(
            s,
            n,
            d,
            q,
            q0,
            q.error(message),
            q0.error(message),
            base(q, n, d).error(message),
        );
    }
}

proof fn lemma_l_number(s: State, n: int, d: int, radix: u32)
    requires
        ok(s, n),
    ensures
        local(s, n, d, s.number(radix).0, base(s, n, d).number(radix).0),
        s.number(radix).1 == base(s, n, d).number(radix).1,
{
    let message = "invalid underscores"@;
    lemma_l_token(s, n, d);
    lemma_l_error(s, n, d, message);
}

proof fn lemma_l_scalar(s: State, n: int, d: int)
    requires
        ok(s, n),
        s.current is Some,
        s.current->0 != SyntaxKind::BRACKET_START,
        s.current->0 != SyntaxKind::BRACE_START,
    ensures
        local(s, n, d, s.value().0, base(s, n, d).value().0),
        s.value().1 == base(s, n, d).value().1,
{
    let b = base(s, n, d);
    let h = s;
    let h0 = b;
    lemma_l_stay(s, n, d);
    let t = s.current->0;
    if t == SyntaxKind::BOOL || t == SyntaxKind::DATE {
        lemma_l_token(s, n, d);
    } else if t == SyntaxKind::INTEGER_BIN {
        lemma_l_number(s, n, d, 2);
    } else if t == SyntaxKind::INTEGER_HEX {
        lemma_l_number(s, n, d, 16);
    } else if t == SyntaxKind::INTEGER_OCT {
        lemma_l_number(s, n, d, 8);
    } else if t == SyntaxKind::FLOAT {
        lemma_l_number(s, n, d, 10);
    } else if t == SyntaxKind::INTEGER {
        lemma_l_number(s, n, d, 10);
        lemma_l_error(s, n, d, "zero-padded integers are not allowed"@);
    } else if t == SyntaxKind::STRING_LITERAL {
        let offsets = forbidden_offsets(h.text, false);
        let message = "invalid control character in string literal"@;
        let r = h.report_at(offsets, message);
        let r0 = h0.report_at(offsets, message);
        lemma_same(s, n, d, h, h0);
        lemma_l_report_at(h, n, d, offsets, message);
        lemma_l_report_at(h0, 0, 0, offsets, message);
        lemma_then(
            s,
            n,
            d,
            h,
            h0,
            h.report_at(offsets, message),
            h0.report_at(offsets, message),
            base(h, n, d).report_at(offsets, message),
        );
        lemma_same(s, n, d, r, r0);
        lemma_l_token(r, n, d);
        lemma_l_token(r0, 0, 0);
        lemma_then(s, n, d, r, r0, r.token().0, r0.token().0, base(r, n, d).token().0);
    } else if t == SyntaxKind::MULTI_LINE_STRING_LITERAL {
        let offsets = forbidden_offsets(h.text, true);
        let message = "invalid character in string"@;
        let r = h.report_at(offsets, message);
        let r0 = h0.report_at(offsets, message);
        lemma_same(s, n, d, h, h0);
        lemma_l_report_at(h, n, d, offsets, message);
        lemma_l_report_at(h0, 0, 0, offsets, message);
        lemma_then(
            s,
            n,
            d,
            h,
            h0,
            h.report_at(offsets, message),
            h0.report_at(offsets, message),
            base(h, n, d).report_at(offsets, message),
        );
        lemma_same(s, n, d, r, r0);
        lemma_l_token(r, n, d);
        lemma_l_token(r0, 0, 0);
        lemma_then(s, n, d, r, r0, r.token().0, r0.token().0, base(r, n, d).token().0);
    } else if t == SyntaxKind::STRING {
        let offsets = forbidden_offsets(h.text, false);
        let message = "invalid character in string"@;
        let escapes = escape_errors(h.text, 0);
        let bad = "invalid escape sequence"@;
        let r = h.report_at(offsets, message);
        let r0 = h0.report_at(offsets, message);
        lemma_same(s, n, d, h, h0);
        lemma_l_report_at(h, n, d, offsets, message);
        lemma_l_report_at(h0, 0, 0, offsets, message);
        lemma_then(
            s,
            n,
            d,
            h,
            h0,
            h.report_at(offsets, message),
            h0.report_at(offsets, message),
            base(h, n, d).report_at(offsets, message),
        );
        let q = r.report_at(escapes, bad);
        let q0 = r0.report_at(escapes, bad);
        lemma_same(s, n, d, r, r0);
        lemma_l_report_at(r, n, d, escapes, bad);
        lemma_l_report_at(r0, 0, 0, escapes, bad);
        lemma_then(
            s,
            n,
            d,
            r,
            r0,
            r.report_at(escapes, bad),
            r0.report_at(escapes, bad),
            base(r, n, d).report_at(escapes, bad),
        );
        lemma_same(s, n, d, q, q0);
        lemma_l_token(q, n, d);
        lemma_l_token(q0, 0, 0);
        lemma_then(s, n, d, q, q0, q.token().0, q0.token().0, base(q, n, d).token().0);
    } else if t == SyntaxKind::MULTI_LINE_STRING {
        let offsets = forbidden_offsets(h.text, true);
        let message = "invalid character in string"@;
        let escapes = escape_errors(h.text, 0);
        let bad = "invalid escape sequence"@;
        let r = h.report_at(offsets, message);
        let r0 = h0.report_at(offsets, message);
        lemma_same(s, n, d, h, h0);
        lemma_l_report_at(h, n, d, offsets, message);
        lemma_l_report_at(h0, 0, 0, offsets, message);
        lemma_then(
            s,
            n,
            d,
            h,
            h0,
            h.report_at(offsets, message),
            h0.report_at(offsets, message),
            base(h, n, d).report_at(offsets, message),
        );
        let q = r.report_at(escapes, bad);
        let q0 = r0.report_at(escapes, bad);
        lemma_same(s, n, d, r, r0);
        lemma_l_report_at(r, n, d, escapes, bad);
        lemma_l_report_at(r0, 0, 0, escapes, bad);
        lemma_then(
            s,
            n,
            d,
            r,
            r0,
            r.report_at(escapes, bad),
            r0.report_at(escapes, bad),
            base(r, n, d).report_at(escapes, bad),
        );
        lemma_same(s, n, d, q, q0);
        lemma_l_token(q, n, d);
        lemma_l_token(q0, 0, 0);
        lemma_then(s, n, d, q, q0, q.token().0, q0.token().0, base(q, n, d).token().0);
    } else {
        lemma_l_error(s, n, d, "expected value"@);
    }
}

proof fn lemma_l_array_node(s: State, n: int, d: int)
    requires
        ok(s, n),
    ensures
        local(
            s,
            n,
            d,
            s.open(SyntaxKind::ARRAY).array().0.close(),
            base(s, n, d).open(SyntaxKind::ARRAY).array().0.close(),
        ),
        s.open(SyntaxKind::ARRAY).array().1 == base(s, n, d).open(
            SyntaxKind::ARRAY,
        ).array().1,
    decreases s.left(), 5int,
{
    let b = base(s, n, d);
    let o = s.open(SyntaxKind::ARRAY);
    let o0 = b.open(SyntaxKind::ARRAY);
    lemma_l_open(s, n, d, SyntaxKind::ARRAY);
    lemma_same(s, n, d, o, o0);
    lemma_l_array(o, n, d);
    lemma_l_array(o0, 0, 0);
    let c = o.array().0;
    let c0 = o0.array().0;
    lemma_then(s, n, d, o, o0, c, c0, base(o, n, d).array().0);
    lemma_same(s, n, d, c, c0);
    lemma_l_close(c, n, d);
    lemma_l_close(c0, 0, 0);
    lemma_then(s, n, d, c, c0, c.close(), c0.close(), base(c, n, d).close());
}

proof fn lemma_l_table_node(s: State, n: int, d: int)
    requires
        ok(s, n),
    ensures
        local(
            s,
            n,
            d,
            s.open(SyntaxKind::INLINE_TABLE).inline_table().0.close(),
            base(s, n, d).open(SyntaxKind::INLINE_TABLE).inline_table().0.close(),
        ),
        s.open(SyntaxKind::INLINE_TABLE).inline_table().1 == base(s, n, d).open(
            SyntaxKind::INLINE_TABLE,
        ).inline_table().1,
    decreases s.left(), 5int,
{
    let b = base(s, n, d);
    let o = s.open(SyntaxKind::INLINE_TABLE);
    let o0 = b.open(SyntaxKind::INLINE_TABLE);
    lemma_l_open(s, n, d, SyntaxKind::INLINE_TABLE);
    lemma_same(s, n, d, o, o0);
    lemma_l_inline_table(o, n, d);
    lemma_l_inline_table(o0, 0, 0);
    let c = o.inline_table().0;
    let c0 = o0.inline_table().0;
    lemma_then(s, n, d, o, o0, c, c0, base(o, n, d).inline_table().0);
    lemma_same(s, n, d, c, c0);
    lemma_l_close(c, n, d);
    lemma_l_close(c0, 0, 0);
    lemma_then(s, n, d, c, c0, c.close(), c0.close(), base(c, n, d).close());
}

proof fn lemma_l_value(s: State, n: int, d: int)
    requires
        ok(s, n),
    ensures
        local(s, n, d, s.value().0, base(s, n, d).value().0),
        s.value().1 == base(s, n, d).value().1,
    decreases s.left(), 7int,
{
    let b = base(s, n, d);
    lemma_l_peek(s, n, d);
    let h = s.peek();
    let h0 = b.peek();
    lemma_same(s, n, d, h, h0);
    lemma_peek(s);
    lemma_peek(b);
    if h.current is None {
        let message = "expected value"@;
        lemma_same(s, n, d, h, h0);
        lemma_l_error(h, n, d, message);
        lemma_l_error(h0, 0, 0, message);
        lemma_then(
            s,
            n,
            d,
            h,
            h0,
            h.error(message),
            h0.error(message),
            base(h, n, d).error(message),
        );
    } else if h.current->0 == SyntaxKind::BRACKET_START {
        lemma_l_array_node(h, n, d);
        lemma_l_array_node(h0, 0, 0);
        lemma_then(
            s,
            n,
            d,
            h,
            h0,
            h.open(SyntaxKind::ARRAY).array().0.close(),
            h0.open(SyntaxKind::ARRAY).array().0.close(),
            base(h, n, d).open(SyntaxKind::ARRAY).array().0.close(),
        );
    } else if h.current->0 == SyntaxKind::BRACE_START {
        lemma_l_table_node(h, n, d);
        lemma_l_table_node(h0, 0, 0);
        lemma_then(
            s,
            n,
            d,
            h,
            h0,
            h.open(SyntaxKind::INLINE_TABLE).inline_table().0.close(),
            h0.open(SyntaxKind::INLINE_TABLE).inline_table().0.close(),
            base(h, n, d).open(SyntaxKind::INLINE_TABLE).inline_table().0.close(),
        );
    } else {
        assert(h.peek() == h && h0.peek() == h0);
        assert(s.value() == h.value() && b.value() == h0.value());
        lemma_same(s, n, d, h, h0);
        lemma_l_scalar(h, n, d);
        lemma_l_scalar(h0, 0, 0);
        lemma_then(s, n, d, h, h0, h.value().0, h0.value().0, base(h, n, d).value().0);
    }
}

proof fn lemma_l_array(s: State, n: int, d: int)
    requires
        ok(s, n),
    ensures
        local(s, n, d, s.array().0, base(s, n, d).array().0),
        s.array().1 == base(s, n, d).array().1,
    decreases s.left(), 4int,
{
    let b = base(s, n, d);
    let message = "expected \"[\""@;
    lemma_l_expect(s, n, d, SyntaxKind::BRACKET_START, message);
    lemma_expect(s, SyntaxKind::BRACKET_START, message);
    lemma_expect(b, SyntaxKind::BRACKET_START, message);
    let q = s.expect(SyntaxKind::BRACKET_START, message).0;
    let q0 = b.expect(SyntaxKind::BRACKET_START, message).0;
    if s.expect(SyntaxKind::BRACKET_START, message).1 {
        lemma_same(s, n, d, q, q0);
        lemma_l_array_rest(q, n, d, true, false);
        lemma_l_array_rest(q0, 0, 0, true, false);
        lemma_then(
            s,
            n,
            d,
            q,
            q0,
            q.array_rest(true, false).0,
            q0.array_rest(true, false).0,
            base(q, n, d).array_rest(true, false).0,
        );
    }
}

proof fn lemma_l_array_rest(s: State, n: int, d: int, first: bool, comma_last: bool)
    requires
        ok(s, n),
    ensures
        local(
            s,
            n,
            d,
            s.array_rest(first, comma_last).0,
            base(s, n, d).array_rest(first, comma_last).0,
        ),
        s.array_rest(first, comma_last).1 == base(s, n, d).array_rest(first, comma_last).1,
    decreases
            s.left(),
            if first || comma_last {
                11int
            } else {
                10int
            },
{
    let b = base(s, n, d);
    lemma_l_peek(s, n, d);
    let h = s.peek();
    let h0 = b.peek();
    lemma_same(s, n, d, h, h0);
    lemma_peek(s);
    lemma_peek(b);
    let in_place = first || comma_last;
    if h.current is None {
    } else if h.current->0 == SyntaxKind::BRACKET_END {
        lemma_same(s, n, d, h, h0);
        lemma_l_token(h, n, d);
        lemma_l_token(h0, 0, 0);
        lemma_then(s, n, d, h, h0, h.token().0, h0.token().0, base(h, n, d).token().0);
    } else if h.current->0 == SyntaxKind::NEWLINE {
        lemma_same(s, n, d, h, h0);
        lemma_l_token(h, n, d);
        lemma_l_token(h0, 0, 0);
        lemma_then(s, n, d, h, h0, h.token().0, h0.token().0, base(h, n, d).token().0);
        lemma_token(h);
        lemma_token(h0);
        let q = h.token().0;
        let q0 = h0.token().0;
        lemma_same(s, n, d, q, q0);
        lemma_l_array_rest(q, n, d, first, comma_last);
        lemma_l_array_rest(q0, 0, 0, first, comma_last);
        lemma_then(
            s,
            n,
            d,
            q,
            q0,
            q.array_rest(first, comma_last).0,
            q0.array_rest(first, comma_last).0,
            base(q, n, d).array_rest(first, comma_last).0,
        );
    } else if h.current->0 == SyntaxKind::COMMA {
        let message = "unexpected \",\""@;
        lemma_error(h, message);
        lemma_error(h0, message);
        let e = if in_place {
            h.error(message)
        } else {
            h
        };
        let e0 = if in_place {
            h0.error(message)
        } else {
            h0
        };
        lemma_same(s, n, d, h, h0);
        lemma_l_error(h, n, d, message);
        lemma_l_error(h0, 0, 0, message);
        lemma_then(
            s,
            n,
            d,
            h,
            h0,
            h.error(message),
            h0.error(message),
            base(h, n, d).error(message),
        );
        assert(local(s, n, d, e, e0));
        lemma_same(s, n, d, e, e0);
        lemma_l_token(e, n, d);
        lemma_l_token(e0, 0, 0);
        lemma_then(s, n, d, e, e0, e.token().0, e0.token().0, base(e, n, d).token().0);
        lemma_token(e);
        lemma_token(e0);
        let q = e.token().0;
        let q0 = e0.token().0;
        if e.token().1 {
            lemma_same(s, n, d, q, q0);
            lemma_l_array_rest(q, n, d, false, true);
            lemma_l_array_rest(q0, 0, 0, false, true);
            lemma_then(
                s,
                n,
                d,
                q,
                q0,
                q.array_rest(false, true).0,
                q0.array_rest(false, true).0,
                base(q, n, d).array_rest(false, true).0,
            );
        }
    } else {
        lemma_same(s, n, d, h, h0);
        lemma_l_array_element(h, n, d, in_place);
        lemma_l_array_element(h0, 0, 0, in_place);
        lemma_then(
            s,
            n,
            d,
            h,
            h0,
            h.array_element(in_place),
            h0.array_element(in_place),
            base(h, n, d).array_element(in_place),
        );
        let q = h.array_element(in_place);
        let q0 = h0.array_element(in_place);
        lemma_same(s, n, d, q, q0);
        lemma_l_stay(s, n, d);
        lemma_same(s, n, d, s, b);
        if s.goes_on(q, in_place) {
            lemma_same(s, n, d, q, q0);
            lemma_l_array_rest(q, n, d, false, false);
            lemma_l_array_rest(q0, 0, 0, false, false);
            lemma_then(
                s,
                n,
                d,
                q,
                q0,
                q.array_rest(false, false).0,
                q0.array_rest(false, false).0,
                base(q, n, d).array_rest(false, false).0,
            );
        }
    }
}

proof fn lemma_l_array_element(s: State, n: int, d: int, in_place: bool)
    requires
        ok(s, n),
    ensures
        local(s, n, d, s.array_element(in_place), base(s, n, d).array_element(in_place)),
    decreases s.left(), 9int,
{
    let b = base(s, n, d);
    let message = "expected \",\""@;
    lemma_l_error(s, n, d, message);
    lemma_l_stay(s, n, d);
    lemma_error(s, message);
    lemma_error(b, message);
    let h = if in_place {
        s
    } else {
        s.error(message)
    };
    let h0 = if in_place {
        b
    } else {
        b.error(message)
    };
    let a = h.allow(SyntaxKind::COMMA);
    let a0 = h0.allow(SyntaxKind::COMMA);
    lemma_same(s, n, d, h, h0);
    lemma_l_allow(h, n, d, SyntaxKind::COMMA);
    lemma_l_allow(h0, 0, 0, SyntaxKind::COMMA);
    lemma_then(
        s,
        n,
        d,
        h,
        h0,
        h.allow(SyntaxKind::COMMA),
        h0.allow(SyntaxKind::COMMA),
        base(h, n, d).allow(SyntaxKind::COMMA),
    );
    let o = a.open(SyntaxKind::VALUE);
    let o0 = a0.open(SyntaxKind::VALUE);
    lemma_same(s, n, d, a, a0);
    lemma_l_open(a, n, d, SyntaxKind::VALUE);
    lemma_l_open(a0, 0, 0, SyntaxKind::VALUE);
    lemma_then(
        s,
        n,
        d,
        a,
        a0,
        a.open(SyntaxKind::VALUE),
        a0.open(SyntaxKind::VALUE),
        base(a, n, d).open(SyntaxKind::VALUE),
    );
    lemma_same(s, n, d, o, o0);
    lemma_l_value(o, n, d);
    lemma_l_value(o0, 0, 0);
    lemma_then(s, n, d, o, o0, o.value().0, o0.value().0, base(o, n, d).value().0);
    let v = o.value().0;
    let v0 = o0.value().0;
    lemma_same(s, n, d, v, v0);
    lemma_l_close(v, n, d);
    lemma_l_close(v0, 0, 0);
    lemma_then(s, n, d, v, v0, v.close(), v0.close(), base(v, n, d).close());
    let c = v.close();
    let c0 = v0.close();
    lemma_same(s, n, d, c, c0);
    lemma_l_allow(c, n, d, SyntaxKind::COMMA);
    lemma_l_allow(c0, 0, 0, SyntaxKind::COMMA);
    lemma_then(
        s,
        n,
        d,
        c,
        c0,
        c.disallow(SyntaxKind::COMMA),
        c0.disallow(SyntaxKind::COMMA),
        base(c, n, d).disallow(SyntaxKind::COMMA),
    );
}

proof fn lemma_l_inline_table(s: State, n: int, d: int)
    requires
        ok(s, n),
    ensures
        local(s, n, d, s.inline_table().0, base(s, n, d).inline_table().0),
        s.inline_table().1 == base(s, n, d).inline_table().1,
    decreases s.left(), 4int,
{
    let b = base(s, n, d);
    let message = "expected \"{\""@;
    lemma_l_expect(s, n, d, SyntaxKind::BRACE_START, message);
    lemma_expect(s, SyntaxKind::BRACE_START, message);
    lemma_expect(b, SyntaxKind::BRACE_START, message);
    let q = s.expect(SyntaxKind::BRACE_START, message).0;
    let q0 = b.expect(SyntaxKind::BRACE_START, message).0;
    if s.expect(SyntaxKind::BRACE_START, message).1 {
        lemma_same(s, n, d, q, q0);
        lemma_l_table_rest(q, n, d, true, false, false);
        lemma_l_table_rest(q0, 0, 0, true, false, false);
        lemma_then(
            s,
            n,
            d,
            q,
            q0,
            q.table_rest(true, false, false).0,
            q0.table_rest(true, false, false).0,
            base(q, n, d).table_rest(true, false, false).0,
        );
    }
}

proof fn lemma_l_table_rest(
    s: State,
    n: int,
    d: int,
    first: bool,
    comma_last: bool,
    was_newline: bool,
)
    requires
        ok(s, n),
    ensures
        local(
            s,
            n,
            d,
            s.table_rest(first, comma_last, was_newline).0,
            base(s, n, d).table_rest(first, comma_last, was_newline).0,
        ),
        s.table_rest(first, comma_last, was_newline).1 == base(s, n, d).table_rest(
            first,
            comma_last,
            was_newline,
        ).1,
    decreases
            s.left(),
            10 + (if first {
                4int
            } else {
                0int
            }) + (if comma_last {
                2int
            } else {
                0int
            }) + (if was_newline {
                0int
            } else {
                1int
            }),
{
    let b = base(s, n, d);
    lemma_l_peek(s, n, d);
    let h = s.peek();
    let h0 = b.peek();
    lemma_same(s, n, d, h, h0);
    lemma_peek(s);
    lemma_peek(b);
    let in_place = first || comma_last;
    if h.current is None {
    } else if h.current->0 == SyntaxKind::BRACE_END {
        if comma_last {
            let message = "expected value, trailing comma is not allowed"@;
            let r = h.report(message);
            let r0 = h0.report(message);
            lemma_same(s, n, d, h, h0);
            lemma_l_report(h, n, d, message);
            lemma_l_report(h0, 0, 0, message);
            lemma_then(
                s,
                n,
                d,
                h,
                h0,
                h.report(message),
                h0.report(message),
                base(h, n, d).report(message),
            );
            lemma_same(s, n, d, r, r0);
            lemma_l_token(r, n, d);
            lemma_l_token(r0, 0, 0);
            lemma_then(s, n, d, r, r0, r.token().0, r0.token().0, base(r, n, d).token().0);
        } else {
            lemma_same(s, n, d, h, h0);
            lemma_l_token(h, n, d);
            lemma_l_token(h0, 0, 0);
            lemma_then(s, n, d, h, h0, h.token().0, h0.token().0, base(h, n, d).token().0);
        }
    } else if h.current->0 == SyntaxKind::NEWLINE {
        if !was_newline {
            let message = "newline is not allowed in an inline table"@;
            lemma_error(h, message);
            lemma_error(h0, message);
            let e = h.error(message);
            let e0 = h0.error(message);
            lemma_same(s, n, d, h, h0);
            lemma_l_error(h, n, d, message);
            lemma_l_error(h0, 0, 0, message);
            lemma_then(
                s,
                n,
                d,
                h,
                h0,
                h.error(message),
                h0.error(message),
                base(h, n, d).error(message),
            );
            lemma_same(s, n, d, e, e0);
            lemma_l_table_rest(e, n, d, false, comma_last, true);
            lemma_l_table_rest(e0, 0, 0, false, comma_last, true);
            lemma_then(
                s,
                n,
                d,
                e,
                e0,
                e.table_rest(false, comma_last, true).0,
                e0.table_rest(false, comma_last, true).0,
                base(e, n, d).table_rest(false, comma_last, true).0,
            );
        }
    } else if h.current->0 == SyntaxKind::COMMA {
        if first {
            let message = "unexpected \",\""@;
            lemma_error(h, message);
            lemma_error(h0, message);
            let e = h.error(message);
            let e0 = h0.error(message);
            lemma_same(s, n, d, h, h0);
            lemma_l_error(h, n, d, message);
            lemma_l_error(h0, 0, 0, message);
            lemma_then(
                s,
                n,
                d,
                h,
                h0,
                h.error(message),
                h0.error(message),
                base(h, n, d).error(message),
            );
            lemma_same(s, n, d, e, e0);
            lemma_l_table_rest(e, n, d, false, true, false);
            lemma_l_table_rest(e0, 0, 0, false, true, false);
            lemma_then(
                s,
                n,
                d,
                e,
                e0,
                e.table_rest(false, true, false).0,
                e0.table_rest(false, true, false).0,
                base(e, n, d).table_rest(false, true, false).0,
            );
        } else {
            lemma_same(s, n, d, h, h0);
            lemma_l_token(h, n, d);
            lemma_l_token(h0, 0, 0);
            lemma_then(s, n, d, h, h0, h.token().0, h0.token().0, base(h, n, d).token().0);
            lemma_token(h);
            lemma_token(h0);
            let q = h.token().0;
            let q0 = h0.token().0;
            lemma_same(s, n, d, q, q0);
            lemma_l_table_rest(q, n, d, false, true, false);
            lemma_l_table_rest(q0, 0, 0, false, true, false);
            lemma_then(
                s,
                n,
                d,
                q,
                q0,
                q.table_rest(false, true, false).0,
                q0.table_rest(false, true, false).0,
                base(q, n, d).table_rest(false, true, false).0,
            );
        }
    } else {
        lemma_same(s, n, d, h, h0);
        lemma_l_table_element(h, n, d, in_place);
        lemma_l_table_element(h0, 0, 0, in_place);
        lemma_then(
            s,
            n,
            d,
            h,
            h0,
            h.table_element(in_place),
            h0.table_element(in_place),
            base(h, n, d).table_element(in_place),
        );
        let q = h.table_element(in_place);
        let q0 = h0.table_element(in_place);
        lemma_same(s, n, d, q, q0);
        lemma_l_stay(s, n, d);
        lemma_same(s, n, d, s, b);
        if s.goes_on(q, in_place) {
            lemma_same(s, n, d, q, q0);
            lemma_l_table_rest(q, n, d, false, false, false);
            lemma_l_table_rest(q0, 0, 0, false, false, false);
            lemma_then(
                s,
                n,
                d,
                q,
                q0,
                q.table_rest(false, false, false).0,
                q0.table_rest(false, false, false).0,
                base(q, n, d).table_rest(false, false, false).0,
            );
        }
    }
}

proof fn lemma_l_table_element(s: State, n: int, d: int, in_place: bool)
    requires
        ok(s, n),
    ensures
        local(s, n, d, s.table_element(in_place), base(s, n, d).table_element(in_place)),
    decreases s.left(), 9int,
{
    let b = base(s, n, d);
    let message = "expected \",\""@;
    lemma_l_error(s, n, d, message);
    lemma_l_stay(s, n, d);
    lemma_error(s, message);
    lemma_error(b, message);
    let h = if in_place {
        s
    } else {
        s.error(message)
    };
    let h0 = if in_place {
        b
    } else {
        b.error(message)
    };
    let a = h.allow(SyntaxKind::COMMA);
    let a0 = h0.allow(SyntaxKind::COMMA);
    lemma_same(s, n, d, h, h0);
    lemma_l_allow(h, n, d, SyntaxKind::COMMA);
    lemma_l_allow(h0, 0, 0, SyntaxKind::COMMA);
    lemma_then(
        s,
        n,
        d,
        h,
        h0,
        h.allow(SyntaxKind::COMMA),
        h0.allow(SyntaxKind::COMMA),
        base(h, n, d).allow(SyntaxKind::COMMA),
    );
    let o = a.open(SyntaxKind::ENTRY);
    let o0 = a0.open(SyntaxKind::ENTRY);
    lemma_same(s, n, d, a, a0);
    lemma_l_open(a, n, d, SyntaxKind::ENTRY);
    lemma_l_open(a0, 0, 0, SyntaxKind::ENTRY);
    lemma_then(
        s,
        n,
        d,
        a,
        a0,
        a.open(SyntaxKind::ENTRY),
        a0.open(SyntaxKind::ENTRY),
        base(a, n, d).open(SyntaxKind::ENTRY),
    );
    lemma_same(s, n, d, o, o0);
    lemma_l_entry(o, n, d);
    lemma_l_entry(o0, 0, 0);
    lemma_then(s, n, d, o, o0, o.entry().0, o0.entry().0, base(o, n, d).entry().0);
    let v = o.entry().0;
    let v0 = o0.entry().0;
    lemma_same(s, n, d, v, v0);
    lemma_l_close(v, n, d);
    lemma_l_close(v0, 0, 0);
    lemma_then(s, n, d, v, v0, v.close(), v0.close(), base(v, n, d).close());
    let c = v.close();
    let c0 = v0.close();
    lemma_same(s, n, d, c, c0);
    lemma_l_allow(c, n, d, SyntaxKind::COMMA);
    lemma_l_allow(c0, 0, 0, SyntaxKind::COMMA);
    lemma_then(
        s,
        n,
        d,
        c,
        c0,
        c.disallow(SyntaxKind::COMMA),
        c0.disallow(SyntaxKind::COMMA),
        base(c, n, d).disallow(SyntaxKind::COMMA),
    );
}

proof fn lemma_l_key_node(s: State, n: int, d: int)
    requires
        ok(s, n),
    ensures
        local(
            s,
            n,
            d,
            s.open(SyntaxKind::KEY).key().0.close(),
            base(s, n, d).open(SyntaxKind::KEY).key().0.close(),
        ),
{
    let b = base(s, n, d);
    let o = s.open(SyntaxKind::KEY);
    let o0 = b.open(SyntaxKind::KEY);
    lemma_l_open(s, n, d, SyntaxKind::KEY);
    lemma_same(s, n, d, o, o0);
    lemma_l_key(o, n, d);
    lemma_l_key(o0, 0, 0);
    lemma_then(s, n, d, o, o0, o.key().0, o0.key().0, base(o, n, d).key().0);
    let k = o.key().0;
    let k0 = o0.key().0;
    lemma_same(s, n, d, k, k0);
    lemma_l_close(k, n, d);
    lemma_l_close(k0, 0, 0);
    lemma_then(s, n, d, k, k0, k.close(), k0.close(), base(k, n, d).close());
}

proof fn lemma_l_entry(s: State, n: int, d: int)
    requires
        ok(s, n),
    ensures
        local(s, n, d, s.entry().0, base(s, n, d).entry().0),
        s.entry().1 == base(s, n, d).entry().1,
    decreases s.left(), 6int,
{
    let b = base(s, n, d);
    let message = "expected \"=\""@;
    let o = s.open(SyntaxKind::KEY);
    let o0 = b.open(SyntaxKind::KEY);
    lemma_l_open(s, n, d, SyntaxKind::KEY);
    lemma_same(s, n, d, o, o0);
    lemma_l_key(o, n, d);
    lemma_l_key(o0, 0, 0);
    lemma_then(s, n, d, o, o0, o.key().0, o0.key().0, base(o, n, d).key().0);
    lemma_l_key_node(s, n, d);
    lemma_key(o);
    lemma_key(o0);
    let c = o.key().0.close();
    let c0 = o0.key().0.close();
    if o.key().1 {
        lemma_same(s, n, d, c, c0);
        lemma_l_expect(c, n, d, SyntaxKind::EQ, message);
        lemma_l_expect(c0, 0, 0, SyntaxKind::EQ, message);
        lemma_then(
            s,
            n,
            d,
            c,
            c0,
            c.expect(SyntaxKind::EQ, message).0,
            c0.expect(SyntaxKind::EQ, message).0,
            base(c, n, d).expect(SyntaxKind::EQ, message).0,
        );
        lemma_expect(c, SyntaxKind::EQ, message);
        lemma_expect(c0, SyntaxKind::EQ, message);
        let h = c.expect(SyntaxKind::EQ, message).0;
        let h0 = c0.expect(SyntaxKind::EQ, message).0;
        if c.expect(SyntaxKind::EQ, message).1 {
            let v = h.open(SyntaxKind::VALUE);
            let v0 = h0.open(SyntaxKind::VALUE);
            lemma_same(s, n, d, h, h0);
            lemma_l_open(h, n, d, SyntaxKind::VALUE);
            lemma_l_open(h0, 0, 0, SyntaxKind::VALUE);
            lemma_then(
                s,
                n,
                d,
                h,
                h0,
                h.open(SyntaxKind::VALUE),
                h0.open(SyntaxKind::VALUE),
                base(h, n, d).open(SyntaxKind::VALUE),
            );
            lemma_same(s, n, d, v, v0);
            lemma_l_value(v, n, d);
            lemma_l_value(v0, 0, 0);
            lemma_then(s, n, d, v, v0, v.value().0, v0.value().0, base(v, n, d).value().0);
            let q = v.value().0;
            let q0 = v0.value().0;
            lemma_same(s, n, d, q, q0);
            lemma_l_close(q, n, d);
            lemma_l_close(q0, 0, 0);
            lemma_then(s, n, d, q, q0, q.close(), q0.close(), base(q, n, d).close());
        }
    }
}

proof fn lemma_l_table_header(s: State, n: int, d: int)
    requires
        ok(s, n),
    ensures
        local(s, n, d, s.table_header().0, base(s, n, d).table_header().0),
        s.table_header().1 == base(s, n, d).table_header().1,
{
    let b = base(s, n, d);
    let start = "expected \"[\""@;
    let stop = "expected \"]\""@;
    lemma_l_expect(s, n, d, SyntaxKind::BRACKET_START, start);
    let h = s.expect(SyntaxKind::BRACKET_START, start).0;
    let h0 = b.expect(SyntaxKind::BRACKET_START, start).0;
    if s.expect(SyntaxKind::BRACKET_START, start).1 {
        let c = h.open(SyntaxKind::KEY).key().0.close();
        let c0 = h0.open(SyntaxKind::KEY).key().0.close();
        lemma_same(s, n, d, h, h0);
        lemma_l_key_node(h, n, d);
        lemma_l_key_node(h0, 0, 0);
        lemma_then(
            s,
            n,
            d,
            h,
            h0,
            h.open(SyntaxKind::KEY).key().0.close(),
            h0.open(SyntaxKind::KEY).key().0.close(),
            base(h, n, d).open(SyntaxKind::KEY).key().0.close(),
        );
        lemma_same(s, n, d, c, c0);
        lemma_l_expect(c, n, d, SyntaxKind::BRACKET_END, stop);
        lemma_l_expect(c0, 0, 0, SyntaxKind::BRACKET_END, stop);
        lemma_then(
            s,
            n,
            d,
            c,
            c0,
            c.expect(SyntaxKind::BRACKET_END, stop).0,
            c0.expect(SyntaxKind::BRACKET_END, stop).0,
            base(c, n, d).expect(SyntaxKind::BRACKET_END, stop).0,
        );
    }
}

proof fn lemma_l_table_array_header(s: State, n: int, d: int)
    requires
        ok(s, n),
    ensures
        local(s, n, d, s.table_array_header().0, base(s, n, d).table_array_header().0),
        s.table_array_header().1 == base(s, n, d).table_array_header().1,
{
    let b = base(s, n, d);
    let start = "expected \"[[\""@;
    let stop = "expected \"]]\""@;
    lemma_l_expect(s, n, d, SyntaxKind::BRACKET_START, start);
    let h = s.expect(SyntaxKind::BRACKET_START, start).0;
    let h0 = b.expect(SyntaxKind::BRACKET_START, start).0;
    if s.expect(SyntaxKind::BRACKET_START, start).1 {
        let q = h.expect(SyntaxKind::BRACKET_START, start).0;
        let q0 = h0.expect(SyntaxKind::BRACKET_START, start).0;
        lemma_same(s, n, d, h, h0);
        lemma_l_expect(h, n, d, SyntaxKind::BRACKET_START, start);
        lemma_l_expect(h0, 0, 0, SyntaxKind::BRACKET_START, start);
        lemma_then(
            s,
            n,
            d,
            h,
            h0,
            h.expect(SyntaxKind::BRACKET_START, start).0,
            h0.expect(SyntaxKind::BRACKET_START, start).0,
            base(h, n, d).expect(SyntaxKind::BRACKET_START, start).0,
        );
        if h.expect(SyntaxKind::BRACKET_START, start).1 {
            let c = q.open(SyntaxKind::KEY).key().0.close();
            let c0 = q0.open(SyntaxKind::KEY).key().0.close();
            lemma_same(s, n, d, q, q0);
            lemma_l_key_node(q, n, d);
            lemma_l_key_node(q0, 0, 0);
            lemma_then(
                s,
                n,
                d,
                q,
                q0,
                q.open(SyntaxKind::KEY).key().0.close(),
                q0.open(SyntaxKind::KEY).key().0.close(),
                base(q, n, d).open(SyntaxKind::KEY).key().0.close(),
            );
            let e = c.expect(SyntaxKind::BRACKET_END, stop).0;
            let e0 = c0.expect(SyntaxKind::BRACKET_END, stop).0;
            lemma_same(s, n, d, c, c0);
            lemma_l_expect(c, n, d, SyntaxKind::BRACKET_END, stop);
            lemma_l_expect(c0, 0, 0, SyntaxKind::BRACKET_END, stop);
            lemma_then(
                s,
                n,
                d,
                c,
                c0,
                c.expect(SyntaxKind::BRACKET_END, stop).0,
                c0.expect(SyntaxKind::BRACKET_END, stop).0,
                base(c, n, d).expect(SyntaxKind::BRACKET_END, stop).0,
            );
            lemma_same(s, n, d, e, e0);
            lemma_l_expect(e, n, d, SyntaxKind::BRACKET_END, stop);
            lemma_l_expect(e0, 0, 0, SyntaxKind::BRACKET_END, stop);
            lemma_then(
                s,
                n,
                d,
                e,
                e0,
                e.expect(SyntaxKind::BRACKET_END, stop).0,
                e0.expect(SyntaxKind::BRACKET_END, stop).0,
                base(e, n, d).expect(SyntaxKind::BRACKET_END, stop).0,
            );
        }
    }
}

proof fn lemma_l_header_line(s: State, n: int, d: int)
    requires
        ok(s, n),
    ensures
        local(s, n, d, s.header_line(), base(s, n, d).header_line()),
{
    let b = base(s, n, d);
    lemma_l_stay(s, n, d);
    lemma_same(s, n, d, s, b);
    lemma_l_allow(s, n, d, SyntaxKind::NEWLINE);
    let a = s.allow(SyntaxKind::NEWLINE);
    let a0 = b.allow(SyntaxKind::NEWLINE);
    if s.bracket_follows() {
        let o = a.open(SyntaxKind::TABLE_ARRAY_HEADER);
        let o0 = a0.open(SyntaxKind::TABLE_ARRAY_HEADER);
        lemma_same(s, n, d, a, a0);
        lemma_l_open(a, n, d, SyntaxKind::TABLE_ARRAY_HEADER);
        lemma_l_open(a0, 0, 0, SyntaxKind::TABLE_ARRAY_HEADER);
        lemma_then(
            s,
            n,
            d,
            a,
            a0,
            a.open(SyntaxKind::TABLE_ARRAY_HEADER),
            a0.open(SyntaxKind::TABLE_ARRAY_HEADER),
            base(a, n, d).open(SyntaxKind::TABLE_ARRAY_HEADER),
        );
        lemma_same(s, n, d, o, o0);
        lemma_l_table_array_header(o, n, d);
        lemma_l_table_array_header(o0, 0, 0);
        lemma_then(
            s,
            n,
            d,
            o,
            o0,
            o.table_array_header().0,
            o0.table_array_header().0,
            base(o, n, d).table_array_header().0,
        );
        let r = o.table_array_header().0;
        let r0 = o0.table_array_header().0;
        let c = r.close();
        let c0 = r0.close();
        lemma_same(s, n, d, r, r0);
        lemma_l_close(r, n, d);
        lemma_l_close(r0, 0, 0);
        lemma_then(s, n, d, r, r0, r.close(), r0.close(), base(r, n, d).close());
        lemma_same(s, n, d, c, c0);
        lemma_l_allow(c, n, d, SyntaxKind::NEWLINE);
        lemma_l_allow(c0, 0, 0, SyntaxKind::NEWLINE);
        lemma_then(
            s,
            n,
            d,
            c,
            c0,
            c.disallow(SyntaxKind::NEWLINE),
            c0.disallow(SyntaxKind::NEWLINE),
            base(c, n, d).disallow(SyntaxKind::NEWLINE),
        );
    } else {
        let o = a.open(SyntaxKind::TABLE_HEADER);
        let o0 = a0.open(SyntaxKind::TABLE_HEADER);
        lemma_same(s, n, d, a, a0);
        lemma_l_open(a, n, d, SyntaxKind::TABLE_HEADER);
        lemma_l_open(a0, 0, 0, SyntaxKind::TABLE_HEADER);
        lemma_then(
            s,
            n,
            d,
            a,
            a0,
            a.open(SyntaxKind::TABLE_HEADER),
            a0.open(SyntaxKind::TABLE_HEADER),
            base(a, n, d).open(SyntaxKind::TABLE_HEADER),
        );
        lemma_same(s, n, d, o, o0);
        lemma_l_table_header(o, n, d);
        lemma_l_table_header(o0, 0, 0);
        lemma_then(
            s,
            n,
            d,
            o,
            o0,
            o.table_header().0,
            o0.table_header().0,
            base(o, n, d).table_header().0,
        );
        let r = o.table_header().0;
        let r0 = o0.table_header().0;
        let c = r.close();
        let c0 = r0.close();
        lemma_same(s, n, d, r, r0);
        lemma_l_close(r, n, d);
        lemma_l_close(r0, 0, 0);
        lemma_then(s, n, d, r, r0, r.close(), r0.close(), base(r, n, d).close());
        lemma_same(s, n, d, c, c0);
        lemma_l_allow(c, n, d, SyntaxKind::NEWLINE);
        lemma_l_allow(c0, 0, 0, SyntaxKind::NEWLINE);
        lemma_then(
            s,
            n,
            d,
            c,
            c0,
            c.disallow(SyntaxKind::NEWLINE),
            c0.disallow(SyntaxKind::NEWLINE),
            base(c, n, d).disallow(SyntaxKind::NEWLINE),
        );
    }
}

proof fn lemma_l_entry_line(s: State, n: int, d: int)
    requires
        ok(s, n),
    ensures
        local(s, n, d, s.entry_line(), base(s, n, d).entry_line()),
{
    let b = base(s, n, d);
    let o = s.open(SyntaxKind::ENTRY);
    let o0 = b.open(SyntaxKind::ENTRY);
    lemma_l_open(s, n, d, SyntaxKind::ENTRY);
    let a = o.allow(SyntaxKind::NEWLINE);
    let a0 = o0.allow(SyntaxKind::NEWLINE);
    lemma_same(s, n, d, o, o0);
    lemma_l_allow(o, n, d, SyntaxKind::NEWLINE);
    lemma_l_allow(o0, 0, 0, SyntaxKind::NEWLINE);
    lemma_then(
        s,
        n,
        d,
        o,
        o0,
        o.allow(SyntaxKind::NEWLINE),
        o0.allow(SyntaxKind::NEWLINE),
        base(o, n, d).allow(SyntaxKind::NEWLINE),
    );
    lemma_same(s, n, d, a, a0);
    lemma_l_entry(a, n, d);
    lemma_l_entry(a0, 0, 0);
    lemma_then(s, n, d, a, a0, a.entry().0, a0.entry().0, base(a, n, d).entry().0);
    let c = a.entry().0;
    let c0 = a0.entry().0;
    lemma_same(s, n, d, c, c0);
    lemma_l_allow(c, n, d, SyntaxKind::NEWLINE);
    lemma_l_allow(c0, 0, 0, SyntaxKind::NEWLINE);
    lemma_then(
        s,
        n,
        d,
        c,
        c0,
        c.disallow(SyntaxKind::NEWLINE),
        c0.disallow(SyntaxKind::NEWLINE),
        base(c, n, d).disallow(SyntaxKind::NEWLINE),
    );
}

proof fn lemma_l_close_entry(s: State, n: int, d: int, entry_started: bool)
    requires
        ok(s, n),
    ensures
        local(s, n, d, s.close_entry(entry_started), base(s, n, d).close_entry(entry_started)),
{
    lemma_l_close(s, n, d);
    lemma_l_stay(s, n, d);
}

proof fn lemma_l_lines(s: State, n: int, d: int, not_newline: bool, entry_started: bool)
    requires
        ok(s, n),
    ensures
        local(
            s,
            n,
            d,
            s.lines(not_newline, entry_started),
            base(s, n, d).lines(not_newline, entry_started),
        ),
    decreases
            s.left(),
            if not_newline {
                0int
            } else {
                1int
            },
{
    let b = base(s, n, d);
    lemma_l_peek(s, n, d);
    let h = s.peek();
    let h0 = b.peek();
    lemma_same(s, n, d, h, h0);
    lemma_peek(s);
    lemma_peek(b);
    let message = "expected new line"@;
    lemma_l_stay(s, n, d);
    lemma_same(s, n, d, s, b);
    let c = h.close_entry(entry_started);
    let c0 = h0.close_entry(entry_started);
    lemma_same(s, n, d, h, h0);
    lemma_l_close_entry(h, n, d, entry_started);
    lemma_l_close_entry(h0, 0, 0, entry_started);
    lemma_then(
        s,
        n,
        d,
        h,
        h0,
        h.close_entry(entry_started),
        h0.close_entry(entry_started),
        base(h, n, d).close_entry(entry_started),
    );
    if h.current is None {
    } else if h.current->0 == SyntaxKind::NEWLINE {
        let q = c.token().0;
        let q0 = c0.token().0;
        lemma_token(c);
        lemma_token(c0);
        lemma_same(s, n, d, c, c0);
        lemma_l_token(c, n, d);
        lemma_l_token(c0, 0, 0);
        lemma_then(s, n, d, c, c0, c.token().0, c0.token().0, base(c, n, d).token().0);
        lemma_same(s, n, d, q, q0);
        lemma_l_lines(q, n, d, false, false);
        lemma_l_lines(q0, 0, 0, false, false);
        lemma_then(
            s,
            n,
            d,
            q,
            q0,
            q.lines(false, false),
            q0.lines(false, false),
            base(q, n, d).lines(false, false),
        );
    } else if h.current->0 == SyntaxKind::BRACKET_START {
        let q = if not_newline {
            c.error(message)
        } else {
            c.header_line()
        };
        let q0 = if not_newline {
            c0.error(message)
        } else {
            c0.header_line()
        };
        if not_newline {
            lemma_same(s, n, d, c, c0);
            lemma_l_error(c, n, d, message);
            lemma_l_error(c0, 0, 0, message);
            lemma_then(
                s,
                n,
                d,
                c,
                c0,
                c.error(message),
                c0.error(message),
                base(c, n, d).error(message),
            );
        } else {
            lemma_same(s, n, d, c, c0);
            lemma_l_header_line(c, n, d);
            lemma_l_header_line(c0, 0, 0);
            lemma_then(
                s,
                n,
                d,
                c,
                c0,
                c.header_line(),
                c0.header_line(),
                base(c, n, d).header_line(),
            );
        }
        lemma_same(s, n, d, q, q0);
        if s.goes_on(q, !not_newline) {
            lemma_same(s, n, d, q, q0);
            lemma_l_lines(q, n, d, true, false);
            lemma_l_lines(q0, 0, 0, true, false);
            lemma_then(
                s,
                n,
                d,
                q,
                q0,
                q.lines(true, false),
                q0.lines(true, false),
                base(q, n, d).lines(true, false),
            );
        }
    } else if not_newline {
        let q = h.error(message);
        let q0 = h0.error(message);
        lemma_same(s, n, d, h, h0);
        lemma_l_error(h, n, d, message);
        lemma_l_error(h0, 0, 0, message);
        lemma_then(
            s,
            n,
            d,
            h,
            h0,
            h.error(message),
            h0.error(message),
            base(h, n, d).error(message),
        );
        lemma_same(s, n, d, q, q0);
        if s.goes_on(q, false) {
            lemma_same(s, n, d, q, q0);
            lemma_l_lines(q, n, d, true, entry_started);
            lemma_l_lines(q0, 0, 0, true, entry_started);
            lemma_then(
                s,
                n,
                d,
                q,
                q0,
                q.lines(true, entry_started),
                q0.lines(true, entry_started),
                base(q, n, d).lines(true, entry_started),
            );
        }
    } else {
        let q = c.entry_line();
        let q0 = c0.entry_line();
        lemma_same(s, n, d, c, c0);
        lemma_l_entry_line(c, n, d);
        lemma_l_entry_line(c0, 0, 0);
        lemma_then(s, n, d, c, c0, c.entry_line(), c0.entry_line(), base(c, n, d).entry_line());
        lemma_same(s, n, d, q, q0);
        if s.goes_on(q, true) {
            lemma_same(s, n, d, q, q0);
            lemma_l_lines(q, n, d, true, true);
            lemma_l_lines(q0, 0, 0, true, true);
            lemma_then(
                s,
                n,
                d,
                q,
                q0,
                q.lines(true, true),
                q0.lines(true, true),
                base(q, n, d).lines(true, true),
            );
        }
    }
}

/// No line breaks directly under the root where a walk goes on from `a` to `b`.
#[verifier::opaque]
pub(crate) open spec fn quiet(a: Seq<TreeEvent>, b: Seq<TreeEvent>) -> bool {
    &&& a.len() <= b.len()
    &&& b.take(a.len() as int) == a
    &&& forall|k: int| a.len() <= k < b.len() ==> !#[trigger] line_breaks(b, k)
}

pub(crate) proof fn lemma_breaks_before(a: Seq<TreeEvent>, b: Seq<TreeEvent>, k: int)
    requires
        a.len() <= b.len(),
        b.take(a.len() as int) == a,
        k < a.len(),
    ensures
        line_breaks(a, k) == line_breaks(b, k),
{
    if 0 <= k {
        assert(b.take(a.len() as int).take(k) =~= b.take(k));
        assert(b.take(a.len() as int)[k] == b[k]);
    }
}

pub(crate) proof fn lemma_quiet_refl(a: Seq<TreeEvent>)
    ensures
        quiet(a, a),
{
    reveal(quiet);
    assert(a.take(a.len() as int) =~= a);
}

pub(crate) proof fn lemma_quiet_trans(a: Seq<TreeEvent>, b: Seq<TreeEvent>, c: Seq<TreeEvent>)
    requires
        quiet(a, b),
        quiet(b, c),
    ensures
        quiet(a, c),
{
    reveal(quiet);
    assert(c.take(b.len() as int).take(a.len() as int) =~= c.take(a.len() as int));
    assert forall|k: int| a.len() <= k < c.len() implies !#[trigger] line_breaks(c, k) by {
        if k < b.len() {
            lemma_breaks_before(b, c, k);
        }
    }
}

pub(crate) proof fn lemma_quiet_push(a: Seq<TreeEvent>, b: Seq<TreeEvent>, e: TreeEvent)
    requires
        quiet(a, b),
        e matches TreeEvent::Token { kind, .. } ==> kind != SyntaxKind::NEWLINE.number(),
    ensures
        quiet(a, b.push(e)),
{
    reveal(quiet);
    let c = b.push(e);
    assert(c.take(b.len() as int) =~= b);
    assert(c.take(a.len() as int) =~= b.take(a.len() as int));
    assert forall|k: int| a.len() <= k < c.len() implies !#[trigger] line_breaks(c, k) by {
        if k < b.len() {
            lemma_breaks_before(b, c, k);
        }
    }
}

proof fn lemma_quiet_step(s: State)
    ensures
        quiet(s.tree, s.step().tree),
    decreases s.toks.len() - s.pos,
{
    lemma_quiet_refl(s.tree);
    if s.pos < s.toks.len() {
        let n = State { current: None, ..s }.next();
        let kind = s.toks[s.pos].kind;
        let e = TreeEvent::Token { kind: kind.number(), text: n.text };
        let r = if kind == SyntaxKind::COMMENT {
            n.report_at(
                forbidden_offsets(n.text, false),
                "invalid character in comment"@,
            ).emit(kind, n.text)
        } else if kind == SyntaxKind::ERROR {
            n.emit(kind, n.text).report("unexpected token"@)
        } else {
            n.emit(kind, n.text)
        };
        if kind == SyntaxKind::COMMENT || kind == SyntaxKind::ERROR || (kind
            == SyntaxKind::WHITESPACE && s.skip_whitespace) {
            lemma_quiet_push(s.tree, s.tree, e);
            lemma_quiet_step(r);
            lemma_quiet_trans(s.tree, r.tree, r.step().tree);
        }
    }
}

proof fn lemma_quiet_nested(a: Seq<TreeEvent>, b: Seq<TreeEvent>)
    requires
        nested(a, b, 0),
        open_nodes(a) >= 2,
    ensures
        quiet(a, b),
{
    reveal(quiet);
    assert forall|k: int| a.len() <= k < b.len() implies !#[trigger] line_breaks(b, k) by {
        assert(open_nodes(b.take(k)) >= 2);
    }
}

pub(crate) proof fn lemma_texts_len(toks: Seq<Tok>, n: int)
    requires
        tiled(toks),
        0 <= n <= toks.len(),
    ensures
        texts_from(toks, n).len() == end_of(toks, toks.len() as int) - end_of(toks, n),
    decreases toks.len() - n,
{
    if n < toks.len() {
        lemma_texts_len(toks, n + 1);
        assert(toks[n].start == end_of(toks, n));
    }
}

/// The parser stands on a line of a document, or in an entry on it.
#[verifier::opaque]
pub(crate) open spec fn on_line(s: State, entry_started: bool) -> bool {
    &&& valid(s)
    &&& s.whitelist == 0
    &&& s.skip_whitespace
    &&& whole_text(s) == texts_from(s.toks, 0)
    &&& open_nodes(s.tree) == if entry_started {
        2int
    } else {
        1int
    }
}

/// Behind the first `n` tokens everything is as if the text started there.
pub(crate) open spec fn starts_at(s: State, r: State, n: int) -> bool {
    let d = end_of(s.toks, n);
    let rest = document(moved(s.toks, n, d));
    &&& 0 <= n <= s.toks.len()
    &&& tree_text(s.tree).len() == d
    &&& r.tree.push(TreeEvent::Close).skip(s.tree.len() as int) == rest.tree.skip(1)
    &&& r.errors == join(s.errors, shifted(rest.errors, d))
}

/// Looking at the next token first changes nothing.
proof fn lemma_lines_peek(s: State)
    requires
        valid(s),
        s.whitelist == 0,
        s.current is None,
    ensures
        s.lines(false, false) == s.step().lines(false, false),
{
    lemma_keeps_peek(s);
    lemma_peek(s);
    looking_twice_is_looking_once(s);
    let p = s.step();
    assert(p.peek() == p);
    lemma_keeps_header_line(p);
    lemma_keeps_entry_line(p);
}

/// A line starts: what was read before does not matter.
pub(crate) proof fn lemma_new_line(s: State)
    requires
        on_line(s, false),
        s.current is None,
    ensures
        starts_at(s, s.lines(false, false), s.pos),
{
    reveal(local);
    reveal(on_line);
    let n = s.pos;
    let d = end_of(s.toks, n);
    let rest = moved(s.toks, n, d);
    let b = base(s, n, d);
    let first = State::initial(rest);
    let o = first.open(SyntaxKind::ROOT);
    lemma_l_lines(s, n, d, false, false);
    assert(State { current: None, ..b }.next() =~= State { current: None, ..first }.next());
    assert(b.step() == first.step());
    assert(b.lines(false, false) == first.lines(false, false));
    lemma_l_lines(o, 0, 0, false, false);
    assert(moved(rest, 0, 0) =~= rest);
    assert(base(o, 0, 0) =~= first);
    let l = first.lines(false, false);
    assert(join(Seq::empty(), shifted(l.errors, 0)) =~= l.errors);
    assert(document(rest).tree =~= seq![TreeEvent::Open { kind: SyntaxKind::ROOT.number() }]
        + l.tree.push(TreeEvent::Close));
    assert(document(rest).tree.skip(1) =~= l.tree.push(TreeEvent::Close));
    let r = s.lines(false, false);
    assert(r.tree.push(TreeEvent::Close) =~= s.tree + l.tree.push(TreeEvent::Close));
    assert(r.tree.push(TreeEvent::Close).skip(s.tree.len() as int) =~= l.tree.push(
        TreeEvent::Close,
    ));
    lemma_texts_len(s.toks, n);
    lemma_texts_len(s.toks, 0);
    assert(whole_text(s).len() == tree_text(s.tree).len() + texts_from(s.toks, n).len());
}

pub(crate) proof fn lemma_on_line_peek(s: State, entry_started: bool)
    requires
        on_line(s, entry_started),
    ensures
        on_line(s.peek(), entry_started),
        quiet(s.tree, s.peek().tree),
        s.peek().toks == s.toks,
        s.peek().left() <= s.left(),
{
    reveal(on_line);
    lemma_keeps_peek(s);
    lemma_peek(s);
    lemma_quiet_refl(s.tree);
    lemma_quiet_step(s);
}

pub(crate) proof fn lemma_on_line_close(p: State, entry_started: bool)
    requires
        on_line(p, entry_started),
    ensures
        on_line(p.close_entry(entry_started), false),
        quiet(p.tree, p.close_entry(entry_started).tree),
{
    reveal(on_line);
    let c = p.close_entry(entry_started);
    lemma_quiet_refl(p.tree);
    lemma_quiet_push(p.tree, p.tree, TreeEvent::Close);
    lemma_walk_push(p.tree, TreeEvent::Close);
    assert(whole_text(c) =~= whole_text(p));
}

pub(crate) proof fn lemma_on_line_error(p: State, entry_started: bool)
    requires
        on_line(p, entry_started),
        p.current is Some,
    ensures
        on_line(p.error("expected new line"@), entry_started),
        quiet(p.tree, p.error("expected new line"@).tree),
        p.error("expected new line"@).toks == p.toks,
        p.error("expected new line"@).left() < p.left(),
{
    reveal(on_line);
    let message = "expected new line"@;
    lemma_whitelist_bits();
    lemma_keeps_error(p, message);
    lemma_error(p, message);
    let r = p.report(message);
    let m = r.emit(SyntaxKind::ERROR, r.text);
    lemma_quiet_refl(p.tree);
    lemma_quiet_push(
        p.tree,
        p.tree,
        TreeEvent::Token { kind: SyntaxKind::ERROR.number(), text: r.text },
    );
    lemma_quiet_step(m);
    lemma_quiet_trans(p.tree, m.tree, m.step().tree);
}

pub(crate) proof fn lemma_on_line_header(s: State)
    requires
        on_line(s, false),
    ensures
        on_line(s.header_line(), false),
        quiet(s.tree, s.header_line().tree),
        s.header_line().toks == s.toks,
        s.header_line().left() <= s.left(),
{
    reveal(on_line);
    lemma_whitelist_bits();
    lemma_keeps_header_line(s);
    let kind = if s.bracket_follows() {
        SyntaxKind::TABLE_ARRAY_HEADER
    } else {
        SyntaxKind::TABLE_HEADER
    };
    let o = s.allow(SyntaxKind::NEWLINE).open(kind);
    let r = if s.bracket_follows() {
        lemma_keeps_table_array_header(o);
        o.table_array_header().0
    } else {
        lemma_keeps_table_header(o);
        o.table_header().0
    };
    let e = TreeEvent::Open { kind: kind.number() };
    lemma_walk_push(s.tree, e);
    lemma_quiet_refl(s.tree);
    lemma_quiet_push(s.tree, s.tree, e);
    lemma_quiet_nested(o.tree, r.tree);
    lemma_quiet_trans(s.tree, o.tree, r.tree);
    lemma_quiet_push(s.tree, r.tree, TreeEvent::Close);
}

pub(crate) proof fn lemma_on_line_entry(p: State)
    requires
        on_line(p, false),
    ensures
        on_line(p.entry_line(), true),
        quiet(p.tree, p.entry_line().tree),
        p.entry_line().toks == p.toks,
        p.entry_line().left() <= p.left(),
{
    reveal(on_line);
    let e = TreeEvent::Open { kind: SyntaxKind::ENTRY.number() };
    let r = p.entry_line();
    let o = p.open(SyntaxKind::ENTRY);
    lemma_keeps_entry_line(p);
    lemma_walk_push(p.tree, e);
    lemma_quiet_refl(p.tree);
    lemma_quiet_push(p.tree, p.tree, e);
    lemma_quiet_nested(o.tree, r.tree);
    lemma_quiet_trans(p.tree, o.tree, r.tree);
}

/// The state directly behind a line break.
pub(crate) open spec fn behind_break(p: State, entry_started: bool) -> State {
    let c = p.close_entry(entry_started);
    State { current: None, ..c.emit(SyntaxKind::NEWLINE, c.text) }
}

proof fn lemma_on_line_break(p: State, entry_started: bool)
    requires
        on_line(p, entry_started),
        p.current == Some(SyntaxKind::NEWLINE),
    ensures
        on_line(behind_break(p, entry_started), false),
        behind_break(p, entry_started).step() == p.close_entry(entry_started).token().0,
        behind_break(p, entry_started).left() < p.left(),
{
    reveal(on_line);
    lemma_on_line_close(p, entry_started);
    let c = p.close_entry(entry_started);
    let m = behind_break(p, entry_started);
    let e = TreeEvent::Token { kind: SyntaxKind::NEWLINE.number(), text: c.text };
    lemma_walk_push(c.tree, e);
    assert(whole_text(m) =~= whole_text(c));
    assert(State { current: None, ..m } == State {
        current: None,
        ..c.emit(SyntaxKind::NEWLINE, c.text)
    });
}

/// What becomes of the lines from here on.
#[verifier::opaque]
pub(crate) open spec fn outcome(s: State, not_newline: bool, entry_started: bool) -> State {
    s.lines(not_newline, entry_started).close()
}

/// A walk goes on from what was built before.
pub(crate) proof fn lemma_lines_extend(s: State, not_newline: bool, entry_started: bool)
    requires
        0 <= s.pos,
    ensures
        ({
            let t = outcome(s, not_newline, entry_started).tree;
            s.tree.len() < t.len() && t.take(s.tree.len() as int) == s.tree
        }),
        s.errors.is_prefix_of(outcome(s, not_newline, entry_started).errors),
{
    reveal(outcome);
    reveal(local);
    lemma_l_lines(s, 0, 0, not_newline, entry_started);
    let t = s.lines(not_newline, entry_started).tree.push(TreeEvent::Close);
    assert(t.take(s.tree.len() as int) =~= s.tree);
}

/// A line goes on: where the parser is next, and whether an entry is open there.
proof fn lemma_line_goes_on(s: State, not_newline: bool, entry_started: bool) -> (r: (State, bool))
    requires
        on_line(s, entry_started),
        entry_started ==> not_newline,
        s.peek().current is Some,
        s.peek().current->0 != SyntaxKind::NEWLINE,
    ensures
        on_line(r.0, r.1),
        r.0.pos >= 0,
        r.0.toks == s.toks,
        outcome(s, not_newline, entry_started) == outcome(r.0, true, r.1),
        quiet(s.tree, r.0.tree),
        r.0.left() <= s.left(),
        not_newline ==> r.0.left() < s.left(),
{
    reveal(outcome);
    reveal(on_line);
    lemma_on_line_peek(s, entry_started);
    let p = s.peek();
    let c = p.close_entry(entry_started);
    lemma_on_line_close(p, entry_started);
    lemma_quiet_trans(s.tree, p.tree, c.tree);
    if p.current->0 == SyntaxKind::BRACKET_START && not_newline {
        lemma_on_line_error(c, false);
        let q = c.error("expected new line"@);
        lemma_quiet_trans(s.tree, c.tree, q.tree);
        (q, false)
    } else if p.current->0 == SyntaxKind::BRACKET_START {
        lemma_on_line_header(c);
        let q = c.header_line();
        lemma_quiet_trans(s.tree, c.tree, q.tree);
        (q, false)
    } else if not_newline {
        lemma_on_line_error(p, entry_started);
        let q = p.error("expected new line"@);
        lemma_quiet_trans(s.tree, p.tree, q.tree);
        (q, entry_started)
    } else {
        lemma_on_line_entry(c);
        let q = c.entry_line();
        lemma_quiet_trans(s.tree, c.tree, q.tree);
        (q, true)
    }
}

/// A line ends: the parser is behind the line break next.
pub(crate) proof fn lemma_line_ends(s: State, not_newline: bool, entry_started: bool) -> (m: State)
    requires
        on_line(s, entry_started),
        s.peek().current == Some(SyntaxKind::NEWLINE),
    ensures
        m == behind_break(s.peek(), entry_started),
        on_line(m, false),
        m.current is None,
        m.toks == s.toks,
        m.pos > 0,
        m.toks[m.pos - 1].kind == SyntaxKind::NEWLINE,
        outcome(s, not_newline, entry_started) == outcome(m, false, false),
        m.tree.len() > 0,
        quiet(s.tree, m.tree.drop_last()),
        m.left() < s.left(),
{
    reveal(outcome);
    reveal(on_line);
    lemma_on_line_peek(s, entry_started);
    let p = s.peek();
    let c = p.close_entry(entry_started);
    lemma_on_line_close(p, entry_started);
    lemma_quiet_trans(s.tree, p.tree, c.tree);
    let m = behind_break(p, entry_started);
    lemma_on_line_break(p, entry_started);
    lemma_lines_peek(m);
    assert(m.tree.drop_last() =~= c.tree);
    m
}

/// The text ends.
pub(crate) proof fn lemma_text_ends(s: State, not_newline: bool, entry_started: bool)
    requires
        on_line(s, entry_started),
        s.peek().current is None,
    ensures
        quiet(s.tree, outcome(s, not_newline, entry_started).tree),
{
    reveal(outcome);
    let p = s.peek();
    let c = p.close_entry(entry_started);
    lemma_on_line_peek(s, entry_started);
    lemma_on_line_close(p, entry_started);
    lemma_quiet_trans(s.tree, p.tree, c.tree);
    lemma_quiet_push(s.tree, c.tree, TreeEvent::Close);
}

/// Looking at the next token first changes nothing, anywhere on a line.
pub(crate) proof fn lemma_outcome_peek(s: State, not_newline: bool, entry_started: bool)
    requires
        on_line(s, entry_started),
        entry_started ==> not_newline,
    ensures
        outcome(s.peek(), not_newline, entry_started) == outcome(s, not_newline, entry_started),
{
    reveal(outcome);
    looking_twice_is_looking_once(s);
    lemma_on_line_peek(s, entry_started);
    let p = s.peek();
    let c = p.close_entry(entry_started);
    lemma_on_line_close(p, entry_started);
    if p.current is Some {
        if not_newline {
            lemma_on_line_error(p, entry_started);
            lemma_on_line_error(c, false);
        } else {
            lemma_on_line_header(c);
            lemma_on_line_entry(c);
        }
    }
}

/// A line break does not stand where the walk is quiet.
pub(crate) proof fn lemma_break_is_later(
    a: Seq<TreeEvent>,
    b: Seq<TreeEvent>,
    t: Seq<TreeEvent>,
    x: int,
)
    requires
        quiet(a, b),
        b.len() <= t.len(),
        t.take(b.len() as int) == b,
        a.len() <= x,
        line_breaks(t, x),
    ensures
        b.len() <= x,
{
    reveal(quiet);
    if x < b.len() {
        lemma_breaks_before(b, t, x);
    }
}

/// The state that the parser was in behind a line break of the result.
proof fn lemma_behind_break(s: State, not_newline: bool, entry_started: bool, x: int) -> (m: State)
    requires
        on_line(s, entry_started),
        entry_started ==> not_newline,
        s.tree.len() <= x,
        line_breaks(outcome(s, not_newline, entry_started).tree, x),
    ensures
        on_line(m, false),
        m.current is None,
        m.toks == s.toks,
        outcome(m, false, false) == outcome(s, not_newline, entry_started),
        m.tree == outcome(s, not_newline, entry_started).tree.take(x + 1),
        m.pos > 0,
        m.toks[m.pos - 1].kind == SyntaxKind::NEWLINE,
    decreases
            s.left(),
            if not_newline {
                0int
            } else {
                1int
            },
{
    let t = outcome(s, not_newline, entry_started).tree;
    let p = s.peek();
    if p.current is None {
        lemma_text_ends(s, not_newline, entry_started);
        assert(t.take(t.len() as int) =~= t);
        lemma_break_is_later(s.tree, t, t, x);
        s
    } else if p.current->0 == SyntaxKind::NEWLINE {
        let m = lemma_line_ends(s, not_newline, entry_started);
        let b = m.tree.drop_last();
        lemma_lines_extend(m, false, false);
        assert(t.take(m.tree.len() as int).take(b.len() as int) =~= t.take(b.len() as int));
        lemma_break_is_later(s.tree, b, t, x);
        if x == b.len() {
            m
        } else {
            lemma_behind_break(m, false, false, x)
        }
    } else {
        let r = lemma_line_goes_on(s, not_newline, entry_started);
        lemma_lines_extend(r.0, true, r.1);
        lemma_break_is_later(s.tree, r.0.tree, t, x);
        lemma_behind_break(r.0, true, r.1, x)
    }
}

/// Behind the event at `x` of the tree of a text, where its first `n` tokens
/// end, stands what stands in the root of a document that is the rest of the
/// text alone; and the errors are some in front of that place, and then those
/// of that document.
pub open spec fn parsed_afresh(toks: Seq<Tok>, x: int, n: int) -> bool {
    let d = end_of(toks, n);
    let whole = document(toks);
    let rest = document(moved(toks, n, d));
    &&& 0 <= n <= toks.len()
    &&& 0 <= x < whole.tree.len()
    &&& tree_text(whole.tree.take(x + 1)).len() == d
    &&& whole.tree.skip(x + 1) == rest.tree.skip(1)
    &&& exists|before: Seq<ErrorView>| #[trigger]
        errors_fit(before, d) && whole.errors == join(before, shifted(rest.errors, d))
}

/// Every line starts afresh: behind a line break directly under the root, the
/// rest of the tree and the errors that are still to come are those of the
/// rest of the text parsed as a document of its own, whatever stands before.
pub proof fn lines_start_afresh(toks: Seq<Tok>, x: int)
    requires
        tiled(toks),
        line_breaks(document(toks).tree, x),
    ensures
        exists|n: int| #[trigger]
            parsed_afresh(toks, x, n) && n > 0 && toks[n - 1].kind == SyntaxKind::NEWLINE,
{
    reveal(outcome);
    reveal(on_line);
    let root = TreeEvent::Open { kind: SyntaxKind::ROOT.number() };
    let s = State::initial(toks).open(SyntaxKind::ROOT);
    lemma_walk_push(Seq::empty(), root);
    assert(whole_text(s) =~= texts_from(toks, 0));
    lemma_lines_extend(s, false, false);
    if x < s.tree.len() {
        lemma_breaks_before(s.tree, document(toks).tree, x);
    }
    let m = lemma_behind_break(s, false, false, x);
    lemma_new_line(m);
    assert(errors_fit(m.errors, end_of(toks, m.pos)));
    assert(parsed_afresh(toks, x, m.pos));
}

} // verus!
