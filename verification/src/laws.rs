//! What holds of every parse.

use vstd::prelude::*;

use crate::error::ErrorView;
use crate::grammar::is_trivia;
use crate::model::{
    document, dotted, last_period, push_error, push_errors_at, zero_padded, State, Tok,
};
use crate::preserved::{
    end_of, errors_differ, errors_fit, errors_known, known_message, lemma_dotted, lemma_keeps_lines,
    lemma_nested_refl, lemma_walk_push, nested, texts_from, tiled, valid, whole_text,
};
use crate::syntax::SyntaxKind;
use crate::tree::{is_one_node, open_nodes, tree_text, TreeEvent};
use crate::util::allowed_chars::forbidden_offsets;

verus! {

/// The state just before the root is left.
proof fn lemma_before_end(toks: Seq<Tok>) -> (s: State)
    requires
        tiled(toks),
    ensures
        document(toks) == s.close(),
        valid(s),
        s.toks == toks,
        s.pos == toks.len(),
        s.current is None,
        whole_text(s) == texts_from(toks, 0),
        nested(seq![TreeEvent::Open { kind: SyntaxKind::ROOT.number() }], s.tree, 0),
{
    let root = TreeEvent::Open { kind: SyntaxKind::ROOT.number() };
    let o = State::initial(toks).open(SyntaxKind::ROOT);
    lemma_walk_push(Seq::empty(), root);
    assert(o.tree =~= seq![root]);
    assert(tree_text(Seq::<TreeEvent>::empty()) =~= Seq::empty());
    assert(whole_text(o) =~= texts_from(toks, 0));
    lemma_nested_refl(o.tree);
    lemma_keeps_lines(o.tree, o, false, false);
    o.lines(false, false)
}

/// A parse loses nothing: the texts of the tokens in the tree, one after the
/// other, are the text that was parsed.
pub proof fn tree_is_lossless(toks: Seq<Tok>)
    requires
        tiled(toks),
    ensures
        tree_text(document(toks).tree) == texts_from(toks, 0),
{
    let s = lemma_before_end(toks);
    lemma_walk_push(s.tree, TreeEvent::Close);
    assert(texts_from(toks, toks.len() as int) =~= Seq::empty());
    assert(tree_text(s.tree) =~= whole_text(s));
    assert(tree_text(document(toks).tree) =~= tree_text(s.tree));
}

/// A parse gives one tree whose root is of the kind for roots: every node
/// that is entered is left, and nothing stands outside of the root.
pub proof fn tree_has_one_root(toks: Seq<Tok>)
    requires
        tiled(toks),
    ensures
        is_one_node(document(toks).tree),
        document(toks).tree.first() == (TreeEvent::Open { kind: SyntaxKind::ROOT.number() }),
{
    let root = TreeEvent::Open { kind: SyntaxKind::ROOT.number() };
    let s = lemma_before_end(toks);
    let base = seq![root];
    lemma_walk_push(Seq::empty(), root);
    assert(base =~= Seq::<TreeEvent>::empty().push(root));
    lemma_walk_push(s.tree, TreeEvent::Close);
    let tree = document(toks).tree;
    assert forall|i: int| 0 < i < tree.len() implies #[trigger] open_nodes(tree.take(i)) > 0 by {
        assert(tree.take(i) =~= s.tree.take(i));
    }
    assert(s.tree.take(1)[0] == base[0]);
}

/// Every error of a parse lies in the text that was parsed, and none is the
/// same as the one reported just before it.
pub proof fn errors_are_in_text(toks: Seq<Tok>)
    requires
        tiled(toks),
    ensures
        errors_fit(document(toks).errors, end_of(toks, toks.len() as int)),
        errors_differ(document(toks).errors),
{
    let s = lemma_before_end(toks);
}

/// Every error of a parse has one of the known messages.
pub proof fn errors_have_messages(toks: Seq<Tok>)
    requires
        tiled(toks),
    ensures
        errors_known(document(toks).errors),
{
    let s = lemma_before_end(toks);
}

/// No message is empty.
pub proof fn messages_are_not_empty(message: Seq<char>)
    requires
        known_message(message),
    ensures
        message.len() > 0,
{
    reveal_strlit("unexpected token");
    reveal_strlit("expected new line");
    reveal_strlit("expected identifier");
    reveal_strlit("unexpected \".\"");
    reveal_strlit("unexpected end of input");
    reveal_strlit("unexpected EOF");
    reveal_strlit("expected \"=\"");
    reveal_strlit("expected value");
    reveal_strlit("invalid underscores");
    reveal_strlit("zero-padded integers are not allowed");
    reveal_strlit("invalid character in comment");
    reveal_strlit("invalid character in string");
    reveal_strlit("invalid control character in string literal");
    reveal_strlit("invalid escape sequence");
    reveal_strlit("unexpected \",\"");
    reveal_strlit("expected \",\"");
    reveal_strlit("expected value, trailing comma is not allowed");
    reveal_strlit("newline is not allowed in an inline table");
    reveal_strlit("expected \"[\"");
    reveal_strlit("expected \"]\"");
    reveal_strlit("expected \"[[\"");
    reveal_strlit("expected \"]]\"");
    reveal_strlit("expected \"{\"");
}

/// An error that is reported twice in a row is listed once.
pub proof fn same_error_is_added_once(errors: Seq<ErrorView>, e: ErrorView)
    ensures
        push_error(push_error(errors, e), e) == push_error(errors, e),
{
}

/// Where no error in a list is the same as the one before it, that is still
/// so with one more.
pub proof fn added_errors_differ(errors: Seq<ErrorView>, e: ErrorView)
    requires
        errors_differ(errors),
    ensures
        errors_differ(push_error(errors, e)),
{
}

/// To allow a kind of tokens and then to disallow it again changes nothing
/// where none was allowed.
pub proof fn allowing_is_undone(s: State, kind: SyntaxKind)
    requires
        s.whitelist == 0,
    ensures
        s.allow(kind).disallow(kind) == s,
{
    let n = kind.number();
    assert((0u16 | n) & !n == 0u16) by (bit_vector);
}

/// To look at the current token takes nothing: to look again gives the same
/// token and changes nothing, at the end of the text too.
pub proof fn looking_twice_is_looking_once(s: State)
    ensures
        s.peek().peek() == s.peek(),
{
    if s.current is None {
        lemma_step_stays(s);
    }
}

/// At the end of the text another step changes nothing.
proof fn lemma_step_stays(s: State)
    ensures
        s.step().current is None ==> s.step().step() == s.step(),
    decreases s.toks.len() - s.pos,
{
    if s.pos < s.toks.len() {
        let n = State { current: None, ..s }.next();
        let kind = s.toks[s.pos].kind;
        if kind == SyntaxKind::COMMENT {
            lemma_step_stays(
                n.report_at(
                    forbidden_offsets(n.text, false),
                    "invalid character in comment"@,
                ).emit(kind, n.text),
            );
        } else if kind == SyntaxKind::WHITESPACE && s.skip_whitespace {
            lemma_step_stays(n.emit(kind, n.text));
        } else if kind == SyntaxKind::ERROR {
            lemma_step_stays(n.emit(kind, n.text).report("unexpected token"@));
        }
    } else {
        assert(s.step().step() =~= s.step());
    }
}

/// While blanks are skipped, no token that is looked at is a blank, a comment
/// or an error, and a step gives none.
pub proof fn current_token_matters(s: State)
    requires
        valid(s),
        s.skip_whitespace,
    ensures
        s.current matches Some(kind) ==> !is_trivia(kind),
        s.peek().current matches Some(kind) ==> !is_trivia(kind),
        s.step().current matches Some(kind) ==> !is_trivia(kind),
{
    lemma_step_matters(s);
}

proof fn lemma_step_matters(s: State)
    requires
        s.skip_whitespace,
    ensures
        s.step().current matches Some(kind) ==> !is_trivia(kind),
    decreases s.toks.len() - s.pos,
{
    if s.pos < s.toks.len() {
        let n = State { current: None, ..s }.next();
        let kind = s.toks[s.pos].kind;
        if kind == SyntaxKind::COMMENT {
            lemma_step_matters(
                n.report_at(
                    forbidden_offsets(n.text, false),
                    "invalid character in comment"@,
                ).emit(kind, n.text),
            );
        } else if kind == SyntaxKind::WHITESPACE {
            lemma_step_matters(n.emit(kind, n.text));
        } else if kind == SyntaxKind::ERROR {
            lemma_step_matters(n.emit(kind, n.text).report("unexpected token"@));
        }
    }
}

/// An error that is added is the last one of the list then, and those before it
/// stay: the list gets longer by it, unless it was the last one already.
pub proof fn added_error_is_last(errors: Seq<ErrorView>, e: ErrorView)
    ensures
        push_error(errors, e).len() > 0,
        push_error(errors, e).last() == e,
        errors.is_prefix_of(push_error(errors, e)),
        push_error(errors, e).len() == errors.len() + (if errors.len() > 0 && errors.last() == e {
            0int
        } else {
            1int
        }),
{
}

/// An error that is reported is in the list, with the range of what was handed
/// out last and with its message. Where nothing was handed out any more, the
/// range is that end.
pub proof fn reported_error_is_listed(s: State, message: Seq<char>)
    ensures
        s.report(message).errors.last() == (ErrorView {
            start: s.start,
            end: s.start + s.text.len(),
            message,
        }),
        s.errors.is_prefix_of(s.report(message).errors),
        s.report(message) == (State { errors: s.report(message).errors, ..s }),
{
}

/// Every offset that is reported is in the list, as an empty range in what was
/// handed out last.
pub proof fn reported_offsets_are_listed(
    errors: Seq<ErrorView>,
    start: int,
    offsets: Seq<int>,
    message: Seq<char>,
)
    ensures
        errors.is_prefix_of(push_errors_at(errors, start, offsets, message)),
        forall|i: int|
            0 <= i < offsets.len() ==> push_errors_at(errors, start, offsets, message).contains(
                ErrorView {
                    start: start + #[trigger] offsets[i],
                    end: start + offsets[i],
                    message,
                },
            ),
        forall|n: int|
            errors.len() <= n < push_errors_at(errors, start, offsets, message).len()
                ==> exists|i: int|
                0 <= i < offsets.len() && (#[trigger] push_errors_at(
                    errors,
                    start,
                    offsets,
                    message,
                )[n]) == (ErrorView {
                    start: start + #[trigger] offsets[i],
                    end: start + offsets[i],
                    message,
                }),
    decreases offsets.len(),
{
    if offsets.len() > 0 {
        let front = offsets.drop_last();
        reported_offsets_are_listed(errors, start, front, message);
        let before = push_errors_at(errors, start, front, message);
        let k = offsets.len() - 1;
        let e = ErrorView { start: start + offsets[k], end: start + offsets[k], message };
        let after = push_error(before, e);
        added_error_is_last(before, e);
        assert(after == push_errors_at(errors, start, offsets, message));
        assert forall|i: int| 0 <= i < offsets.len() implies after.contains(
            ErrorView { start: start + #[trigger] offsets[i], end: start + offsets[i], message },
        ) by {
            if i < k {
                assert(front[i] == offsets[i]);
                let f = ErrorView { start: start + front[i], end: start + front[i], message };
                let n = choose|n: int| 0 <= n < before.len() && before[n] == f;
                assert(after[n] == f);
            } else {
                assert(after[after.len() - 1] == e);
            }
        }
        assert forall|n: int| errors.len() <= n < after.len() implies exists|i: int|
            0 <= i < offsets.len() && (#[trigger] after[n]) == (ErrorView {
                start: start + #[trigger] offsets[i],
                end: start + offsets[i],
                message,
            }) by {
            if n < before.len() {
                assert(after[n] == before[n]);
                let i = choose|i: int|
                    0 <= i < front.len() && before[n] == (ErrorView {
                        start: start + #[trigger] front[i],
                        end: start + front[i],
                        message,
                    });
                assert(offsets[i] == front[i]);
            } else {
                assert(after[n] == e);
                assert(offsets[k] == offsets.last());
            }
        }
    }
}

/// A part of a dotted text: an identifier without a period in it.
pub open spec fn is_part(e: TreeEvent) -> bool {
    e matches TreeEvent::Token { kind, text } && kind == SyntaxKind::IDENT.number()
        && !text.contains('.' as u8)
}

/// A period.
pub open spec fn is_period(e: TreeEvent) -> bool {
    e == (TreeEvent::Token { kind: SyntaxKind::PERIOD.number(), text: seq!['.' as u8] })
}

/// A dotted text is cut at every period: its parts are identifiers without
/// periods, a period stands between every two of them, and together they are
/// the text.
pub proof fn dotted_texts_are_cut(text: Seq<u8>)
    ensures
        dotted(text).len() % 2 == 1,
        forall|i: int|
            0 <= i < dotted(text).len() ==> if i % 2 == 0 {
                is_part(#[trigger] dotted(text)[i])
            } else {
                is_period(dotted(text)[i])
            },
        tree_text(dotted(text)) == text,
    decreases text.len(),
{
    lemma_after_last_period(text);
    lemma_dotted(Seq::empty(), text);
    assert(Seq::<TreeEvent>::empty() + dotted(text) =~= dotted(text));
    assert(tree_text(Seq::<TreeEvent>::empty()) + text =~= text);
    let at = last_period(text);
    let part = text.subrange(at + 1, text.len() as int);
    assert(!part.contains('.' as u8)) by {
        if part.contains('.' as u8) {
            let k = choose|k: int| 0 <= k < part.len() && part[k] == '.' as u8;
            assert(text[at + 1 + k] == 0x2e);
        }
    }
    if at >= 0 {
        dotted_texts_are_cut(text.take(at));
    }
}

/// The last period of a text is one, and none stands behind it.
pub proof fn lemma_after_last_period(text: Seq<u8>)
    ensures
        -1 <= last_period(text) < text.len(),
        last_period(text) >= 0 ==> text[last_period(text)] == 0x2e,
        forall|k: int| last_period(text) < k < text.len() ==> #[trigger] text[k] != 0x2e,
    decreases text.len(),
{
    if text.len() > 0 && text.last() != 0x2e {
        let front = text.drop_last();
        lemma_after_last_period(front);
        assert forall|k: int| last_period(text) < k < text.len() implies #[trigger] text[k]
            != 0x2e by {
            if k < front.len() {
                assert(front[k] == text[k]);
            }
        }
    }
}

/// A number, possibly behind a sign, is padded with zeros if and only if it has
/// several digits and the first one is a zero.
pub proof fn zero_padding_is_a_leading_zero(sign: Seq<u8>, number: Seq<u8>)
    requires
        sign.len() == 0 || sign == seq!['+' as u8] || sign == seq!['-' as u8],
        number.len() > 0,
        number[0] != '+' as u8,
        number[0] != '-' as u8,
    ensures
        zero_padded(sign + number) <==> number.len() > 1 && number[0] == '0' as u8,
{
    let text = sign + number;
    if sign.len() == 0 {
        assert(text =~= number);
    } else {
        assert(text[0] == sign[0] && text[1] == number[0]);
    }
}

/// A kind of tokens that is allowed is one that errors do not consume, and one
/// that is disallowed is not, whatever was allowed before. Blanks have no bit,
/// so they cannot be allowed.
pub proof fn allowed_kinds_are_spared(s: State, kind: SyntaxKind)
    ensures
        s.allow(kind).whitelisted(kind) <==> kind != SyntaxKind::WHITESPACE,
        !s.disallow(kind).whitelisted(kind),
{
    let w = s.whitelist;
    let n = kind.number();
    assert(n != 0 ==> (w | n) & n != 0) by (bit_vector);
    assert((w | 0u16) & 0u16 == 0u16) by (bit_vector);
    assert((w & !n) & n == 0u16) by (bit_vector);
}

/// An error is reported of the current token, and takes it: the token goes into
/// the tree as an error, unless its kind is one that errors do not consume. Then
/// it is still the current one.
pub proof fn errors_take_the_current_token(s: State, message: Seq<char>)
    requires
        s.current is Some,
    ensures
        ({
            let e = ErrorView { start: s.start, end: s.start + s.text.len(), message };
            let token = TreeEvent::Token { kind: SyntaxKind::ERROR.number(), text: s.text };
            let r = s.error(message);
            &&& r.errors.contains(e)
            &&& s.whitelisted(s.current->0) ==> {
                r.tree == s.tree && r.current == s.current && r.pos == s.pos && r.errors.last() == e
            }
            &&& !s.whitelisted(s.current->0) ==> s.tree.push(token).is_prefix_of(r.tree)
        }),
{
    let e = ErrorView { start: s.start, end: s.end(), message };
    let r = s.report(message);
    assert(r.errors.last() == e);
    if !s.whitelisted(s.current->0) {
        assert(r.peek() == r);
        lemma_step_extends(r.emit(SyntaxKind::ERROR, r.text));
        let q = s.error(message);
        assert(q.errors[r.errors.len() - 1] == e);
    } else {
        assert(r.errors[r.errors.len() - 1] == e);
    }
}

/// Where a token of a kind has to follow and does, it goes into the tree as it
/// is and nothing is reported of it; where another one follows, an error is
/// reported of that, and where none does, of the end of the text.
pub proof fn expected_tokens_are_taken(s: State, kind: SyntaxKind, message: Seq<char>)
    requires
        s.current is Some,
    ensures
        s.expect(kind, message).1 <==> s.current == Some(kind),
        s.current == Some(kind) ==> s.tree.push(
            TreeEvent::Token { kind: kind.number(), text: s.text },
        ).is_prefix_of(s.expect(kind, message).0.tree),
        s.current != Some(kind) ==> s.expect(kind, message).0.errors.contains(
            ErrorView { start: s.start, end: s.start + s.text.len(), message },
        ),
{
    if s.current == Some(kind) {
        lemma_step_extends(s.emit(kind, s.text));
    } else {
        errors_take_the_current_token(s, message);
    }
}

/// A step adds to the tree and to the errors, and takes nothing away.
proof fn lemma_step_extends(s: State)
    ensures
        s.tree.is_prefix_of(s.step().tree),
        s.errors.is_prefix_of(s.step().errors),
    decreases s.toks.len() - s.pos,
{
    if s.pos < s.toks.len() {
        let n = State { current: None, ..s }.next();
        let kind = s.toks[s.pos].kind;
        let m = n.emit(kind, n.text);
        assert(s.tree.is_prefix_of(m.tree));
        if kind == SyntaxKind::COMMENT {
            let offsets = forbidden_offsets(n.text, false);
            let message = "invalid character in comment"@;
            let r = n.report_at(offsets, message);
            lemma_offsets_extend(n.errors, n.start, offsets, message);
            lemma_step_extends(r.emit(kind, n.text));
            lemma_prefix_trans(s.tree, m.tree, s.step().tree);
            lemma_prefix_trans(s.errors, r.errors, s.step().errors);
        } else if kind == SyntaxKind::WHITESPACE && s.skip_whitespace {
            lemma_step_extends(m);
            lemma_prefix_trans(s.tree, m.tree, s.step().tree);
        } else if kind == SyntaxKind::ERROR {
            let r = m.report("unexpected token"@);
            lemma_step_extends(r);
            lemma_prefix_trans(s.tree, m.tree, s.step().tree);
            lemma_prefix_trans(s.errors, r.errors, s.step().errors);
        }
    }
}

proof fn lemma_prefix_trans<A>(a: Seq<A>, b: Seq<A>, c: Seq<A>)
    requires
        a.is_prefix_of(b),
        b.is_prefix_of(c),
    ensures
        a.is_prefix_of(c),
{
    assert forall|i: int| 0 <= i < a.len() implies a[i] == c[i] by {
        assert(a[i] == b[i]);
        assert(b[i] == c[i]);
    }
}

proof fn lemma_offsets_extend(
    errors: Seq<ErrorView>,
    start: int,
    offsets: Seq<int>,
    message: Seq<char>,
)
    ensures
        errors.is_prefix_of(push_errors_at(errors, start, offsets, message)),
    decreases offsets.len(),
{
    if offsets.len() > 0 {
        lemma_offsets_extend(errors, start, offsets.drop_last(), message);
        lemma_prefix_trans(
            errors,
            push_errors_at(errors, start, offsets.drop_last(), message),
            push_errors_at(errors, start, offsets, message),
        );
    }
}

} // verus!
