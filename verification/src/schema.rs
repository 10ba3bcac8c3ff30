//! Where nodes and tokens may stand in a tree, and what errors are about.
//!
//! All of this holds of every text, of those with errors too.

use vstd::prelude::*;
use vstd::utf8::decode_utf8;

use crate::acceptance::is_error_token;
use crate::error::ErrorView;
use crate::grammar::is_trivia;
use crate::laws::{lemma_after_last_period, reported_offsets_are_listed};
use crate::lexer::{covers, fits, toks_of, Lexeme};
use crate::model::{
    document, dotted, last_period, lemma_error, lemma_expect, lemma_ident, lemma_key, lemma_peek,
    lemma_token, push_errors_at, zero_padded, State, Tok,
};
use crate::preserved::{
    end_of, lemma_keeps_entry_line, lemma_keeps_error, lemma_keeps_header_line, lemma_keeps_peek,
    lemma_keeps_token, lemma_walk_push, lemma_whitelist_bits, tiled, valid,
};
use crate::rules::escape_in;
use crate::syntax::{kinds_have_distinct_numbers, SyntaxKind};
use crate::tokens::{
    all_tokens_in, decimal_in, figures_in, float_in, is_token, token_in, unsigned_in, word_in,
};
use crate::tree::{tree_text, TreeEvent};
use crate::util::allowed_chars::{forbidden_bytes_are_found, forbidden_offsets, may_stand};
use crate::util::escape::{bad_escapes_are_found, escape_errors, is_escape};
use crate::util::underscores::{cut_between_digits, underscores_part_digits};

verus! {

/// The kinds of the nodes that a walk has entered and not left yet.
pub open spec fn open_kinds(tree: Seq<TreeEvent>) -> Seq<u16>
    decreases tree.len(),
{
    if tree.len() == 0 {
        Seq::empty()
    } else {
        let before = open_kinds(tree.drop_last());
        match tree.last() {
            TreeEvent::Open { kind } => before.push(kind),
            TreeEvent::Token { .. } => before,
            TreeEvent::Close => if before.len() > 0 {
                before.drop_last()
            } else {
                before
            },
        }
    }
}

/// Tokens that may stand in every node: blanks, comments and errors.
pub open spec fn stands_anywhere(kind: u16) -> bool {
    kind == SyntaxKind::WHITESPACE.number() || kind == SyntaxKind::COMMENT.number() || kind
        == SyntaxKind::ERROR.number()
}

/// The kinds of tokens that are a value by themselves.
pub open spec fn is_single(kind: SyntaxKind) -> bool {
    match kind {
        SyntaxKind::BOOL
        | SyntaxKind::DATE
        | SyntaxKind::FLOAT
        | SyntaxKind::INTEGER
        | SyntaxKind::INTEGER_HEX
        | SyntaxKind::INTEGER_OCT
        | SyntaxKind::INTEGER_BIN
        | SyntaxKind::STRING
        | SyntaxKind::STRING_LITERAL
        | SyntaxKind::MULTI_LINE_STRING
        | SyntaxKind::MULTI_LINE_STRING_LITERAL => true,
        _ => false,
    }
}

/// A token may stand directly in a node. Any token may do so in an array: the
/// one behind a comma that is in a wrong place does.
pub open spec fn token_fits(parent: SyntaxKind, kind: SyntaxKind) -> bool {
    ||| stands_anywhere(kind.number())
    ||| match parent {
        SyntaxKind::ROOT => kind == SyntaxKind::NEWLINE,
        SyntaxKind::ENTRY => kind == SyntaxKind::EQ,
        SyntaxKind::KEY => kind == SyntaxKind::IDENT || kind == SyntaxKind::PERIOD,
        SyntaxKind::VALUE => is_single(kind),
        SyntaxKind::ARRAY => true,
        SyntaxKind::INLINE_TABLE => kind == SyntaxKind::BRACE_START || kind == SyntaxKind::BRACE_END
            || kind == SyntaxKind::COMMA,
        SyntaxKind::TABLE_HEADER | SyntaxKind::TABLE_ARRAY_HEADER => kind
            == SyntaxKind::BRACKET_START || kind == SyntaxKind::BRACKET_END,
        _ => false,
    }
}

/// A node may stand directly in a node.
pub open spec fn node_fits(parent: SyntaxKind, kind: SyntaxKind) -> bool {
    match parent {
        SyntaxKind::ROOT => kind == SyntaxKind::ENTRY || kind == SyntaxKind::TABLE_HEADER || kind
            == SyntaxKind::TABLE_ARRAY_HEADER,
        SyntaxKind::ENTRY => kind == SyntaxKind::KEY || kind == SyntaxKind::VALUE,
        SyntaxKind::VALUE => kind == SyntaxKind::ARRAY || kind == SyntaxKind::INLINE_TABLE,
        SyntaxKind::ARRAY => kind == SyntaxKind::VALUE,
        SyntaxKind::INLINE_TABLE => kind == SyntaxKind::ENTRY,
        SyntaxKind::TABLE_HEADER | SyntaxKind::TABLE_ARRAY_HEADER => kind == SyntaxKind::KEY,
        _ => false,
    }
}

/// A node of a kind is the one that was entered last.
pub open spec fn inside_of(tree: Seq<TreeEvent>, parent: SyntaxKind) -> bool {
    open_kinds(tree).len() > 0 && open_kinds(tree).last() == parent.number()
}

/// An event of a walk may stand in the node that it stands in; the first one
/// enters the root.
pub open spec fn event_fits(tree: Seq<TreeEvent>, k: int) -> bool {
    match tree[k] {
        TreeEvent::Open { kind } => if k == 0 {
            kind == SyntaxKind::ROOT.number()
        } else {
            exists|parent: SyntaxKind, child: SyntaxKind|
                inside_of(tree.take(k), parent) && kind == child.number() && #[trigger] node_fits(
                    parent,
                    child,
                )
        },
        TreeEvent::Token { kind, .. } => exists|parent: SyntaxKind, child: SyntaxKind|
            inside_of(tree.take(k), parent) && kind == child.number() && #[trigger] token_fits(
                parent,
                child,
            ),
        TreeEvent::Close => open_kinds(tree.take(k)).len() > 0,
    }
}

/// Every event of a walk may stand where it stands.
pub open spec fn all_fit(tree: Seq<TreeEvent>) -> bool {
    forall|k: int| 0 <= k < tree.len() ==> #[trigger] event_fits(tree, k)
}

/// The range of an error is that of a token.
pub open spec fn is_about(toks: Seq<Tok>, n: int, e: ErrorView) -> bool {
    &&& 0 <= n < toks.len()
    &&& e.start == toks[n].start
    &&& e.end == toks[n].start + toks[n].text.len()
}

/// The range of an error is the end of the text.
pub open spec fn is_at_end(toks: Seq<Tok>, e: ErrorView) -> bool {
    e.start == end_of(toks, toks.len() as int) && e.end == e.start
}

/// The range of an error is an offset in a token.
pub open spec fn is_in(toks: Seq<Tok>, n: int, k: int, e: ErrorView) -> bool {
    &&& 0 <= n < toks.len()
    &&& 0 <= k < toks[n].text.len()
    &&& e.start == toks[n].start + k
    &&& e.end == e.start
}

/// The base of a kind of numbers.
pub open spec fn radix_of(kind: SyntaxKind) -> u32 {
    match kind {
        SyntaxKind::INTEGER_HEX => 16,
        SyntaxKind::INTEGER_OCT => 8,
        SyntaxKind::INTEGER_BIN => 2,
        _ => 10,
    }
}

/// The kinds of numbers.
pub open spec fn is_number(kind: SyntaxKind) -> bool {
    kind == SyntaxKind::INTEGER || kind == SyntaxKind::INTEGER_HEX || kind
        == SyntaxKind::INTEGER_OCT || kind == SyntaxKind::INTEGER_BIN || kind == SyntaxKind::FLOAT
}

/// What a message says of the token it is about.
pub open spec fn says(message: Seq<char>, tok: Tok) -> bool {
    let kind = tok.kind;
    ||| message == "unexpected token"@ && kind == SyntaxKind::ERROR
    ||| message == "expected new line"@ && kind != SyntaxKind::NEWLINE
    ||| message == "expected identifier"@
    ||| message == "unexpected \".\""@ && kind == SyntaxKind::PERIOD
    ||| message == "expected \"=\""@ && kind != SyntaxKind::EQ
    ||| message == "expected value"@ && !is_single(kind) && kind != SyntaxKind::BRACKET_START
        && kind != SyntaxKind::BRACE_START
    ||| message == "invalid underscores"@ && is_number(kind) && !cut_between_digits(
        decode_utf8(tok.text),
        radix_of(kind),
    )
    ||| message == "zero-padded integers are not allowed"@ && kind == SyntaxKind::INTEGER
        && zero_padded(tok.text)
    ||| message == "unexpected \",\""@ && kind == SyntaxKind::COMMA
    ||| message == "expected \",\""@ && kind != SyntaxKind::COMMA && kind != SyntaxKind::NEWLINE
    ||| message == "expected value, trailing comma is not allowed"@ && kind == SyntaxKind::BRACE_END
    ||| message == "newline is not allowed in an inline table"@ && kind == SyntaxKind::NEWLINE
    ||| (message == "expected \"[\""@ || message == "expected \"[[\""@) && kind
        != SyntaxKind::BRACKET_START
    ||| (message == "expected \"]\""@ || message == "expected \"]]\""@) && kind
        != SyntaxKind::BRACKET_END
    ||| message == "expected \"{\""@ && kind != SyntaxKind::BRACE_START
}

/// What a message says of the end of the text.
pub open spec fn says_of_end(message: Seq<char>) -> bool {
    ||| message == "unexpected EOF"@
    ||| message == "unexpected end of input"@
    ||| message == "expected identifier"@
    ||| message == "expected value"@
}

/// What a message says of an offset in the token it is about.
pub open spec fn says_of_byte(message: Seq<char>, tok: Tok, k: int) -> bool {
    let kind = tok.kind;
    ||| message == "invalid character in comment"@ && kind == SyntaxKind::COMMENT && !may_stand(
        tok.text[k],
        false,
    )
    ||| message == "invalid character in string"@ && kind == SyntaxKind::STRING && !may_stand(
        tok.text[k],
        false,
    )
    ||| message == "invalid character in string"@ && (kind == SyntaxKind::MULTI_LINE_STRING || kind
        == SyntaxKind::MULTI_LINE_STRING_LITERAL) && !may_stand(tok.text[k], true)
    ||| message == "invalid control character in string literal"@ && kind
        == SyntaxKind::STRING_LITERAL && !may_stand(tok.text[k], false)
    ||| {
        &&& message == "invalid escape sequence"@
        &&& kind == SyntaxKind::STRING || kind == SyntaxKind::MULTI_LINE_STRING
        &&& tok.text[k] == '\\' as int
        &&& forall|n: int| !#[trigger] escape_in(tok.text, k, n)
    }
}

/// An error is about a token, an offset in one, or the end of the text, and
/// its message is true of that.
pub open spec fn is_true(toks: Seq<Tok>, e: ErrorView) -> bool {
    ||| exists|n: int| #[trigger] is_about(toks, n, e) && says(e.message, toks[n])
    ||| exists|n: int, k: int| #[trigger]
        is_in(toks, n, k, e) && says_of_byte(e.message, toks[n], k)
    ||| is_at_end(toks, e) && says_of_end(e.message)
}

/// Every error is about something, and true of it.
pub open spec fn all_true(toks: Seq<Tok>, errors: Seq<ErrorView>) -> bool {
    forall|i: int| 0 <= i < errors.len() ==> #[trigger] is_true(toks, errors[i])
}

/// An error has the range of an event of a walk.
pub open spec fn is_marked(tree: Seq<TreeEvent>, k: int, e: ErrorView) -> bool {
    &&& e.start == tree_text(tree.take(k)).len()
    &&& e.end == tree_text(tree.take(k + 1)).len()
}

/// An error is reported of an event of a walk.
pub open spec fn is_reported(tree: Seq<TreeEvent>, errors: Seq<ErrorView>, k: int) -> bool {
    exists|i: int| 0 <= i < errors.len() && is_marked(tree, k, #[trigger] errors[i])
}

/// Of every error token an error is reported.
pub open spec fn all_reported(tree: Seq<TreeEvent>, errors: Seq<ErrorView>) -> bool {
    forall|k: int|
        0 <= k < tree.len() && is_error_token(#[trigger] tree[k]) ==> is_reported(tree, errors, k)
}

/// One of the kinds is that of a list: of an array, or of an inline table.
#[verifier::opaque]
pub open spec fn list_among(kinds: Seq<u16>) -> bool {
    kinds.contains(SyntaxKind::ARRAY.number()) || kinds.contains(SyntaxKind::INLINE_TABLE.number())
}

/// A list is open.
pub open spec fn in_list(tree: Seq<TreeEvent>) -> bool {
    list_among(open_kinds(tree))
}

/// An event of a walk is the `n`-th token of a text, at its place.
pub open spec fn is_from(toks: Seq<Tok>, tree: Seq<TreeEvent>, k: int, n: int) -> bool {
    &&& 0 <= n < toks.len()
    &&& toks[n].start == tree_text(tree.take(k)).len()
    &&& tree[k] matches TreeEvent::Token { text, .. } && text == toks[n].text
}

/// An error token is a token of the text, and no line break unless a list is open.
pub open spec fn is_taken(toks: Seq<Tok>, tree: Seq<TreeEvent>, k: int) -> bool {
    exists|n: int| #[trigger]
        is_from(toks, tree, k, n) && (toks[n].kind == SyntaxKind::NEWLINE ==> in_list(tree.take(k)))
}

/// Line breaks are error tokens in lists alone.
pub open spec fn breaks_left(toks: Seq<Tok>, tree: Seq<TreeEvent>) -> bool {
    forall|k: int|
        0 <= k < tree.len() && is_error_token(#[trigger] tree[k]) ==> is_taken(toks, tree, k)
}

/// A text is a single character.
pub open spec fn is_sign(text: Seq<u8>, c: char) -> bool {
    text.len() == 1 && text[0] == c as int
}

/// A text holds no period.
pub open spec fn no_period(text: Seq<u8>) -> bool {
    forall|k: int| 0 <= k < text.len() ==> #[trigger] text[k] != '.' as int
}

/// A text holds no quote.
pub open spec fn no_quote(text: Seq<u8>) -> bool {
    forall|k: int|
        0 <= k < text.len() ==> #[trigger] text[k] != '"' as int && text[k] != '\'' as int
}

/// A text starts with a quote.
pub open spec fn is_quoted(text: Seq<u8>) -> bool {
    text.len() > 0 && (text[0] == '"' as int || text[0] == '\'' as int)
}

/// The text of a token is one that its kind can have: signs are written as
/// they are, and identifiers and numbers hold no quotes, nor periods but for
/// floats.
pub open spec fn text_suits(kind: SyntaxKind, text: Seq<u8>) -> bool {
    match kind {
        SyntaxKind::PERIOD => is_sign(text, '.'),
        SyntaxKind::COMMA => is_sign(text, ','),
        SyntaxKind::EQ => is_sign(text, '='),
        SyntaxKind::BRACKET_START => is_sign(text, '['),
        SyntaxKind::BRACKET_END => is_sign(text, ']'),
        SyntaxKind::BRACE_START => is_sign(text, '{'),
        SyntaxKind::BRACE_END => is_sign(text, '}'),
        SyntaxKind::IDENT | SyntaxKind::INTEGER => no_period(text) && no_quote(text),
        SyntaxKind::FLOAT => no_quote(text),
        SyntaxKind::STRING => is_quoted(text) && text[0] == '"' as int,
        SyntaxKind::STRING_LITERAL => is_quoted(text) && text[0] == '\'' as int,
        _ => true,
    }
}

/// The texts of all tokens are those that their kinds can have.
pub open spec fn all_suit(toks: Seq<Tok>) -> bool {
    forall|i: int| 0 <= i < toks.len() ==> text_suits((#[trigger] toks[i]).kind, toks[i].text)
}

/// The text of a token in a tree is one that its kind can have there: a part of
/// a key holds no period, unless it is quoted.
pub open spec fn leaf_suits(kind: SyntaxKind, text: Seq<u8>) -> bool {
    if kind == SyntaxKind::IDENT {
        no_period(text) || is_quoted(text)
    } else {
        text_suits(kind, text)
    }
}

/// An event is no token, or its text is one that its kind can have.
pub open spec fn event_suits(e: TreeEvent) -> bool {
    forall|kind: SyntaxKind, text: Seq<u8>|
        e == (TreeEvent::Token { kind: kind.number(), text }) ==> #[trigger] leaf_suits(kind, text)
}

/// The texts of all tokens in a tree are those that their kinds can have.
pub open spec fn leaves_suit(tree: Seq<TreeEvent>) -> bool {
    forall|k: int| 0 <= k < tree.len() ==> #[trigger] event_suits(tree[k])
}

/// An error with a message is reported of an offset.
pub open spec fn is_told(errors: Seq<ErrorView>, at: int, message: Seq<char>) -> bool {
    errors.contains(ErrorView { start: at, end: at, message })
}

/// Of every byte of a text that may not stand there an error is reported; the
/// text starts at an offset.
pub open spec fn bytes_told(
    text: Seq<u8>,
    at: int,
    multi_line: bool,
    errors: Seq<ErrorView>,
    message: Seq<char>,
) -> bool {
    forall|b: int|
        0 <= b < text.len() && !may_stand(#[trigger] text[b], multi_line) ==> is_told(
            errors,
            at + b,
            message,
        )
}

/// Of every wrong escape sequence of a text an error is reported; the text
/// starts at an offset.
pub open spec fn escapes_told(text: Seq<u8>, at: int, errors: Seq<ErrorView>) -> bool {
    forall|i: int|
        0 <= i < escape_errors(text, 0).len() ==> is_told(
            errors,
            at + #[trigger] escape_errors(text, 0)[i],
            "invalid escape sequence"@,
        )
}

/// What is wrong in a token of a tree is reported: in comments, in quoted parts
/// of keys, and in quoted values. Numbers that are values are well written.
pub open spec fn leaf_told(
    parent: SyntaxKind,
    kind: SyntaxKind,
    text: Seq<u8>,
    at: int,
    errors: Seq<ErrorView>,
) -> bool {
    match kind {
        SyntaxKind::COMMENT => bytes_told(text, at, false, errors, "invalid character in comment"@),
        SyntaxKind::IDENT => {
            &&& text.len() > 0 && text[0] == '"' as int ==> bytes_told(
                text,
                at,
                false,
                errors,
                "invalid character in string"@,
            ) && escapes_told(text, at, errors)
            &&& text.len() > 0 && text[0] == '\'' as int ==> bytes_told(
                text,
                at,
                false,
                errors,
                "invalid control character in string literal"@,
            )
        },
        SyntaxKind::STRING | SyntaxKind::MULTI_LINE_STRING => parent == SyntaxKind::VALUE ==> {
            &&& bytes_told(
                text,
                at,
                kind == SyntaxKind::MULTI_LINE_STRING,
                errors,
                "invalid character in string"@,
            )
            &&& escapes_told(text, at, errors)
        },
        SyntaxKind::STRING_LITERAL => parent == SyntaxKind::VALUE ==> bytes_told(
            text,
            at,
            false,
            errors,
            "invalid control character in string literal"@,
        ),
        SyntaxKind::MULTI_LINE_STRING_LITERAL => parent == SyntaxKind::VALUE ==> bytes_told(
            text,
            at,
            true,
            errors,
            "invalid character in string"@,
        ),
        SyntaxKind::INTEGER
        | SyntaxKind::INTEGER_HEX
        | SyntaxKind::INTEGER_OCT
        | SyntaxKind::INTEGER_BIN
        | SyntaxKind::FLOAT => parent == SyntaxKind::VALUE ==> {
            &&& cut_between_digits(decode_utf8(text), radix_of(kind))
            &&& kind == SyntaxKind::INTEGER ==> !zero_padded(text)
        },
        _ => true,
    }
}

/// What is wrong in the token at an index of a walk, if one stands there, is
/// reported.
pub open spec fn event_told(tree: Seq<TreeEvent>, k: int, errors: Seq<ErrorView>) -> bool {
    forall|parent: SyntaxKind, kind: SyntaxKind, text: Seq<u8>|
        inside_of(tree.take(k), parent) && tree[k] == (TreeEvent::Token {
            kind: kind.number(),
            text,
        }) ==> #[trigger] leaf_told(
            parent,
            kind,
            text,
            tree_text(tree.take(k)).len() as int,
            errors,
        )
}

/// What is wrong in the tokens of a tree is reported.
pub open spec fn all_told(tree: Seq<TreeEvent>, errors: Seq<ErrorView>) -> bool {
    forall|k: int| 0 <= k < tree.len() ==> #[trigger] event_told(tree, k, errors)
}

/// The parser stands at a token, or between two, or at the end.
spec fn placed(s: State) -> bool {
    &&& tiled(s.toks)
    &&& s.skip_whitespace
    &&& 0 <= s.pos <= s.toks.len()
    &&& s.end() == end_of(s.toks, s.pos)
    &&& s.current is Some ==> {
        &&& s.pos > 0
        &&& s.start == s.toks[s.pos - 1].start
        &&& s.text == s.toks[s.pos - 1].text
        &&& s.current == Some(s.toks[s.pos - 1].kind)
        &&& !is_trivia(s.current->0)
    }
    &&& tree_text(s.tree).len() == if s.current is Some {
        s.start
    } else {
        s.end()
    }
}

/// There is a current token, or the text is at its end.
spec fn settled(s: State) -> bool {
    s.current is None ==> s.pos == s.toks.len() && s.text.len() == 0
}

/// All that is claimed of a parse, while it goes on.
#[verifier::opaque]
spec fn right(toks: Seq<Tok>, tree: Seq<TreeEvent>, errors: Seq<ErrorView>) -> bool {
    &&& all_fit(tree)
    &&& all_true(toks, errors)
    &&& all_reported(tree, errors)
    &&& breaks_left(toks, tree)
    &&& all_suit(toks) ==> leaves_suit(tree) && all_told(tree, errors)
}

/// An error does not take a line break, unless a list is open.
spec fn spares_breaks(s: State) -> bool {
    in_list(s.tree) || s.whitelisted(SyntaxKind::NEWLINE)
}

/// All is right, in a node of a kind.
spec fn sound(s: State, parent: SyntaxKind) -> bool {
    &&& placed(s)
    &&& right(s.toks, s.tree, s.errors)
    &&& inside_of(s.tree, parent)
}

/// The parse went on from `a` to `b`, all is right, and the same nodes are open.
spec fn goes_well(a: State, b: State, parent: SyntaxKind) -> bool {
    &&& sound(b, parent)
    &&& b.toks == a.toks
    &&& open_kinds(b.tree) == open_kinds(a.tree)
}

proof fn lemma_kinds_push(tree: Seq<TreeEvent>, e: TreeEvent)
    ensures
        open_kinds(tree.push(e)) == match e {
            TreeEvent::Open { kind } => open_kinds(tree).push(kind),
            TreeEvent::Token { .. } => open_kinds(tree),
            TreeEvent::Close => if open_kinds(tree).len() > 0 {
                open_kinds(tree).drop_last()
            } else {
                open_kinds(tree)
            },
        },
{
    assert(tree.push(e).drop_last() =~= tree);
}

proof fn lemma_fit_push(tree: Seq<TreeEvent>, e: TreeEvent)
    requires
        all_fit(tree),
        event_fits(tree.push(e), tree.len() as int),
    ensures
        all_fit(tree.push(e)),
{
    let t = tree.push(e);
    assert forall|k: int| 0 <= k < t.len() implies #[trigger] event_fits(t, k) by {
        if k < tree.len() {
            assert(event_fits(tree, k));
            assert(t.take(k) =~= tree.take(k));
        }
    }
}

proof fn lemma_reported_push(tree: Seq<TreeEvent>, errors: Seq<ErrorView>, e: TreeEvent)
    requires
        all_reported(tree, errors),
        is_error_token(e) ==> is_reported(tree.push(e), errors, tree.len() as int),
    ensures
        all_reported(tree.push(e), errors),
{
    let t = tree.push(e);
    assert forall|k: int| 0 <= k < t.len() && is_error_token(#[trigger] t[k]) implies is_reported(
        t,
        errors,
        k,
    ) by {
        if k < tree.len() {
            assert(is_error_token(tree[k]));
            assert(is_reported(tree, errors, k));
            assert(t.take(k) =~= tree.take(k));
            assert(t.take(k + 1) =~= tree.take(k + 1));
            let i = choose|i: int| 0 <= i < errors.len() && is_marked(
                tree,
                k,
                #[trigger] errors[i],
            );
            assert(is_marked(t, k, errors[i]));
        }
    }
}

proof fn lemma_left_push(toks: Seq<Tok>, tree: Seq<TreeEvent>, e: TreeEvent)
    requires
        breaks_left(toks, tree),
        is_error_token(e) ==> is_taken(toks, tree.push(e), tree.len() as int),
    ensures
        breaks_left(toks, tree.push(e)),
{
    let t = tree.push(e);
    assert forall|k: int| 0 <= k < t.len() && is_error_token(#[trigger] t[k]) implies is_taken(
        toks,
        t,
        k,
    ) by {
        if k < tree.len() {
            assert(is_error_token(tree[k]));
            assert(is_taken(toks, tree, k));
            assert(t.take(k) =~= tree.take(k));
            let n = choose|n: int| #[trigger]
                is_from(toks, tree, k, n) && (toks[n].kind == SyntaxKind::NEWLINE ==> in_list(
                    tree.take(k),
                ));
            assert(is_from(toks, t, k, n));
        }
    }
}

proof fn lemma_leaf_suits(kind: SyntaxKind, text: Seq<u8>)
    requires
        leaf_suits(kind, text),
    ensures
        event_suits(TreeEvent::Token { kind: kind.number(), text }),
{
    let e = TreeEvent::Token { kind: kind.number(), text };
    assert forall|other: SyntaxKind, t: Seq<u8>|
        e == (TreeEvent::Token { kind: other.number(), text: t }) implies #[trigger] leaf_suits(
        other,
        t,
    ) by {
        kinds_have_distinct_numbers(kind, other);
    }
}

proof fn lemma_suit_push(tree: Seq<TreeEvent>, e: TreeEvent)
    requires
        leaves_suit(tree),
        event_suits(e),
    ensures
        leaves_suit(tree.push(e)),
{
    let t = tree.push(e);
    assert forall|k: int| 0 <= k < t.len() implies #[trigger] event_suits(t[k]) by {
        if k < tree.len() {
            assert(event_suits(tree[k]));
        }
    }
}

proof fn lemma_leaf_told(
    tree: Seq<TreeEvent>,
    parent: SyntaxKind,
    kind: SyntaxKind,
    text: Seq<u8>,
    errors: Seq<ErrorView>,
)
    requires
        inside_of(tree, parent),
        leaf_told(parent, kind, text, tree_text(tree).len() as int, errors),
    ensures
        event_told(
            tree.push(TreeEvent::Token { kind: kind.number(), text }),
            tree.len() as int,
            errors,
        ),
{
    let e = TreeEvent::Token { kind: kind.number(), text };
    let t = tree.push(e);
    let k = tree.len() as int;
    assert(t.take(k) =~= tree);
    assert forall|other: SyntaxKind, own: SyntaxKind, tx: Seq<u8>|
        inside_of(t.take(k), other) && t[k] == (TreeEvent::Token {
            kind: own.number(),
            text: tx,
        }) implies #[trigger] leaf_told(
        other,
        own,
        tx,
        tree_text(t.take(k)).len() as int,
        errors,
    ) by {
        kinds_have_distinct_numbers(kind, own);
        kinds_have_distinct_numbers(parent, other);
    }
}

proof fn lemma_told_push(tree: Seq<TreeEvent>, e: TreeEvent, errors: Seq<ErrorView>)
    requires
        all_told(tree, errors),
        e is Token ==> event_told(tree.push(e), tree.len() as int, errors),
    ensures
        all_told(tree.push(e), errors),
{
    let t = tree.push(e);
    assert forall|k: int| 0 <= k < t.len() implies #[trigger] event_told(t, k, errors) by {
        if k < tree.len() {
            assert(event_told(tree, k, errors));
            assert(t.take(k) =~= tree.take(k));
        }
    }
}

/// What is reported stays reported.
proof fn lemma_told_more(
    parent: SyntaxKind,
    kind: SyntaxKind,
    text: Seq<u8>,
    at: int,
    errors: Seq<ErrorView>,
    more: Seq<ErrorView>,
)
    requires
        leaf_told(parent, kind, text, at, errors),
        errors.is_prefix_of(more),
    ensures
        leaf_told(parent, kind, text, at, more),
{
    assert forall|a: int, message: Seq<char>| #[trigger]
        is_told(errors, a, message) implies is_told(more, a, message) by {
        let e = ErrorView { start: a, end: a, message };
        let i = choose|i: int| 0 <= i < errors.len() && errors[i] == e;
        assert(more[i] == e);
    }
    assert forall|message: Seq<char>, multi_line: bool| #[trigger]
        bytes_told(text, at, multi_line, errors, message) implies bytes_told(
        text,
        at,
        multi_line,
        more,
        message,
    ) by {
        assert forall|b: int| 0 <= b < text.len() && !may_stand(#[trigger] text[b], multi_line)
            implies is_told(more, at + b, message) by {
            assert(is_told(errors, at + b, message));
        }
    }
    if escapes_told(text, at, errors) {
        assert forall|i: int| 0 <= i < escape_errors(text, 0).len() implies is_told(
            more,
            at + #[trigger] escape_errors(text, 0)[i],
            "invalid escape sequence"@,
        ) by {
            assert(is_told(
                errors,
                at + escape_errors(text, 0)[i],
                "invalid escape sequence"@,
            ));
        }
    }
}

proof fn lemma_all_told_more(
    tree: Seq<TreeEvent>,
    errors: Seq<ErrorView>,
    more: Seq<ErrorView>,
)
    requires
        all_told(tree, errors),
        errors.is_prefix_of(more),
    ensures
        all_told(tree, more),
{
    assert forall|k: int| 0 <= k < tree.len() implies #[trigger] event_told(tree, k, more) by {
        assert(event_told(tree, k, errors));
        assert forall|parent: SyntaxKind, kind: SyntaxKind, text: Seq<u8>|
            inside_of(tree.take(k), parent) && tree[k] == (TreeEvent::Token {
                kind: kind.number(),
                text,
            }) implies #[trigger] leaf_told(
            parent,
            kind,
            text,
            tree_text(tree.take(k)).len() as int,
            more,
        ) by {
            let at = tree_text(tree.take(k)).len() as int;
            assert(leaf_told(parent, kind, text, at, errors));
            lemma_told_more(parent, kind, text, at, errors, more);
        }
    }
}

/// Of the bytes that may not stand in a text errors are reported.
proof fn lemma_bytes_told(
    errors: Seq<ErrorView>,
    text: Seq<u8>,
    at: int,
    multi_line: bool,
    message: Seq<char>,
)
    ensures
        bytes_told(
            text,
            at,
            multi_line,
            push_errors_at(errors, at, forbidden_offsets(text, multi_line), message),
            message,
        ),
{
    let offsets = forbidden_offsets(text, multi_line);
    let more = push_errors_at(errors, at, offsets, message);
    forbidden_bytes_are_found(text, multi_line);
    reported_offsets_are_listed(errors, at, offsets, message);
    assert forall|b: int| 0 <= b < text.len() && !may_stand(#[trigger] text[b], multi_line) implies
    is_told(more, at + b, message) by {
        assert(offsets.contains(b));
        let i = choose|i: int| 0 <= i < offsets.len() && offsets[i] == b;
        assert(offsets[i] == b);
    }
}

/// Of the bytes and of the escape sequences of a string errors are reported.
proof fn lemma_string_told(
    errors: Seq<ErrorView>,
    text: Seq<u8>,
    at: int,
    multi_line: bool,
)
    ensures
        ({
            let message = "invalid character in string"@;
            let before = push_errors_at(errors, at, forbidden_offsets(text, multi_line), message);
            let more = push_errors_at(
                before,
                at,
                escape_errors(text, 0),
                "invalid escape sequence"@,
            );
            bytes_told(text, at, multi_line, more, message) && escapes_told(text, at, more)
        }),
{
    let message = "invalid character in string"@;
    let bad = "invalid escape sequence"@;
    let offsets = escape_errors(text, 0);
    let before = push_errors_at(errors, at, forbidden_offsets(text, multi_line), message);
    let more = push_errors_at(before, at, offsets, bad);
    lemma_bytes_told(errors, text, at, multi_line, message);
    reported_offsets_are_listed(before, at, offsets, bad);
    assert forall|b: int| 0 <= b < text.len() && !may_stand(#[trigger] text[b], multi_line) implies
    is_told(more, at + b, message) by {
        let e = ErrorView { start: at + b, end: at + b, message };
        assert(is_told(before, at + b, message));
        let i = choose|i: int| 0 <= i < before.len() && before[i] == e;
        assert(more[i] == e);
    }
    assert forall|i: int| 0 <= i < offsets.len() implies is_told(
        more,
        at + #[trigger] offsets[i],
        bad,
    ) by {}
}

/// A token that fits its node is added; if it is an error, it is the `n`-th of
/// the text, and reported.
proof fn lemma_right_token(
    toks: Seq<Tok>,
    tree: Seq<TreeEvent>,
    errors: Seq<ErrorView>,
    parent: SyntaxKind,
    kind: SyntaxKind,
    text: Seq<u8>,
    i: int,
    n: int,
)
    requires
        right(toks, tree, errors),
        inside_of(tree, parent),
        token_fits(parent, kind),
        all_suit(toks) ==> leaf_suits(kind, text) && leaf_told(
            parent,
            kind,
            text,
            tree_text(tree).len() as int,
            errors,
        ),
        kind == SyntaxKind::ERROR ==> {
            &&& 0 <= n < toks.len()
            &&& toks[n].start == tree_text(tree).len()
            &&& toks[n].text == text
            &&& toks[n].kind == SyntaxKind::NEWLINE ==> in_list(tree)
            &&& 0 <= i < errors.len()
            &&& errors[i].start == tree_text(tree).len()
            &&& errors[i].end == errors[i].start + text.len()
        },
    ensures
        right(toks, tree.push(TreeEvent::Token { kind: kind.number(), text }), errors),
        open_kinds(tree.push(TreeEvent::Token { kind: kind.number(), text })) == open_kinds(tree),
        tree_text(tree.push(TreeEvent::Token { kind: kind.number(), text })).len() == tree_text(
            tree,
        ).len() + text.len(),
{
    reveal(right);
    let e = TreeEvent::Token { kind: kind.number(), text };
    let t = tree.push(e);
    let k = tree.len() as int;
    lemma_kinds_push(tree, e);
    lemma_walk_push(tree, e);
    assert(t.take(k) =~= tree);
    assert(t.take(k + 1) =~= t);
    assert(event_fits(t, k));
    lemma_fit_push(tree, e);
    if is_error_token(e) {
        assert(kind == SyntaxKind::ERROR);
        assert(is_marked(t, k, errors[i]));
        assert(is_from(toks, t, k, n));
    }
    lemma_reported_push(tree, errors, e);
    lemma_left_push(toks, tree, e);
    if all_suit(toks) {
        lemma_leaf_suits(kind, text);
        lemma_suit_push(tree, e);
        lemma_leaf_told(tree, parent, kind, text, errors);
        lemma_told_push(tree, e, errors);
    }
}

/// More errors, all of them true.
proof fn lemma_right_errors(
    toks: Seq<Tok>,
    tree: Seq<TreeEvent>,
    errors: Seq<ErrorView>,
    more: Seq<ErrorView>,
)
    requires
        right(toks, tree, errors),
        errors.is_prefix_of(more),
        all_true(toks, more),
    ensures
        right(toks, tree, more),
{
    reveal(right);
    assert forall|k: int|
        0 <= k < tree.len() && is_error_token(#[trigger] tree[k]) implies is_reported(
        tree,
        more,
        k,
    ) by {
        assert(is_reported(tree, errors, k));
        let i = choose|i: int| 0 <= i < errors.len() && is_marked(tree, k, #[trigger] errors[i]);
        assert(more[i] == errors[i]);
    }
    if all_suit(toks) {
        lemma_all_told_more(tree, errors, more);
    }
}

proof fn lemma_w_report(s: State, parent: SyntaxKind, message: Seq<char>)
    requires
        sound(s, parent),
        is_true(s.toks, (ErrorView { start: s.start, end: s.end(), message })),
    ensures
        goes_well(s, s.report(message), parent),
        s.report(message).errors.len() > 0,
        s.report(message).errors.last() == (ErrorView { start: s.start, end: s.end(), message }),
{
    let e = ErrorView { start: s.start, end: s.end(), message };
    let more = s.report(message).errors;
    assert(all_true(s.toks, more)) by {
        reveal(right);
        assert forall|i: int| 0 <= i < more.len() implies #[trigger] is_true(s.toks, more[i]) by {
            if i < s.errors.len() {
                assert(is_true(s.toks, s.errors[i]));
            }
        }
    }
    lemma_right_errors(s.toks, s.tree, s.errors, more);
}

proof fn lemma_push_all_true(
    toks: Seq<Tok>,
    errors: Seq<ErrorView>,
    n: int,
    offsets: Seq<int>,
    message: Seq<char>,
)
    requires
        all_true(toks, errors),
        0 <= n < toks.len(),
        forall|i: int|
            0 <= i < offsets.len() ==> 0 <= #[trigger] offsets[i] < toks[n].text.len()
                && says_of_byte(message, toks[n], offsets[i]),
    ensures
        all_true(toks, push_errors_at(errors, toks[n].start, offsets, message)),
        errors.is_prefix_of(push_errors_at(errors, toks[n].start, offsets, message)),
    decreases offsets.len(),
{
    if offsets.len() > 0 {
        let front = offsets.drop_last();
        assert forall|i: int| 0 <= i < front.len() implies 0 <= #[trigger] front[i]
            < toks[n].text.len() && says_of_byte(message, toks[n], front[i]) by {
            assert(front[i] == offsets[i]);
        }
        lemma_push_all_true(toks, errors, n, front, message);
        let before = push_errors_at(errors, toks[n].start, front, message);
        let after = push_errors_at(errors, toks[n].start, offsets, message);
        let k = offsets[offsets.len() - 1];
        let e = ErrorView { start: toks[n].start + k, end: toks[n].start + k, message };
        assert(is_in(toks, n, k, e));
        assert(is_true(toks, e));
        assert forall|i: int| 0 <= i < after.len() implies #[trigger] is_true(toks, after[i]) by {
            if i < before.len() {
                assert(is_true(toks, before[i]));
            }
        }
        assert forall|i: int| 0 <= i < errors.len() implies errors[i] == after[i] by {
            assert(errors[i] == before[i]);
        }
    }
}

/// Offsets in the token that was handed out last are reported.
proof fn lemma_right_offsets(
    toks: Seq<Tok>,
    tree: Seq<TreeEvent>,
    errors: Seq<ErrorView>,
    n: int,
    offsets: Seq<int>,
    message: Seq<char>,
)
    requires
        right(toks, tree, errors),
        0 <= n < toks.len(),
        forall|i: int|
            0 <= i < offsets.len() ==> 0 <= #[trigger] offsets[i] < toks[n].text.len()
                && says_of_byte(message, toks[n], offsets[i]),
    ensures
        right(toks, tree, push_errors_at(errors, toks[n].start, offsets, message)),
{
    assert(all_true(toks, errors)) by {
        reveal(right);
    }
    lemma_push_all_true(toks, errors, n, offsets, message);
    lemma_right_errors(
        toks,
        tree,
        errors,
        push_errors_at(errors, toks[n].start, offsets, message),
    );
}

/// The offsets of the bytes that may not stand somewhere are those.
proof fn lemma_forbidden(text: Seq<u8>, multi_line: bool)
    ensures
        forall|i: int|
            0 <= i < forbidden_offsets(text, multi_line).len() ==> 0
                <= #[trigger] forbidden_offsets(text, multi_line)[i] < text.len() && !may_stand(
                text[forbidden_offsets(text, multi_line)[i]],
                multi_line,
            ),
{
    let offsets = forbidden_offsets(text, multi_line);
    forbidden_bytes_are_found(text, multi_line);
    assert forall|i: int| 0 <= i < offsets.len() implies 0 <= #[trigger] offsets[i] < text.len()
        && !may_stand(text[offsets[i]], multi_line) by {
        assert(offsets.contains(offsets[i]));
    }
}

/// No escape sequence stands at the offsets that are reported.
proof fn lemma_bad_escapes(text: Seq<u8>, at: int)
    requires
        0 <= at,
    ensures
        forall|i: int|
            0 <= i < escape_errors(text, at).len() ==> {
                let k = #[trigger] escape_errors(text, at)[i];
                0 <= k < text.len() && text[k] == '\\' as int && forall|n: int|
                    !#[trigger] escape_in(text, k, n)
            },
    decreases text.len() - at,
{
    bad_escapes_are_found(text, at);
    if at < text.len() {
        if text[at] != '\\' as int {
            lemma_bad_escapes(text, at + 1);
        } else if exists|n: int| #[trigger] escape_in(text, at, n) {
            let n = choose|n: int| #[trigger] escape_in(text, at, n);
            assert(is_escape(text.subrange(at, at + n)));
            lemma_bad_escapes(text, at + n);
        } else {
            assert forall|n: int|
                #![trigger text.subrange(at, at + n)]
                0 < n && at + n <= text.len() implies !is_escape(text.subrange(at, at + n)) by {
                assert(!escape_in(text, at, n));
            }
            lemma_bad_escapes(text, at + 1);
            let later = escape_errors(text, at + 1);
            assert forall|i: int| 0 <= i < escape_errors(text, at).len() implies {
                let k = #[trigger] escape_errors(text, at)[i];
                0 <= k < text.len() && text[k] == '\\' as int && forall|n: int|
                    !#[trigger] escape_in(text, k, n)
            } by {
                if i > 0 {
                    assert(escape_errors(text, at)[i] == later[i - 1]);
                }
            }
        }
    }
}

proof fn lemma_w_step(s: State, parent: SyntaxKind)
    requires
        sound(State { current: None, ..s }, parent),
    ensures
        goes_well(s, s.step(), parent),
        settled(s.step()),
        s.step().whitelist == s.whitelist,
    decreases s.toks.len() - s.pos,
{
    if s.pos < s.toks.len() {
        let n = State { current: None, ..s }.next();
        let tok = s.toks[s.pos];
        let kind = tok.kind;
        assert(tok.start == end_of(s.toks, s.pos));
        if kind == SyntaxKind::COMMENT {
            let offsets = forbidden_offsets(n.text, false);
            let message = "invalid character in comment"@;
            lemma_forbidden(n.text, false);
            lemma_right_offsets(s.toks, s.tree, s.errors, s.pos, offsets, message);
            let r = n.report_at(offsets, message);
            lemma_bytes_told(s.errors, n.text, n.start, false, message);
            lemma_right_token(s.toks, s.tree, r.errors, parent, kind, n.text, 0, 0);
            lemma_w_step(r.emit(kind, n.text), parent);
        } else if kind == SyntaxKind::WHITESPACE {
            lemma_right_token(s.toks, s.tree, s.errors, parent, kind, n.text, 0, 0);
            lemma_w_step(n.emit(kind, n.text), parent);
        } else if kind == SyntaxKind::ERROR {
            let message = "unexpected token"@;
            let e = ErrorView { start: n.start, end: n.end(), message };
            assert(is_about(s.toks, s.pos, e));
            assert(is_true(s.toks, e));
            let m = State { tree: s.tree, ..n };
            let r = m.report(message);
            assert(all_true(s.toks, r.errors)) by {
                reveal(right);
                assert forall|i: int| 0 <= i < r.errors.len() implies #[trigger] is_true(
                    s.toks,
                    r.errors[i],
                ) by {
                    if i < s.errors.len() {
                        assert(is_true(s.toks, s.errors[i]));
                    }
                }
            }
            lemma_right_errors(s.toks, s.tree, s.errors, r.errors);
            lemma_right_token(
                s.toks,
                s.tree,
                r.errors,
                parent,
                kind,
                n.text,
                r.errors.len() - 1,
                s.pos,
            );
            assert(n.emit(kind, n.text).report(message) == r.emit(kind, n.text));
            lemma_w_step(r.emit(kind, n.text), parent);
        }
    }
}

proof fn lemma_w_peek(s: State, parent: SyntaxKind)
    requires
        sound(s, parent),
    ensures
        goes_well(s, s.peek(), parent),
        settled(s.peek()),
        s.peek().whitelist == s.whitelist,
{
    if s.current is None {
        assert(State { current: None, ..s } == s);
        lemma_w_step(s, parent);
    }
}

/// The current token goes into the tree; where it does so as an error, one with
/// its range is the `i`-th.
proof fn lemma_w_emit(s: State, parent: SyntaxKind, kind: SyntaxKind, i: int)
    requires
        sound(s, parent),
        s.current is Some,
        token_fits(parent, kind),
        all_suit(s.toks) ==> leaf_suits(kind, s.text) && leaf_told(
            parent,
            kind,
            s.text,
            s.start,
            s.errors,
        ),
        kind == SyntaxKind::ERROR ==> {
            &&& 0 <= i < s.errors.len()
            &&& s.errors[i].start == s.start
            &&& s.errors[i].end == s.end()
            &&& s.current == Some(SyntaxKind::NEWLINE) ==> in_list(s.tree)
        },
    ensures
        goes_well(s, s.emit(kind, s.text).step(), parent),
        settled(s.emit(kind, s.text).step()),
        s.emit(kind, s.text).step().whitelist == s.whitelist,
{
    lemma_right_token(s.toks, s.tree, s.errors, parent, kind, s.text, i, s.pos - 1);
    lemma_w_step(s.emit(kind, s.text), parent);
}

proof fn lemma_w_token_as(s: State, parent: SyntaxKind, kind: SyntaxKind)
    requires
        sound(s, parent),
        token_fits(parent, kind),
        kind != SyntaxKind::ERROR,
        s.peek().current is Some && all_suit(s.toks) ==> leaf_suits(kind, s.peek().text)
            && leaf_told(parent, kind, s.peek().text, s.peek().start, s.peek().errors),
    ensures
        goes_well(s, s.token_as(kind).0, parent),
        settled(s.token_as(kind).0),
        s.token_as(kind).0.whitelist == s.whitelist,
{
    lemma_w_peek(s, parent);
    if s.peek().current is Some {
        lemma_w_emit(s.peek(), parent, kind, 0);
    }
}

proof fn lemma_w_token(s: State, parent: SyntaxKind)
    requires
        sound(s, parent),
        s.peek().current matches Some(kind) ==> token_fits(parent, kind),
        all_suit(s.toks) ==> (s.peek().current matches Some(kind) ==> leaf_told(
            parent,
            kind,
            s.peek().text,
            s.peek().start,
            s.peek().errors,
        )),
    ensures
        goes_well(s, s.token().0, parent),
        settled(s.token().0),
        s.token().0.whitelist == s.whitelist,
{
    lemma_w_peek(s, parent);
    if s.peek().current is Some {
        lemma_w_token_as(s.peek(), parent, s.peek().current->0);
    }
}

/// An error about the current token, or about the end of the text.
proof fn lemma_w_error(s: State, parent: SyntaxKind, message: Seq<char>)
    requires
        sound(s, parent),
        settled(s),
        s.current is Some ==> says(message, s.toks[s.pos - 1]),
        s.current is None ==> says_of_end(message),
        s.current == Some(SyntaxKind::NEWLINE) ==> spares_breaks(s),
    ensures
        goes_well(s, s.error(message), parent),
        settled(s.error(message)),
        s.error(message).whitelist == s.whitelist,
{
    lemma_about(s, message);
    lemma_w_report(s, parent, message);
    let r = s.report(message);
    if r.current is Some && !r.whitelisted(r.current->0) {
        assert(r.peek() == r);
        lemma_w_emit(r, parent, SyntaxKind::ERROR, r.errors.len() - 1);
    }
}

/// What is said of the current token, or of the end of the text, is true of it.
proof fn lemma_about(s: State, message: Seq<char>)
    requires
        placed(s),
        settled(s),
        s.current is Some ==> says(message, s.toks[s.pos - 1]),
        s.current is None ==> says_of_end(message),
    ensures
        is_true(s.toks, (ErrorView { start: s.start, end: s.end(), message })),
{
    let e = ErrorView { start: s.start, end: s.end(), message };
    if s.current is Some {
        assert(is_about(s.toks, s.pos - 1, e));
    } else {
        assert(is_at_end(s.toks, e));
    }
}

/// Offsets in the current token are reported.
proof fn lemma_w_report_at(s: State, parent: SyntaxKind, offsets: Seq<int>, message: Seq<char>)
    requires
        sound(s, parent),
        s.current is Some,
        forall|i: int|
            0 <= i < offsets.len() ==> 0 <= #[trigger] offsets[i] < s.text.len() && says_of_byte(
                message,
                s.toks[s.pos - 1],
                offsets[i],
            ),
    ensures
        goes_well(s, s.report_at(offsets, message), parent),
{
    lemma_right_offsets(s.toks, s.tree, s.errors, s.pos - 1, offsets, message);
}

/// A message says that a token of another kind was expected.
spec fn expects(message: Seq<char>, kind: SyntaxKind) -> bool {
    ||| message == "expected \"=\""@ && kind == SyntaxKind::EQ
    ||| (message == "expected \"[\""@ || message == "expected \"[[\""@) && kind
        == SyntaxKind::BRACKET_START
    ||| (message == "expected \"]\""@ || message == "expected \"]]\""@) && kind
        == SyntaxKind::BRACKET_END
    ||| message == "expected \"{\""@ && kind == SyntaxKind::BRACE_START
}

proof fn lemma_w_expect(s: State, parent: SyntaxKind, kind: SyntaxKind, message: Seq<char>)
    requires
        sound(s, parent),
        token_fits(parent, kind),
        expects(message, kind),
        spares_breaks(s),
    ensures
        goes_well(s, s.expect(kind, message).0, parent),
        settled(s.expect(kind, message).0),
        s.expect(kind, message).0.whitelist == s.whitelist,
{
    lemma_w_peek(s, parent);
    let p = s.peek();
    if p.current is None {
        lemma_about(p, "unexpected EOF"@);
        lemma_w_report(p, parent, "unexpected EOF"@);
    } else if p.current->0 == kind {
        lemma_w_token(p, parent);
    } else {
        lemma_w_error(p, parent, message);
    }
}

/// The parts of a dotted text go into a key.
proof fn lemma_right_dotted(
    toks: Seq<Tok>,
    tree: Seq<TreeEvent>,
    errors: Seq<ErrorView>,
    text: Seq<u8>,
)
    requires
        right(toks, tree, errors),
        inside_of(tree, SyntaxKind::KEY),
        all_suit(toks) ==> no_quote(text),
    ensures
        right(toks, tree + dotted(text), errors),
        open_kinds(tree + dotted(text)) == open_kinds(tree),
        tree_text(tree + dotted(text)).len() == tree_text(tree).len() + text.len(),
    decreases text.len(),
{
    let at = last_period(text);
    let d = dotted(text);
    lemma_after_last_period(text);
    let part = text.subrange(at + 1, text.len() as int);
    let period = TreeEvent::Token { kind: SyntaxKind::PERIOD.number(), text: seq![0x2eu8] };
    let last = TreeEvent::Token { kind: SyntaxKind::IDENT.number(), text: part };
    if all_suit(toks) {
        assert(no_quote(part)) by {
            assert forall|k: int| 0 <= k < part.len() implies #[trigger] part[k] != '"' as int
                && part[k] != '\'' as int by {
                assert(part[k] == text[at + 1 + k]);
            }
        }
    }
    if 0 <= at < text.len() {
        let front = tree + dotted(text.take(at));
        lemma_right_dotted(toks, tree, errors, text.take(at));
        lemma_right_token(
            toks,
            front,
            errors,
            SyntaxKind::KEY,
            SyntaxKind::PERIOD,
            seq![0x2eu8],
            0,
            0,
        );
        lemma_right_token(
            toks,
            front.push(period),
            errors,
            SyntaxKind::KEY,
            SyntaxKind::IDENT,
            part,
            0,
            0,
        );
        assert(tree + d =~= front.push(period).push(last));
    } else {
        lemma_right_token(toks, tree, errors, SyntaxKind::KEY, SyntaxKind::IDENT, part, 0, 0);
        assert(tree + d =~= tree.push(last));
    }
}

/// The bytes and the escape sequences of a string are reported, and it goes on.
proof fn lemma_w_string(s: State, parent: SyntaxKind, multi_line: bool) -> (q: State)
    requires
        sound(s, parent),
        s.current == Some(
            if multi_line {
                SyntaxKind::MULTI_LINE_STRING
            } else {
                SyntaxKind::STRING
            },
        ),
    ensures
        goes_well(s, q, parent),
        q.current == s.current,
        q == s.report_at(
            forbidden_offsets(s.text, multi_line),
            "invalid character in string"@,
        ).report_at(escape_errors(s.text, 0), "invalid escape sequence"@),
{
    let offsets = forbidden_offsets(s.text, multi_line);
    let message = "invalid character in string"@;
    lemma_forbidden(s.text, multi_line);
    lemma_w_report_at(s, parent, offsets, message);
    let r = s.report_at(offsets, message);
    lemma_bad_escapes(s.text, 0);
    lemma_w_report_at(r, parent, escape_errors(s.text, 0), "invalid escape sequence"@);
    r.report_at(escape_errors(s.text, 0), "invalid escape sequence"@)
}

proof fn lemma_w_ident(s: State)
    requires
        sound(s, SyntaxKind::KEY),
        spares_breaks(s),
    ensures
        goes_well(s, s.ident().0, SyntaxKind::KEY),
        settled(s.ident().0),
        s.ident().0.whitelist == s.whitelist,
{
    let parent = SyntaxKind::KEY;
    lemma_w_peek(s, parent);
    let p = s.peek();
    if p.current is Some {
        let t = p.current->0;
        if t == SyntaxKind::IDENT {
            lemma_w_token(p, parent);
        } else if t == SyntaxKind::INTEGER {
            lemma_w_token_as(p, parent, SyntaxKind::IDENT);
        } else if t == SyntaxKind::STRING_LITERAL {
            let offsets = forbidden_offsets(p.text, false);
            let message = "invalid control character in string literal"@;
            lemma_forbidden(p.text, false);
            lemma_w_report_at(p, parent, offsets, message);
            lemma_bytes_told(p.errors, p.text, p.start, false, message);
            lemma_w_token_as(p.report_at(offsets, message), parent, SyntaxKind::IDENT);
        } else if t == SyntaxKind::STRING {
            let q = lemma_w_string(p, parent, false);
            lemma_string_told(p.errors, p.text, p.start, false);
            lemma_w_token_as(q, parent, SyntaxKind::IDENT);
        } else if t == SyntaxKind::FLOAT {
            lemma_right_dotted(p.toks, p.tree, p.errors, p.text);
            lemma_w_step(State { tree: p.tree + dotted(p.text), ..p }, parent);
        } else {
            lemma_w_error(p, parent, "expected identifier"@);
        }
    }
}

proof fn lemma_w_key_rest(s: State, after_period: bool)
    requires
        sound(s, SyntaxKind::KEY),
        spares_breaks(s),
    ensures
        goes_well(s, s.key_rest(after_period).0, SyntaxKind::KEY),
        settled(s.key_rest(after_period).0),
        s.key_rest(after_period).0.whitelist == s.whitelist,
    decreases s.left(),
{
    let parent = SyntaxKind::KEY;
    lemma_w_peek(s, parent);
    lemma_peek(s);
    let p = s.peek();
    if p.current is None {
        lemma_w_error(p, parent, "unexpected end of input"@);
    } else if p.current->0 == SyntaxKind::PERIOD {
        if after_period {
            lemma_w_error(p, parent, "unexpected \".\""@);
        } else {
            lemma_w_token(p, parent);
            lemma_token(p);
            lemma_w_key_rest(p.token().0, true);
        }
    } else if after_period {
        lemma_w_ident(p);
        lemma_ident(p);
        if p.ident().1 {
            lemma_w_key_rest(p.ident().0, false);
        } else {
            lemma_w_error(p.ident().0, parent, "expected identifier"@);
        }
    }
}

proof fn lemma_w_key(s: State)
    requires
        sound(s, SyntaxKind::KEY),
        spares_breaks(s),
    ensures
        goes_well(s, s.key().0, SyntaxKind::KEY),
        s.key().0.whitelist == s.whitelist,
{
    lemma_w_ident(s);
    if s.ident().1 {
        lemma_w_key_rest(s.ident().0, false);
    } else {
        lemma_w_error(s.ident().0, SyntaxKind::KEY, "expected identifier"@);
    }
}

proof fn lemma_list_push(kinds: Seq<u16>, kind: u16)
    ensures
        list_among(kinds) ==> list_among(kinds.push(kind)),
{
    reveal(list_among);
    if kinds.contains(SyntaxKind::ARRAY.number()) {
        let i = choose|i: int| 0 <= i < kinds.len() && kinds[i] == SyntaxKind::ARRAY.number();
        assert(kinds.push(kind)[i] == kinds[i]);
    }
    if kinds.contains(SyntaxKind::INLINE_TABLE.number()) {
        let i = choose|i: int|
            0 <= i < kinds.len() && kinds[i] == SyntaxKind::INLINE_TABLE.number();
        assert(kinds.push(kind)[i] == kinds[i]);
    }
}

proof fn lemma_list_open(s: State, parent: SyntaxKind)
    requires
        inside_of(s.tree, parent),
        parent == SyntaxKind::ARRAY || parent == SyntaxKind::INLINE_TABLE,
    ensures
        in_list(s.tree),
        spares_breaks(s),
{
    reveal(list_among);
    let kinds = open_kinds(s.tree);
    assert(kinds[kinds.len() - 1] == parent.number());
}

/// While line breaks are allowed, an error takes none.
proof fn lemma_breaks_allowed(s: State)
    ensures
        spares_breaks(s.allow(SyntaxKind::NEWLINE)),
{
    let w = s.whitelist;
    assert((w | 1u16) & 1u16 != 0) by (bit_vector);
}

/// A node is entered where it may stand.
proof fn lemma_w_open(s: State, parent: SyntaxKind, kind: SyntaxKind)
    requires
        sound(s, parent),
        node_fits(parent, kind),
    ensures
        sound(s.open(kind), kind),
        open_kinds(s.open(kind).tree) == open_kinds(s.tree).push(kind.number()),
        spares_breaks(s) ==> spares_breaks(s.open(kind)),
{
    reveal(right);
    lemma_list_push(open_kinds(s.tree), kind.number());
    let e = TreeEvent::Open { kind: kind.number() };
    let n = s.tree.len() as int;
    lemma_kinds_push(s.tree, e);
    lemma_walk_push(s.tree, e);
    assert(s.tree.push(e).take(n) =~= s.tree);
    assert(n > 0);
    assert(event_fits(s.tree.push(e), n));
    lemma_fit_push(s.tree, e);
    lemma_reported_push(s.tree, s.errors, e);
    lemma_left_push(s.toks, s.tree, e);
    if all_suit(s.toks) {
        lemma_suit_push(s.tree, e);
        lemma_told_push(s.tree, e, s.errors);
    }
}

/// A node is left.
proof fn lemma_w_close(s: State, kind: SyntaxKind)
    requires
        sound(s, kind),
    ensures
        placed(s.close()),
        right(s.toks, s.close().tree, s.errors),
        open_kinds(s.close().tree) == open_kinds(s.tree).drop_last(),
{
    reveal(right);
    let e = TreeEvent::Close;
    let n = s.tree.len() as int;
    lemma_kinds_push(s.tree, e);
    lemma_walk_push(s.tree, e);
    assert(s.tree.push(e).take(n) =~= s.tree);
    assert(event_fits(s.tree.push(e), n));
    lemma_fit_push(s.tree, e);
    lemma_reported_push(s.tree, s.errors, e);
    lemma_left_push(s.toks, s.tree, e);
    if all_suit(s.toks) {
        lemma_suit_push(s.tree, e);
        lemma_told_push(s.tree, e, s.errors);
    }
}

/// A node was entered, something was read in it, and it is left.
proof fn lemma_w_node(s: State, parent: SyntaxKind, kind: SyntaxKind, r: State)
    requires
        sound(s, parent),
        node_fits(parent, kind),
        goes_well(s.open(kind), r, kind),
    ensures
        goes_well(s, r.close(), parent),
{
    lemma_w_open(s, parent, kind);
    lemma_w_close(r, kind);
    assert(open_kinds(s.tree).push(kind.number()).drop_last() =~= open_kinds(s.tree));
}

proof fn lemma_w_number(s: State, radix: u32)
    requires
        sound(s, SyntaxKind::VALUE),
        s.current is Some,
        is_number(s.current->0),
        radix == radix_of(s.current->0),
        s.current->0 == SyntaxKind::INTEGER ==> !zero_padded(s.text),
        spares_breaks(s),
    ensures
        goes_well(s, s.number(radix).0, SyntaxKind::VALUE),
{
    underscores_part_digits(decode_utf8(s.text), radix);
    assert(s.peek() == s);
    if cut_between_digits(decode_utf8(s.text), radix) {
        lemma_w_token(s, SyntaxKind::VALUE);
    } else {
        lemma_w_error(s, SyntaxKind::VALUE, "invalid underscores"@);
    }
}

/// A single word as a value.
proof fn lemma_w_scalar(s: State)
    requires
        sound(s, SyntaxKind::VALUE),
        s.current is Some,
        s.current->0 != SyntaxKind::BRACKET_START,
        s.current->0 != SyntaxKind::BRACE_START,
        spares_breaks(s),
    ensures
        goes_well(s, s.value().0, SyntaxKind::VALUE),
{
    let parent = SyntaxKind::VALUE;
    let t = s.current->0;
    assert(s.peek() == s);
    if t == SyntaxKind::BOOL || t == SyntaxKind::DATE {
        lemma_w_token(s, parent);
    } else if t == SyntaxKind::INTEGER && zero_padded(s.text) {
        lemma_w_error(s, parent, "zero-padded integers are not allowed"@);
    } else if is_number(t) {
        lemma_w_number(s, radix_of(t));
    } else if t == SyntaxKind::STRING_LITERAL {
        let offsets = forbidden_offsets(s.text, false);
        let message = "invalid control character in string literal"@;
        lemma_forbidden(s.text, false);
        lemma_w_report_at(s, parent, offsets, message);
        lemma_bytes_told(s.errors, s.text, s.start, false, message);
        lemma_w_token(s.report_at(offsets, message), parent);
    } else if t == SyntaxKind::MULTI_LINE_STRING_LITERAL {
        let offsets = forbidden_offsets(s.text, true);
        let message = "invalid character in string"@;
        lemma_forbidden(s.text, true);
        lemma_w_report_at(s, parent, offsets, message);
        lemma_bytes_told(s.errors, s.text, s.start, true, message);
        lemma_w_token(s.report_at(offsets, message), parent);
    } else if t == SyntaxKind::STRING || t == SyntaxKind::MULTI_LINE_STRING {
        let multi_line = t == SyntaxKind::MULTI_LINE_STRING;
        let q = lemma_w_string(s, parent, multi_line);
        lemma_string_told(s.errors, s.text, s.start, multi_line);
        lemma_w_token(q, parent);
    } else {
        lemma_w_error(s, parent, "expected value"@);
    }
}

proof fn lemma_w_value(s: State)
    requires
        sound(s, SyntaxKind::VALUE),
        spares_breaks(s),
    ensures
        goes_well(s, s.value().0, SyntaxKind::VALUE),
    decreases s.left(), 5int,
{
    let parent = SyntaxKind::VALUE;
    lemma_w_peek(s, parent);
    lemma_peek(s);
    let p = s.peek();
    if p.current is None {
        lemma_w_error(p, parent, "expected value"@);
    } else {
        assert(p.peek() == p);
        assert(s.value() == p.value());
        if p.current->0 == SyntaxKind::BRACKET_START {
            lemma_w_open(p, parent, SyntaxKind::ARRAY);
            lemma_w_array(p.open(SyntaxKind::ARRAY));
            lemma_w_node(p, parent, SyntaxKind::ARRAY, p.open(SyntaxKind::ARRAY).array().0);
        } else if p.current->0 == SyntaxKind::BRACE_START {
            let o = p.open(SyntaxKind::INLINE_TABLE);
            lemma_w_open(p, parent, SyntaxKind::INLINE_TABLE);
            lemma_w_inline_table(o);
            lemma_w_node(p, parent, SyntaxKind::INLINE_TABLE, o.inline_table().0);
        } else {
            lemma_w_scalar(p);
        }
    }
}

proof fn lemma_w_array(s: State)
    requires
        sound(s, SyntaxKind::ARRAY),
    ensures
        goes_well(s, s.array().0, SyntaxKind::ARRAY),
    decreases s.left(), 4int,
{
    lemma_list_open(s, SyntaxKind::ARRAY);
    let message = "expected \"[\""@;
    lemma_w_expect(s, SyntaxKind::ARRAY, SyntaxKind::BRACKET_START, message);
    lemma_expect(s, SyntaxKind::BRACKET_START, message);
    let r = s.expect(SyntaxKind::BRACKET_START, message);
    if r.1 {
        lemma_w_array_rest(r.0, true, false);
    }
}

proof fn lemma_w_array_rest(s: State, first: bool, comma_last: bool)
    requires
        sound(s, SyntaxKind::ARRAY),
    ensures
        goes_well(s, s.array_rest(first, comma_last).0, SyntaxKind::ARRAY),
    decreases
            s.left(),
            if first || comma_last {
                11int
            } else {
                10int
            },
{
    lemma_list_open(s, SyntaxKind::ARRAY);
    let parent = SyntaxKind::ARRAY;
    lemma_w_peek(s, parent);
    lemma_peek(s);
    let p = s.peek();
    let in_place = first || comma_last;
    if p.current is None {
    } else if p.current->0 == SyntaxKind::BRACKET_END {
        lemma_w_token(p, parent);
    } else if p.current->0 == SyntaxKind::NEWLINE {
        lemma_w_token(p, parent);
        lemma_token(p);
        lemma_w_array_rest(p.token().0, first, comma_last);
    } else if p.current->0 == SyntaxKind::COMMA {
        let message = "unexpected \",\""@;
        lemma_w_error(p, parent, message);
        lemma_error(p, message);
        let q = if in_place {
            p.error(message)
        } else {
            p
        };
        lemma_w_token(q, parent);
        lemma_token(q);
        if q.token().1 {
            lemma_w_array_rest(q.token().0, false, true);
        }
    } else {
        lemma_w_array_element(p, in_place);
        let q = p.array_element(in_place);
        if s.goes_on(q, in_place) {
            lemma_w_array_rest(q, false, false);
        }
    }
}

proof fn lemma_w_array_element(s: State, in_place: bool)
    requires
        sound(s, SyntaxKind::ARRAY),
        s.current is Some,
        s.current->0 != SyntaxKind::COMMA,
        s.current->0 != SyntaxKind::NEWLINE,
    ensures
        goes_well(s, s.array_element(in_place), SyntaxKind::ARRAY),
    decreases s.left(), 9int,
{
    lemma_list_open(s, SyntaxKind::ARRAY);
    let parent = SyntaxKind::ARRAY;
    let message = "expected \",\""@;
    lemma_w_error(s, parent, message);
    lemma_error(s, message);
    let h = if in_place {
        s
    } else {
        s.error(message)
    };
    let a = h.allow(SyntaxKind::COMMA);
    let o = a.open(SyntaxKind::VALUE);
    lemma_w_open(a, parent, SyntaxKind::VALUE);
    lemma_w_value(o);
    lemma_w_node(a, parent, SyntaxKind::VALUE, o.value().0);
}

proof fn lemma_w_inline_table(s: State)
    requires
        sound(s, SyntaxKind::INLINE_TABLE),
    ensures
        goes_well(s, s.inline_table().0, SyntaxKind::INLINE_TABLE),
    decreases s.left(), 4int,
{
    lemma_list_open(s, SyntaxKind::INLINE_TABLE);
    let message = "expected \"{\""@;
    lemma_w_expect(s, SyntaxKind::INLINE_TABLE, SyntaxKind::BRACE_START, message);
    lemma_expect(s, SyntaxKind::BRACE_START, message);
    let r = s.expect(SyntaxKind::BRACE_START, message);
    if r.1 {
        lemma_w_table_rest(r.0, true, false, false);
    }
}

proof fn lemma_w_table_rest(s: State, first: bool, comma_last: bool, was_newline: bool)
    requires
        sound(s, SyntaxKind::INLINE_TABLE),
    ensures
        goes_well(s, s.table_rest(first, comma_last, was_newline).0, SyntaxKind::INLINE_TABLE),
    decreases
            s.left(),
            10 + (if first {
                4int
            } else {
                0int
            }) + (if comma_last {
                2int
            } else {
                0int
            }) + (if was_newline {
                0int
            } else {
                1int
            }),
{
    lemma_list_open(s, SyntaxKind::INLINE_TABLE);
    let parent = SyntaxKind::INLINE_TABLE;
    lemma_w_peek(s, parent);
    lemma_peek(s);
    let p = s.peek();
    let in_place = first || comma_last;
    if p.current is None {
    } else if p.current->0 == SyntaxKind::BRACE_END {
        let message = "expected value, trailing comma is not allowed"@;
        lemma_about(p, message);
        lemma_w_report(p, parent, message);
        lemma_w_token(p, parent);
        lemma_w_token(p.report(message), parent);
    } else if p.current->0 == SyntaxKind::NEWLINE {
        if !was_newline {
            let message = "newline is not allowed in an inline table"@;
            lemma_w_error(p, parent, message);
            lemma_error(p, message);
            lemma_w_table_rest(p.error(message), false, comma_last, true);
        }
    } else if p.current->0 == SyntaxKind::COMMA {
        if first {
            let message = "unexpected \",\""@;
            lemma_w_error(p, parent, message);
            lemma_error(p, message);
            lemma_w_table_rest(p.error(message), false, true, false);
        } else {
            lemma_w_token(p, parent);
            lemma_token(p);
            lemma_w_table_rest(p.token().0, false, true, false);
        }
    } else {
        lemma_w_table_element(p, in_place);
        let q = p.table_element(in_place);
        if s.goes_on(q, in_place) {
            lemma_w_table_rest(q, false, false, false);
        }
    }
}

proof fn lemma_w_table_element(s: State, in_place: bool)
    requires
        sound(s, SyntaxKind::INLINE_TABLE),
        s.current is Some,
        s.current->0 != SyntaxKind::COMMA,
        s.current->0 != SyntaxKind::NEWLINE,
    ensures
        goes_well(s, s.table_element(in_place), SyntaxKind::INLINE_TABLE),
    decreases s.left(), 9int,
{
    lemma_list_open(s, SyntaxKind::INLINE_TABLE);
    let parent = SyntaxKind::INLINE_TABLE;
    let message = "expected \",\""@;
    lemma_w_error(s, parent, message);
    lemma_error(s, message);
    let h = if in_place {
        s
    } else {
        s.error(message)
    };
    let a = h.allow(SyntaxKind::COMMA);
    let o = a.open(SyntaxKind::ENTRY);
    lemma_w_open(a, parent, SyntaxKind::ENTRY);
    lemma_w_entry(o);
    lemma_w_node(a, parent, SyntaxKind::ENTRY, o.entry().0);
}

/// A key in a node of its own.
proof fn lemma_w_key_node(s: State, parent: SyntaxKind)
    requires
        sound(s, parent),
        node_fits(parent, SyntaxKind::KEY),
        spares_breaks(s),
    ensures
        goes_well(s, s.open(SyntaxKind::KEY).key().0.close(), parent),
        s.open(SyntaxKind::KEY).key().0.close().whitelist == s.whitelist,
{
    let o = s.open(SyntaxKind::KEY);
    lemma_w_open(s, parent, SyntaxKind::KEY);
    lemma_w_key(o);
    lemma_w_node(s, parent, SyntaxKind::KEY, o.key().0);
}

proof fn lemma_w_entry(s: State)
    requires
        sound(s, SyntaxKind::ENTRY),
        spares_breaks(s),
    ensures
        goes_well(s, s.entry().0, SyntaxKind::ENTRY),
    decreases s.left(), 6int,
{
    let parent = SyntaxKind::ENTRY;
    let message = "expected \"=\""@;
    let o = s.open(SyntaxKind::KEY);
    let c = o.key().0.close();
    lemma_w_key_node(s, parent);
    lemma_key(o);
    if o.key().1 {
        lemma_w_expect(c, parent, SyntaxKind::EQ, message);
        lemma_expect(c, SyntaxKind::EQ, message);
        let r = c.expect(SyntaxKind::EQ, message);
        if r.1 {
            let v = r.0.open(SyntaxKind::VALUE);
            lemma_w_open(r.0, parent, SyntaxKind::VALUE);
            lemma_w_value(v);
            lemma_w_node(r.0, parent, SyntaxKind::VALUE, v.value().0);
        }
    }
}

proof fn lemma_w_table_array_header(s: State)
    requires
        sound(s, SyntaxKind::TABLE_ARRAY_HEADER),
        spares_breaks(s),
    ensures
        goes_well(s, s.table_array_header().0, SyntaxKind::TABLE_ARRAY_HEADER),
{
    let parent = SyntaxKind::TABLE_ARRAY_HEADER;
    let start = "expected \"[[\""@;
    let stop = "expected \"]]\""@;
    lemma_w_expect(s, parent, SyntaxKind::BRACKET_START, start);
    let r = s.expect(SyntaxKind::BRACKET_START, start);
    if r.1 {
        lemma_w_expect(r.0, parent, SyntaxKind::BRACKET_START, start);
        let q = r.0.expect(SyntaxKind::BRACKET_START, start);
        if q.1 {
            lemma_w_key_node(q.0, parent);
            let k = q.0.open(SyntaxKind::KEY).key().0.close();
            lemma_w_expect(k, parent, SyntaxKind::BRACKET_END, stop);
            let e = k.expect(SyntaxKind::BRACKET_END, stop).0;
            lemma_w_expect(e, parent, SyntaxKind::BRACKET_END, stop);
        }
    }
}

proof fn lemma_w_table_header(s: State)
    requires
        sound(s, SyntaxKind::TABLE_HEADER),
        spares_breaks(s),
    ensures
        goes_well(s, s.table_header().0, SyntaxKind::TABLE_HEADER),
{
    let parent = SyntaxKind::TABLE_HEADER;
    let start = "expected \"[\""@;
    let stop = "expected \"]\""@;
    lemma_w_expect(s, parent, SyntaxKind::BRACKET_START, start);
    let r = s.expect(SyntaxKind::BRACKET_START, start);
    if r.1 {
        lemma_w_key_node(r.0, parent);
        let k = r.0.open(SyntaxKind::KEY).key().0.close();
        lemma_w_expect(k, parent, SyntaxKind::BRACKET_END, stop);
    }
}

proof fn lemma_w_header_line(s: State)
    requires
        sound(s, SyntaxKind::ROOT),
    ensures
        goes_well(s, s.header_line(), SyntaxKind::ROOT),
{
    let a = s.allow(SyntaxKind::NEWLINE);
    lemma_breaks_allowed(s);
    if s.bracket_follows() {
        let o = a.open(SyntaxKind::TABLE_ARRAY_HEADER);
        lemma_w_open(a, SyntaxKind::ROOT, SyntaxKind::TABLE_ARRAY_HEADER);
        lemma_w_table_array_header(o);
        let r = o.table_array_header().0;
        lemma_w_node(a, SyntaxKind::ROOT, SyntaxKind::TABLE_ARRAY_HEADER, r);
    } else {
        let o = a.open(SyntaxKind::TABLE_HEADER);
        lemma_w_open(a, SyntaxKind::ROOT, SyntaxKind::TABLE_HEADER);
        lemma_w_table_header(o);
        lemma_w_node(a, SyntaxKind::ROOT, SyntaxKind::TABLE_HEADER, o.table_header().0);
    }
}

/// The nodes that are open between two lines, or in an entry on one.
spec fn line_kinds(entry_started: bool) -> Seq<u16> {
    if entry_started {
        seq![SyntaxKind::ROOT.number(), SyntaxKind::ENTRY.number()]
    } else {
        seq![SyntaxKind::ROOT.number()]
    }
}

/// The node that is entered last between two lines, or in an entry on one.
spec fn line_kind(entry_started: bool) -> SyntaxKind {
    if entry_started {
        SyntaxKind::ENTRY
    } else {
        SyntaxKind::ROOT
    }
}

/// All is right between two lines, or in an entry on one.
spec fn in_lines(s: State, entry_started: bool) -> bool {
    &&& sound(s, line_kind(entry_started))
    &&& open_kinds(s.tree) == line_kinds(entry_started)
}

proof fn lemma_w_close_entry(p: State, entry_started: bool)
    requires
        in_lines(p, entry_started),
    ensures
        in_lines(p.close_entry(entry_started), false),
        settled(p) ==> settled(p.close_entry(entry_started)),
{
    if entry_started {
        lemma_w_close(p, SyntaxKind::ENTRY);
        assert(line_kinds(true).drop_last() =~= line_kinds(false));
    }
}

proof fn lemma_w_entry_line(c: State)
    requires
        in_lines(c, false),
    ensures
        in_lines(c.entry_line(), true),
{
    lemma_breaks_allowed(c.open(SyntaxKind::ENTRY));
    lemma_w_open(c, SyntaxKind::ROOT, SyntaxKind::ENTRY);
    let o = c.open(SyntaxKind::ENTRY).allow(SyntaxKind::NEWLINE);
    lemma_w_entry(o);
    assert(line_kinds(false).push(SyntaxKind::ENTRY.number()) =~= line_kinds(true));
}

#[verifier::rlimit(40)]
proof fn lemma_w_lines(s: State, not_newline: bool, entry_started: bool)
    requires
        in_lines(s, entry_started),
        entry_started ==> not_newline,
        valid(s),
        s.whitelist == 0,
    ensures
        in_lines(s.lines(not_newline, entry_started), false),
        s.lines(not_newline, entry_started).toks == s.toks,
    decreases
            s.left(),
            if not_newline {
                0int
            } else {
                1int
            },
{
    let message = "expected new line"@;
    lemma_w_peek(s, line_kind(entry_started));
    lemma_peek(s);
    lemma_keeps_peek(s);
    let p = s.peek();
    let c = p.close_entry(entry_started);
    lemma_w_close_entry(p, entry_started);
    if p.current is None {
    } else if p.current->0 == SyntaxKind::NEWLINE {
        lemma_w_token(c, SyntaxKind::ROOT);
        lemma_token(c);
        lemma_keeps_token(c);
        lemma_w_lines(c.token().0, false, false);
    } else if p.current->0 == SyntaxKind::BRACKET_START && not_newline {
        lemma_whitelist_bits();
        lemma_w_error(c, SyntaxKind::ROOT, message);
        lemma_error(c, message);
        lemma_keeps_error(c, message);
        lemma_w_lines(c.error(message), true, false);
    } else if p.current->0 == SyntaxKind::BRACKET_START {
        lemma_w_header_line(c);
        lemma_keeps_header_line(c);
        lemma_w_lines(c.header_line(), true, false);
    } else if not_newline {
        lemma_whitelist_bits();
        lemma_w_error(p, line_kind(entry_started), message);
        lemma_error(p, message);
        lemma_keeps_error(p, message);
        lemma_w_lines(p.error(message), true, entry_started);
    } else {
        lemma_w_entry_line(c);
        lemma_keeps_entry_line(c);
        lemma_w_lines(c.entry_line(), true, true);
    }
}

/// All is right when a text was parsed.
proof fn lemma_w_document(toks: Seq<Tok>)
    requires
        tiled(toks),
    ensures
        right(toks, document(toks).tree, document(toks).errors),
{
    let first = State::initial(toks);
    let o = first.open(SyntaxKind::ROOT);
    let e = TreeEvent::Open { kind: SyntaxKind::ROOT.number() };
    let none = Seq::<TreeEvent>::empty();
    lemma_kinds_push(none, e);
    lemma_walk_push(none, e);
    assert(open_kinds(o.tree) =~= line_kinds(false));
    assert(right(toks, o.tree, o.errors)) by {
        reveal(right);
        assert(event_fits(none.push(e), 0));
        lemma_fit_push(none, e);
    }
    lemma_w_lines(o, false, false);
    lemma_w_close(o.lines(false, false), SyntaxKind::ROOT);
}

/// Every node and every token of a tree stands where one of its kind may,
/// also where the text has errors: entries and headers under the root, keys and
/// values in entries, values in arrays, entries in inline tables, identifiers
/// and periods in keys, and so on.
pub proof fn trees_fit_the_schema(toks: Seq<Tok>)
    requires
        tiled(toks),
    ensures
        all_fit(document(toks).tree),
{
    lemma_w_document(toks);
    reveal(right);
}

/// Every error is about a token, an offset in a token, or the end of the text,
/// and what its message says is true of that: an unexpected comma is a comma,
/// where a bracket is expected none stands, an invalid escape sequence starts
/// with a backslash, and so on.
pub proof fn errors_are_true(toks: Seq<Tok>)
    requires
        tiled(toks),
    ensures
        all_true(toks, document(toks).errors),
{
    lemma_w_document(toks);
    reveal(right);
}

/// A line break outside of arrays and inline tables is never taken for an
/// error: every error token is a token of the text, at its place, and a line
/// break only where an array or an inline table is open.
pub proof fn line_breaks_are_no_errors(toks: Seq<Tok>)
    requires
        tiled(toks),
    ensures
        breaks_left(toks, document(toks).tree),
{
    lemma_w_document(toks);
    reveal(right);
}

/// Of every error token in a tree an error is reported, with its range.
pub proof fn error_tokens_are_reported(toks: Seq<Tok>)
    requires
        tiled(toks),
    ensures
        all_reported(document(toks).tree, document(toks).errors),
{
    lemma_w_document(toks);
    reveal(right);
}

/// What is wrong in the tokens of a tree is reported, byte for byte: every
/// character that may not stand in a comment, in a quoted part of a key or in a
/// quoted value, and every wrong escape sequence there. Numbers that stand in
/// the tree as values are well written.
pub proof fn wrong_texts_are_reported(toks: Seq<Tok>)
    requires
        tiled(toks),
        all_suit(toks),
    ensures
        all_told(document(toks).tree, document(toks).errors),
{
    lemma_w_document(toks);
    reveal(right);
}

/// The texts of the tokens in a tree are those that their kinds can have, where
/// that is so of the tokens of the text: signs are written as they are, and no
/// part of a key holds a period unless it is quoted.
pub proof fn leaves_suit_their_kinds(toks: Seq<Tok>)
    requires
        tiled(toks),
        all_suit(toks),
    ensures
        leaves_suit(document(toks).tree),
{
    lemma_w_document(toks);
    reveal(right);
}

proof fn lemma_token_suits(text: Seq<u8>, i: int, e: int, kind: SyntaxKind)
    requires
        0 <= i < e <= text.len(),
        token_in(text, i, e, kind),
    ensures
        text_suits(kind, text.subrange(i, e)),
{
    let t = text.subrange(i, e);
    assert(t[0] == text[i]);
    if kind == SyntaxKind::IDENT || kind == SyntaxKind::INTEGER {
        assert(word_in(kind, text, i, e));
        assert forall|k: int| 0 <= k < t.len() implies #[trigger] t[k] != '.' as int && t[k]
            != '"' as int && t[k] != '\'' as int by {
            assert(t[k] == text[i + k]);
        }
    }
    if kind == SyntaxKind::FLOAT {
        assert(word_in(kind, text, i, e));
        lemma_float_suits(text, i, e);
        assert forall|k: int| 0 <= k < t.len() implies #[trigger] t[k] != '"' as int && t[k]
            != '\'' as int by {
            assert(t[k] == text[i + k]);
        }
    }
}

/// A float holds no quotes.
proof fn lemma_float_suits(text: Seq<u8>, i: int, e: int)
    requires
        float_in(text, i, e),
    ensures
        forall|k: int|
            i <= k < e ==> #[trigger] text[k] != '"' as int && text[k] != '\'' as int,
{
    let a = if unsigned_in(text, i, e) {
        i
    } else {
        i + 1
    };
    if exists|p: int, x: int| #[trigger] decimal_in(text, a, p, x, e) {
        let (p, x) = choose|p: int, x: int| #[trigger] decimal_in(text, a, p, x, e);
        assert(figures_in(text, a, p));
    }
}

/// The texts of the tokens of a text are those that their kinds can have.
pub proof fn tokens_suit_their_kinds(lexemes: Seq<Lexeme>, source: Seq<u8>)
    requires
        covers(lexemes, source),
        all_tokens_in(lexemes, source),
    ensures
        all_suit(toks_of(lexemes, source)),
{
    let toks = toks_of(lexemes, source);
    assert forall|i: int| 0 <= i < toks.len() implies text_suits(
        (#[trigger] toks[i]).kind,
        toks[i].text,
    ) by {
        assert(fits(lexemes, i, source));
        assert(is_token(lexemes[i], source));
        lemma_token_suits(
            source,
            lexemes[i].start as int,
            lexemes[i].end as int,
            lexemes[i].kind,
        );
    }
}

} // verus!
