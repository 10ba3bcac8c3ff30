//! The grammar of documents.

use vstd::prelude::*;
use vstd::utf8::decode_utf8;

use crate::model::{zero_padded, Tok};
use crate::syntax::SyntaxKind;
use crate::util::allowed_chars::forbidden_offsets;
use crate::util::escape::escape_errors;
use crate::util::underscores::underscores_between_digits;

verus! {

/// A token that the grammar speaks of.
pub struct Word {
    pub kind: SyntaxKind,
    pub text: Seq<u8>,
    /// An opening bracket follows immediately, without a blank in between.
    pub bracket_next: bool,
}

/// Tokens that may stand anywhere, or nowhere.
pub open spec fn is_trivia(kind: SyntaxKind) -> bool {
    kind == SyntaxKind::WHITESPACE || kind == SyntaxKind::COMMENT || kind == SyntaxKind::ERROR
}

/// The word that a token is.
pub open spec fn word(toks: Seq<Tok>, i: int) -> Word {
    Word {
        kind: toks[i].kind,
        text: toks[i].text,
        bracket_next: i + 1 < toks.len() && toks[i + 1].text.len() > 0 && toks[i + 1].text[0]
            == 0x5b,
    }
}

/// The words among the first `n` tokens.
pub open spec fn words(toks: Seq<Tok>, n: int) -> Seq<Word>
    decreases n,
{
    if n <= 0 {
        Seq::empty()
    } else if is_trivia(toks[n - 1].kind) {
        words(toks, n - 1)
    } else {
        words(toks, n - 1).push(word(toks, n - 1))
    }
}

/// What stands between words is nothing wrong: a blank, or a comment
/// without control characters.
pub open spec fn clean(tok: Tok) -> bool {
    &&& tok.kind != SyntaxKind::ERROR
    &&& tok.kind == SyntaxKind::COMMENT ==> forbidden_offsets(tok.text, false).len() == 0
}

/// The first `n` tokens are clean.
pub open spec fn all_clean(toks: Seq<Tok>, n: int) -> bool {
    forall|i: int| 0 <= i < n ==> clean(#[trigger] toks[i])
}

/// A text without control characters, except those that end a line where
/// it spans several.
pub open spec fn no_control(text: Seq<u8>, multi_line: bool) -> bool {
    forbidden_offsets(text, multi_line).len() == 0
}

/// A text whose escape sequences are all valid.
pub open spec fn valid_escapes(text: Seq<u8>) -> bool {
    escape_errors(text, 0).len() == 0
}

/// A part of a key.
pub open spec fn ident(w: Word) -> bool {
    let plus = w.text.len() > 0 && w.text[0] == 0x2b;
    match w.kind {
        SyntaxKind::IDENT => true,
        SyntaxKind::INTEGER | SyntaxKind::FLOAT => !plus,
        SyntaxKind::STRING_LITERAL => no_control(w.text, false),
        SyntaxKind::STRING => no_control(w.text, false) && valid_escapes(w.text),
        _ => false,
    }
}

/// The underscores of a number stand between its digits.
pub open spec fn digits(w: Word, radix: u32) -> bool {
    underscores_between_digits(decode_utf8(w.text), radix)
}

/// A value that is a single word.
pub open spec fn scalar(w: Word) -> bool {
    match w.kind {
        SyntaxKind::BOOL | SyntaxKind::DATE => true,
        SyntaxKind::INTEGER => digits(w, 10) && !zero_padded(w.text),
        SyntaxKind::FLOAT => digits(w, 10),
        SyntaxKind::INTEGER_HEX => digits(w, 16),
        SyntaxKind::INTEGER_OCT => digits(w, 8),
        SyntaxKind::INTEGER_BIN => digits(w, 2),
        SyntaxKind::STRING_LITERAL => no_control(w.text, false),
        SyntaxKind::MULTI_LINE_STRING_LITERAL => no_control(w.text, true),
        SyntaxKind::STRING => no_control(w.text, false) && valid_escapes(w.text),
        SyntaxKind::MULTI_LINE_STRING => no_control(w.text, true) && valid_escapes(w.text),
        _ => false,
    }
}

/// The word at an index is of a kind.
pub open spec fn word_is(ws: Seq<Word>, i: int, kind: SyntaxKind) -> bool {
    0 <= i < ws.len() && ws[i].kind == kind
}

/// The words from `i` to `j` are a key: parts with periods in between.
pub open spec fn key(ws: Seq<Word>, i: int, j: int) -> bool
    decreases j - i,
{
    &&& 0 <= i < j <= ws.len()
    &&& ident(ws[i])
    &&& j == i + 1 || (word_is(ws, i + 1, SyntaxKind::PERIOD) && key(ws, i + 2, j))
}

/// An offset lies behind `i`, and not behind `j`.
pub open spec fn splits(i: int, k: int, j: int) -> bool {
    i < k <= j
}

/// The words from `i` to `j` are a value. An array or an inline table that
/// is still open where the text ends reaches up to there.
pub open spec fn value(ws: Seq<Word>, i: int, j: int) -> bool
    decreases j - i, 0int,
{
    &&& 0 <= i < j <= ws.len()
    &&& {
        ||| j == i + 1 && scalar(ws[i])
        ||| {
            &&& word_is(ws, i, SyntaxKind::BRACKET_START)
            &&& {
                ||| j == ws.len() && elements(ws, i + 1, j, true)
                ||| {
                    &&& i + 1 < j
                    &&& word_is(ws, j - 1, SyntaxKind::BRACKET_END)
                    &&& elements(ws, i + 1, j - 1, true)
                }
            }
        }
        ||| {
            &&& word_is(ws, i, SyntaxKind::BRACE_START)
            &&& {
                ||| j == ws.len() && entries(ws, i + 1, j, true, false)
                ||| {
                    &&& i + 1 < j
                    &&& word_is(ws, j - 1, SyntaxKind::BRACE_END)
                    &&& entries(ws, i + 1, j - 1, true, false)
                }
            }
        }
    }
}

/// The words from `i` to `j` are what can stand in an array: values with
/// commas in between, possibly one behind the last, and line breaks
/// anywhere. A value may come next, or a comma has to come first.
pub open spec fn elements(ws: Seq<Word>, i: int, j: int, value_next: bool) -> bool
    decreases j - i, 1int,
{
    &&& 0 <= i <= j <= ws.len()
    &&& {
        ||| i == j
        ||| i < j && word_is(ws, i, SyntaxKind::NEWLINE) && elements(ws, i + 1, j, value_next)
        ||| {
            &&& i < j && !value_next
            &&& word_is(ws, i, SyntaxKind::COMMA)
            &&& elements(ws, i + 1, j, true)
        }
        ||| value_next && exists|k: int| #[trigger]
            splits(i, k, j) && value(ws, i, k) && elements(ws, k, j, false)
    }
}

/// The words from `i` to `j` are what can stand in an inline table: entries
/// with commas in between, of which none stands behind the last entry
/// unless the text ends there. Nothing was met yet, or a comma was met last.
pub open spec fn entries(ws: Seq<Word>, i: int, j: int, first: bool, comma_last: bool) -> bool
    decreases j - i, 2int,
{
    &&& 0 <= i <= j <= ws.len()
    &&& {
        ||| i == j && (comma_last ==> j == ws.len())
        ||| {
            &&& i < j && !first
            &&& word_is(ws, i, SyntaxKind::COMMA)
            &&& entries(ws, i + 1, j, false, true)
        }
        ||| (first || comma_last) && exists|k: int| #[trigger]
            splits(i, k, j) && entry(ws, i, k) && entries(ws, k, j, false, false)
    }
}

/// The words from `i` to `j` are a key, an equality sign and a value.
pub open spec fn entry(ws: Seq<Word>, i: int, j: int) -> bool
    decreases j - i, 1int,
{
    exists|k: int| #[trigger]
        splits(i, k, j - 1) && key(ws, i, k) && word_is(ws, k, SyntaxKind::EQ) && value(
            ws,
            k + 1,
            j,
        )
}

/// The words from `i` to `j` are the header of a table.
pub open spec fn table_header(ws: Seq<Word>, i: int, j: int) -> bool {
    &&& word_is(ws, i, SyntaxKind::BRACKET_START)
    &&& !ws[i].bracket_next
    &&& key(ws, i + 1, j - 1)
    &&& word_is(ws, j - 1, SyntaxKind::BRACKET_END)
}

/// The words from `i` to `j` are the header of an element of an array of tables.
pub open spec fn table_array_header(ws: Seq<Word>, i: int, j: int) -> bool {
    &&& word_is(ws, i, SyntaxKind::BRACKET_START)
    &&& ws[i].bracket_next
    &&& word_is(ws, i + 1, SyntaxKind::BRACKET_START)
    &&& key(ws, i + 2, j - 2)
    &&& word_is(ws, j - 2, SyntaxKind::BRACKET_END)
    &&& word_is(ws, j - 1, SyntaxKind::BRACKET_END)
}

/// The words from `i` to `j` can stand on a line.
pub open spec fn line(ws: Seq<Word>, i: int, j: int) -> bool {
    table_header(ws, i, j) || table_array_header(ws, i, j) || entry(ws, i, j)
}

/// The words from `i` on are lines with line breaks in between.
pub open spec fn lines(ws: Seq<Word>, i: int, line_next: bool) -> bool
    decreases ws.len() - i,
{
    &&& 0 <= i <= ws.len()
    &&& {
        ||| i == ws.len()
        ||| word_is(ws, i, SyntaxKind::NEWLINE) && lines(ws, i + 1, true)
        ||| line_next && exists|j: int|
            i < j <= ws.len() && #[trigger] line(ws, i, j) && lines(ws, j, false)
    }
}

/// The tokens are those of a document.
pub open spec fn is_document(toks: Seq<Tok>) -> bool {
    all_clean(toks, toks.len() as int) && lines(words(toks, toks.len() as int), 0, true)
}

} // verus!
