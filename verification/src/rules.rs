//! The rules of the grammar, each stated once more in words of its own.

use vstd::prelude::*;
use vstd::utf8::decode_utf8;

use crate::grammar::{
    clean, elements, entries, entry, ident, key, line, lines, scalar, splits, value, word_is, words,
    Word,
};
use crate::model::{zero_padded, Tok};
use crate::syntax::SyntaxKind;
use crate::util::allowed_chars::{forbidden_bytes_are_found, forbidden_offsets, may_stand};
use crate::util::escape::{bad_escapes_are_found, escape_errors, is_escape};
use crate::util::underscores::{cut_between_digits, underscores_part_digits};

verus! {

/// An escape sequence that strings may hold stands at an offset.
pub open spec fn escape_in(text: Seq<u8>, at: int, n: int) -> bool {
    0 < n && at + n <= text.len() && is_escape(text.subrange(at, at + n))
}

/// From an offset on, a text is characters and escape sequences.
pub open spec fn escapes_well(text: Seq<u8>, at: int) -> bool
    decreases text.len() - at,
{
    ||| at >= text.len()
    ||| at < text.len() && text[at] != '\\' as int && escapes_well(text, at + 1)
    ||| exists|n: int| #[trigger] escape_in(text, at, n) && escapes_well(text, at + n)
}

/// Nothing is reported of the escape sequences of a text if and only if it is
/// characters and escape sequences.
pub proof fn valid_texts_have_escapes(text: Seq<u8>, at: int)
    requires
        0 <= at,
    ensures
        escape_errors(text, at).len() == 0 <==> escapes_well(text, at),
    decreases text.len() - at,
{
    bad_escapes_are_found(text, at);
    if at < text.len() {
        if text[at] != '\\' as int {
            valid_texts_have_escapes(text, at + 1);
            assert forall|n: int| escape_in(text, at, n) implies false by {
                assert(text.subrange(at, at + n)[0] == text[at]);
            }
        } else if exists|n: int| #[trigger] escape_in(text, at, n) {
            let k = choose|n: int| #[trigger] escape_in(text, at, n);
            valid_texts_have_escapes(text, at + k);
            assert(is_escape(text.subrange(at, at + k)));
            if escapes_well(text, at) {
                let n = choose|n: int| #[trigger]
                    escape_in(text, at, n) && escapes_well(text, at + n);
                valid_texts_have_escapes(text, at + n);
                assert(is_escape(text.subrange(at, at + n)));
            }
        } else {
            assert forall|n: int|
                #![trigger text.subrange(at, at + n)]
                0 < n && at + n <= text.len() implies !is_escape(text.subrange(at, at + n)) by {
                assert(!escape_in(text, at, n));
            }
        }
    }
}

/// Every byte of a text may stand in a string.
pub open spec fn all_may_stand(text: Seq<u8>, multi_line: bool) -> bool {
    forall|k: int| 0 <= k < text.len() ==> may_stand(#[trigger] text[k], multi_line)
}

proof fn lemma_no_control(text: Seq<u8>, multi_line: bool)
    ensures
        forbidden_offsets(text, multi_line).len() == 0 <==> all_may_stand(text, multi_line),
{
    forbidden_bytes_are_found(text, multi_line);
    let offsets = forbidden_offsets(text, multi_line);
    if offsets.len() > 0 {
        assert(offsets.contains(offsets[0]));
    }
    if offsets.len() == 0 {
        assert forall|k: int| 0 <= k < text.len() implies may_stand(
            #[trigger] text[k],
            multi_line,
        ) by {
            assert(!offsets.contains(k));
        }
    }
}

/// A part of a key is a bare key, a number without a plus sign, which is one
/// too, or a quoted text on one line in which only characters and escape
/// sequences stand that may.
pub proof fn key_parts_are_bare_or_quoted(w: Word)
    ensures
        w.kind == SyntaxKind::IDENT ==> ident(w),
        w.kind == SyntaxKind::INTEGER || w.kind == SyntaxKind::FLOAT ==> (ident(w) <==> !(
        w.text.len() > 0 && w.text[0] == '+' as int)),
        w.kind == SyntaxKind::STRING_LITERAL ==> (ident(w) <==> all_may_stand(w.text, false)),
        w.kind == SyntaxKind::STRING ==> (ident(w) <==> all_may_stand(w.text, false)
            && escapes_well(w.text, 0)),
        ident(w) ==> w.kind == SyntaxKind::IDENT || w.kind == SyntaxKind::INTEGER || w.kind
            == SyntaxKind::FLOAT || w.kind == SyntaxKind::STRING_LITERAL || w.kind
            == SyntaxKind::STRING,
{
    lemma_no_control(w.text, false);
    valid_texts_have_escapes(w.text, 0);
}

/// A value that is a single word is a truth value, a date, a number whose
/// underscores stand between digits, or a quoted text in which only characters
/// and escape sequences stand that may.
pub proof fn single_values_are_well_written(w: Word)
    ensures
        w.kind == SyntaxKind::BOOL || w.kind == SyntaxKind::DATE ==> scalar(w),
        w.kind == SyntaxKind::FLOAT ==> (scalar(w) <==> cut_between_digits(
            decode_utf8(w.text),
            10,
        )),
        w.kind == SyntaxKind::INTEGER ==> (scalar(w) <==> cut_between_digits(
            decode_utf8(w.text),
            10,
        ) && !zero_padded(w.text)),
        w.kind == SyntaxKind::INTEGER_HEX ==> (scalar(w) <==> cut_between_digits(
            decode_utf8(w.text),
            16,
        )),
        w.kind == SyntaxKind::INTEGER_OCT ==> (scalar(w) <==> cut_between_digits(
            decode_utf8(w.text),
            8,
        )),
        w.kind == SyntaxKind::INTEGER_BIN ==> (scalar(w) <==> cut_between_digits(
            decode_utf8(w.text),
            2,
        )),
        w.kind == SyntaxKind::STRING_LITERAL ==> (scalar(w) <==> all_may_stand(w.text, false)),
        w.kind == SyntaxKind::MULTI_LINE_STRING_LITERAL ==> (scalar(w) <==> all_may_stand(
            w.text,
            true,
        )),
        w.kind == SyntaxKind::STRING ==> (scalar(w) <==> all_may_stand(w.text, false)
            && escapes_well(w.text, 0)),
        w.kind == SyntaxKind::MULTI_LINE_STRING ==> (scalar(w) <==> all_may_stand(w.text, true)
            && escapes_well(w.text, 0)),
        scalar(w) ==> w.kind == SyntaxKind::BOOL || w.kind == SyntaxKind::DATE || w.kind
            == SyntaxKind::FLOAT || w.kind == SyntaxKind::INTEGER || w.kind
            == SyntaxKind::INTEGER_HEX || w.kind == SyntaxKind::INTEGER_OCT || w.kind
            == SyntaxKind::INTEGER_BIN || w.kind == SyntaxKind::STRING_LITERAL || w.kind
            == SyntaxKind::MULTI_LINE_STRING_LITERAL || w.kind == SyntaxKind::STRING || w.kind
            == SyntaxKind::MULTI_LINE_STRING,
{
    lemma_no_control(w.text, false);
    lemma_no_control(w.text, true);
    valid_texts_have_escapes(w.text, 0);
    let s = decode_utf8(w.text);
    underscores_part_digits(s, 10);
    underscores_part_digits(s, 16);
    underscores_part_digits(s, 8);
    underscores_part_digits(s, 2);
}

/// Words are parts and periods in turn, and a part comes first and last.
pub open spec fn parts_in_turn(ws: Seq<Word>, i: int, j: int) -> bool {
    &&& 0 <= i < j <= ws.len()
    &&& (j - i) % 2 == 1
    &&& forall|k: int|
        i <= k < j ==> if (k - i) % 2 == 0 {
            ident(#[trigger] ws[k])
        } else {
            ws[k].kind == SyntaxKind::PERIOD
        }
}

/// A key is its parts with one period between every two of them.
pub proof fn keys_are_dotted_parts(ws: Seq<Word>, i: int, j: int)
    ensures
        key(ws, i, j) <==> parts_in_turn(ws, i, j),
    decreases j - i,
{
    if i + 2 < j {
        keys_are_dotted_parts(ws, i + 2, j);
        if key(ws, i, j) {
            assert forall|k: int| i <= k < j implies if (k - i) % 2 == 0 {
                ident(#[trigger] ws[k])
            } else {
                ws[k].kind == SyntaxKind::PERIOD
            } by {
                assert((k - i) % 2 == (k - (i + 2)) % 2);
            }
        }
        if parts_in_turn(ws, i, j) {
            assert(ident(ws[i]));
            assert(ws[i + 1].kind == SyntaxKind::PERIOD) by {
                assert((i + 1 - i) % 2 == 1);
            }
            assert forall|k: int| i + 2 <= k < j implies if (k - (i + 2)) % 2 == 0 {
                ident(#[trigger] ws[k])
            } else {
                ws[k].kind == SyntaxKind::PERIOD
            } by {
                assert((k - i) % 2 == (k - (i + 2)) % 2);
            }
            assert((j - (i + 2)) % 2 == 1);
        }
    } else if i + 1 < j {
        assert(!key(ws, i + 2, j));
    } else if parts_in_turn(ws, i, j) {
        assert(ident(ws[i]));
    }
}

/// An entry is a key, an equality sign and a value, one behind the other.
pub proof fn entries_are_keys_and_values(ws: Seq<Word>, i: int, k: int, j: int)
    requires
        parts_in_turn(ws, i, k),
        word_is(ws, k, SyntaxKind::EQ),
        value(ws, k + 1, j),
    ensures
        entry(ws, i, j),
{
    keys_are_dotted_parts(ws, i, k);
    assert(splits(i, k, j - 1));
}

/// Nothing but line breaks.
pub open spec fn breaks_only(ws: Seq<Word>, i: int, j: int) -> bool {
    &&& 0 <= i <= j <= ws.len()
    &&& forall|k: int| i <= k < j ==> (#[trigger] ws[k]).kind == SyntaxKind::NEWLINE
}

/// A comma, with nothing but line breaks before and behind it.
pub open spec fn comma_at(ws: Seq<Word>, i: int, c: int, j: int) -> bool {
    breaks_only(ws, i, c) && word_is(ws, c, SyntaxKind::COMMA) && breaks_only(ws, c + 1, j)
}

/// One comma, among line breaks.
pub open spec fn one_comma(ws: Seq<Word>, i: int, j: int) -> bool {
    exists|c: int| #[trigger] comma_at(ws, i, c, j)
}

/// The words from `i` on that follow on a value in an array, up to `j`: each of
/// the spans is a value, one comma stands in front of each of them and possibly
/// behind the last, and line breaks stand anywhere.
pub open spec fn values_follow(ws: Seq<Word>, i: int, j: int, spans: Seq<(int, int)>) -> bool
    decreases spans.len(),
{
    if spans.len() == 0 {
        breaks_only(ws, i, j) || one_comma(ws, i, j)
    } else {
        &&& one_comma(ws, i, spans[0].0)
        &&& value(ws, spans[0].0, spans[0].1)
        &&& values_follow(ws, spans[0].1, j, spans.skip(1))
    }
}

/// The words from `i` to `j` are the values in the spans, with one comma
/// between every two of them and possibly behind the last, and with line breaks
/// anywhere.
pub open spec fn is_listing(ws: Seq<Word>, i: int, j: int, spans: Seq<(int, int)>) -> bool {
    if spans.len() == 0 {
        breaks_only(ws, i, j)
    } else {
        &&& breaks_only(ws, i, spans[0].0)
        &&& value(ws, spans[0].0, spans[0].1)
        &&& values_follow(ws, spans[0].1, j, spans.skip(1))
    }
}

proof fn lemma_comma_later(ws: Seq<Word>, i: int, j: int)
    requires
        0 <= i,
        one_comma(ws, i + 1, j),
        word_is(ws, i, SyntaxKind::NEWLINE),
    ensures
        one_comma(ws, i, j),
{
    let c = choose|c: int| #[trigger] comma_at(ws, i + 1, c, j);
    assert(comma_at(ws, i, c, j));
}

proof fn lemma_comma_first(ws: Seq<Word>, i: int, j: int)
    requires
        word_is(ws, i, SyntaxKind::COMMA),
        breaks_only(ws, i + 1, j),
    ensures
        one_comma(ws, i, j),
{
    assert(comma_at(ws, i, i, j));
}

/// The values of an array.
proof fn lemma_to_listing(ws: Seq<Word>, i: int, j: int, value_next: bool) -> (spans: Seq<
    (int, int),
>)
    requires
        elements(ws, i, j, value_next),
    ensures
        value_next ==> is_listing(ws, i, j, spans),
        !value_next ==> values_follow(ws, i, j, spans),
    decreases j - i,
{
    if i == j {
        Seq::empty()
    } else if word_is(ws, i, SyntaxKind::NEWLINE) && elements(ws, i + 1, j, value_next) {
        let spans = lemma_to_listing(ws, i + 1, j, value_next);
        if !value_next {
            if spans.len() > 0 {
                lemma_comma_later(ws, i, spans[0].0);
            } else if one_comma(ws, i + 1, j) {
                lemma_comma_later(ws, i, j);
            }
        }
        spans
    } else if !value_next {
        let spans = lemma_to_listing(ws, i + 1, j, true);
        if spans.len() > 0 {
            lemma_comma_first(ws, i, spans[0].0);
        } else {
            lemma_comma_first(ws, i, j);
        }
        spans
    } else {
        let k = choose|k: int| #[trigger]
            splits(i, k, j) && value(ws, i, k) && elements(ws, k, j, false);
        let more = lemma_to_listing(ws, k, j, false);
        let spans = seq![(i, k)] + more;
        assert(spans.skip(1) =~= more);
        spans
    }
}

proof fn lemma_breaks_first(ws: Seq<Word>, i: int, k: int, j: int, value_next: bool)
    requires
        breaks_only(ws, i, k),
        elements(ws, k, j, value_next),
    ensures
        elements(ws, i, j, value_next),
    decreases k - i,
{
    if i < k {
        lemma_breaks_first(ws, i + 1, k, j, value_next);
    }
}

proof fn lemma_from_following(ws: Seq<Word>, i: int, j: int, spans: Seq<(int, int)>)
    requires
        values_follow(ws, i, j, spans),
        j <= ws.len(),
    ensures
        elements(ws, i, j, false),
    decreases spans.len(),
{
    let n = if spans.len() == 0 {
        j
    } else {
        spans[0].0
    };
    if spans.len() > 0 {
        lemma_from_following(ws, spans[0].1, j, spans.skip(1));
        assert(splits(n, spans[0].1, j));
        assert(elements(ws, n, j, true));
    }
    if spans.len() > 0 || !breaks_only(ws, i, j) {
        let c = choose|c: int| #[trigger] comma_at(ws, i, c, n);
        lemma_breaks_first(ws, c + 1, n, j, true);
        assert(elements(ws, c, j, false));
        lemma_breaks_first(ws, i, c, j, false);
    } else {
        lemma_breaks_first(ws, i, j, j, false);
    }
}

/// What stands in an array is values with one comma between every two of them
/// and possibly one behind the last, and line breaks anywhere.
pub proof fn arrays_list_values(ws: Seq<Word>, i: int, j: int)
    requires
        0 <= i <= j <= ws.len(),
    ensures
        elements(ws, i, j, true) <==> exists|spans: Seq<(int, int)>| #[trigger]
            is_listing(ws, i, j, spans),
{
    if elements(ws, i, j, true) {
        let spans = lemma_to_listing(ws, i, j, true);
        assert(is_listing(ws, i, j, spans));
    }
    if exists|spans: Seq<(int, int)>| #[trigger] is_listing(ws, i, j, spans) {
        let spans = choose|spans: Seq<(int, int)>| #[trigger] is_listing(ws, i, j, spans);
        if spans.len() == 0 {
            lemma_breaks_first(ws, i, j, j, true);
        } else {
            lemma_from_following(ws, spans[0].1, j, spans.skip(1));
            assert(splits(spans[0].0, spans[0].1, j));
            lemma_breaks_first(ws, i, spans[0].0, j, true);
        }
    }
}

/// Nothing but commas.
pub open spec fn commas_only(ws: Seq<Word>, i: int, j: int) -> bool {
    &&& 0 <= i <= j <= ws.len()
    &&& forall|k: int| i <= k < j ==> (#[trigger] ws[k]).kind == SyntaxKind::COMMA
}

/// The words from `i` on that follow on an entry in an inline table, up to `j`:
/// each of the spans is an entry, and commas stand in front of each of them,
/// and behind the last only where the text ends.
pub open spec fn entries_follow(ws: Seq<Word>, i: int, j: int, spans: Seq<(int, int)>) -> bool
    decreases spans.len(),
{
    if spans.len() == 0 {
        i == j || (j == ws.len() && commas_only(ws, i, j))
    } else {
        &&& i < spans[0].0
        &&& commas_only(ws, i, spans[0].0)
        &&& entry(ws, spans[0].0, spans[0].1)
        &&& entries_follow(ws, spans[0].1, j, spans.skip(1))
    }
}

/// The words from `i` to `j` are the entries in the spans, with commas between
/// every two of them, and behind the last only where the text ends.
pub open spec fn is_table_listing(ws: Seq<Word>, i: int, j: int, spans: Seq<(int, int)>) -> bool {
    if spans.len() == 0 {
        i == j
    } else {
        &&& i == spans[0].0
        &&& entry(ws, spans[0].0, spans[0].1)
        &&& entries_follow(ws, spans[0].1, j, spans.skip(1))
    }
}

/// The words from `i` on that follow on a comma in an inline table.
spec fn comma_followed(ws: Seq<Word>, i: int, j: int, spans: Seq<(int, int)>) -> bool {
    if spans.len() == 0 {
        j == ws.len() && commas_only(ws, i, j)
    } else {
        &&& commas_only(ws, i, spans[0].0)
        &&& entry(ws, spans[0].0, spans[0].1)
        &&& entries_follow(ws, spans[0].1, j, spans.skip(1))
    }
}

/// The entries of an inline table.
proof fn lemma_to_table(ws: Seq<Word>, i: int, j: int, first: bool, comma_last: bool) -> (spans:
    Seq<(int, int)>)
    requires
        entries(ws, i, j, first, comma_last),
        !(first && comma_last),
    ensures
        first ==> is_table_listing(ws, i, j, spans),
        comma_last ==> comma_followed(ws, i, j, spans),
        !first && !comma_last ==> entries_follow(ws, i, j, spans),
    decreases j - i,
{
    if i == j && (comma_last ==> j == ws.len()) {
        Seq::empty()
    } else if !first && word_is(ws, i, SyntaxKind::COMMA) && entries(ws, i + 1, j, false, true) {
        lemma_to_table(ws, i + 1, j, false, true)
    } else {
        let k = choose|k: int| #[trigger]
            splits(i, k, j) && entry(ws, i, k) && entries(ws, k, j, false, false);
        let more = lemma_to_table(ws, k, j, false, false);
        let spans = seq![(i, k)] + more;
        assert(spans.skip(1) =~= more);
        spans
    }
}

proof fn lemma_commas_first(ws: Seq<Word>, i: int, k: int, j: int)
    requires
        commas_only(ws, i, k),
        entries(ws, k, j, false, true),
    ensures
        entries(ws, i, j, false, true),
    decreases k - i,
{
    if i < k {
        lemma_commas_first(ws, i + 1, k, j);
    }
}

proof fn lemma_from_entries(ws: Seq<Word>, i: int, j: int, spans: Seq<(int, int)>)
    requires
        entries_follow(ws, i, j, spans),
        0 <= i,
        j <= ws.len(),
    ensures
        entries(ws, i, j, false, false),
    decreases spans.len(),
{
    if spans.len() > 0 {
        lemma_entry_in(ws, spans[0].0, spans[0].1);
        lemma_from_entries(ws, spans[0].1, j, spans.skip(1));
        assert(splits(spans[0].0, spans[0].1, j));
        assert(entries(ws, spans[0].0, j, false, true));
        lemma_commas_first(ws, i + 1, spans[0].0, j);
    } else if i < j {
        assert(entries(ws, j, j, false, true));
        lemma_commas_first(ws, i + 1, j, j);
    }
}

proof fn lemma_entry_in(ws: Seq<Word>, i: int, j: int)
    requires
        entry(ws, i, j),
    ensures
        0 <= i < j <= ws.len(),
{
    let k = choose|k: int| #[trigger]
        splits(i, k, j - 1) && key(ws, i, k) && word_is(ws, k, SyntaxKind::EQ) && value(
            ws,
            k + 1,
            j,
        );
    assert(key(ws, i, k));
    assert(value(ws, k + 1, j));
}

/// What stands in an inline table is entries with commas between every two of
/// them, and behind the last only where the text ends.
pub proof fn inline_tables_list_entries(ws: Seq<Word>, i: int, j: int)
    requires
        0 <= i <= j <= ws.len(),
    ensures
        entries(ws, i, j, true, false) <==> exists|spans: Seq<(int, int)>| #[trigger]
            is_table_listing(ws, i, j, spans),
{
    if entries(ws, i, j, true, false) {
        let spans = lemma_to_table(ws, i, j, true, false);
        assert(is_table_listing(ws, i, j, spans));
    }
    if exists|spans: Seq<(int, int)>| #[trigger] is_table_listing(ws, i, j, spans) {
        let spans = choose|spans: Seq<(int, int)>| #[trigger] is_table_listing(ws, i, j, spans);
        if spans.len() > 0 {
            lemma_entry_in(ws, spans[0].0, spans[0].1);
            lemma_from_entries(ws, spans[0].1, j, spans.skip(1));
            assert(splits(spans[0].0, spans[0].1, j));
        }
    }
}

/// Between the words at `i` and `j`, brackets, values are listed.
pub open spec fn values_between(ws: Seq<Word>, i: int, j: int) -> bool {
    exists|spans: Seq<(int, int)>| #[trigger] is_listing(ws, i + 1, j, spans)
}

/// Between the words at `i` and `j`, braces, entries are listed.
pub open spec fn entries_between(ws: Seq<Word>, i: int, j: int) -> bool {
    exists|spans: Seq<(int, int)>| #[trigger] is_table_listing(ws, i + 1, j, spans)
}

/// A value is a single word, values listed between brackets, or entries listed
/// between braces, where the last bracket or brace may be missing at the end of
/// the text.
pub proof fn values_are_single_or_listed(ws: Seq<Word>, i: int, j: int)
    requires
        0 <= i < j <= ws.len(),
    ensures
        value(ws, i, j) <==> {
            ||| j == i + 1 && scalar(ws[i])
            ||| {
                &&& ws[i].kind == SyntaxKind::BRACKET_START
                &&& {
                    ||| j == ws.len() && values_between(ws, i, j)
                    ||| i < j - 1 && ws[j - 1].kind == SyntaxKind::BRACKET_END && values_between(
                        ws,
                        i,
                        j - 1,
                    )
                }
            }
            ||| {
                &&& ws[i].kind == SyntaxKind::BRACE_START
                &&& {
                    ||| j == ws.len() && entries_between(ws, i, j)
                    ||| i < j - 1 && ws[j - 1].kind == SyntaxKind::BRACE_END && entries_between(
                        ws,
                        i,
                        j - 1,
                    )
                }
            }
        },
{
    arrays_list_values(ws, i + 1, j);
    inline_tables_list_entries(ws, i + 1, j);
    if i + 1 < j {
        arrays_list_values(ws, i + 1, j - 1);
        inline_tables_list_entries(ws, i + 1, j - 1);
    }
}

/// The words behind a line: each of the spans is a line, and line breaks stand
/// in front of each of them.
pub open spec fn lines_follow(ws: Seq<Word>, i: int, spans: Seq<(int, int)>) -> bool
    decreases spans.len(),
{
    if spans.len() == 0 {
        breaks_only(ws, i, ws.len() as int)
    } else {
        &&& i < spans[0].0
        &&& breaks_only(ws, i, spans[0].0)
        &&& line(ws, spans[0].0, spans[0].1)
        &&& lines_follow(ws, spans[0].1, spans.skip(1))
    }
}

/// The words are the lines in the spans, with line breaks between every two of
/// them, and possibly in front of the first and behind the last.
pub open spec fn are_lines(ws: Seq<Word>, i: int, spans: Seq<(int, int)>) -> bool {
    if spans.len() == 0 {
        breaks_only(ws, i, ws.len() as int)
    } else {
        &&& breaks_only(ws, i, spans[0].0)
        &&& line(ws, spans[0].0, spans[0].1)
        &&& lines_follow(ws, spans[0].1, spans.skip(1))
    }
}

proof fn lemma_to_lines(ws: Seq<Word>, i: int, line_next: bool) -> (spans: Seq<(int, int)>)
    requires
        lines(ws, i, line_next),
    ensures
        line_next ==> are_lines(ws, i, spans),
        !line_next ==> lines_follow(ws, i, spans),
    decreases ws.len() - i,
{
    if i == ws.len() {
        Seq::empty()
    } else if word_is(ws, i, SyntaxKind::NEWLINE) && lines(ws, i + 1, true) {
        lemma_to_lines(ws, i + 1, true)
    } else {
        let j = choose|j: int|
            i < j <= ws.len() && #[trigger] line(ws, i, j) && lines(ws, j, false);
        let more = lemma_to_lines(ws, j, false);
        let spans = seq![(i, j)] + more;
        assert(spans.skip(1) =~= more);
        spans
    }
}

proof fn lemma_breaks_before_line(ws: Seq<Word>, i: int, k: int)
    requires
        breaks_only(ws, i, k),
        lines(ws, k, true),
    ensures
        lines(ws, i, true),
    decreases k - i,
{
    if i < k {
        lemma_breaks_before_line(ws, i + 1, k);
    }
}

proof fn lemma_line_in(ws: Seq<Word>, i: int, j: int)
    requires
        line(ws, i, j),
    ensures
        0 <= i < j <= ws.len(),
{
    if entry(ws, i, j) {
        lemma_entry_in(ws, i, j);
    }
}

proof fn lemma_from_lines(ws: Seq<Word>, i: int, spans: Seq<(int, int)>)
    requires
        lines_follow(ws, i, spans),
    ensures
        lines(ws, i, false),
    decreases spans.len(),
{
    if spans.len() > 0 {
        lemma_line_in(ws, spans[0].0, spans[0].1);
        lemma_from_lines(ws, spans[0].1, spans.skip(1));
        assert(lines(ws, spans[0].0, true));
        lemma_breaks_before_line(ws, i + 1, spans[0].0);
    } else if i < ws.len() {
        lemma_breaks_before_line(ws, i + 1, ws.len() as int);
    }
}

/// A document is lines, headers and entries, with line breaks between every two
/// of them, and possibly in front of the first and behind the last.
pub proof fn documents_are_lines(ws: Seq<Word>)
    ensures
        lines(ws, 0, true) <==> exists|spans: Seq<(int, int)>| #[trigger] are_lines(ws, 0, spans),
{
    if lines(ws, 0, true) {
        let spans = lemma_to_lines(ws, 0, true);
        assert(are_lines(ws, 0, spans));
    }
    if exists|spans: Seq<(int, int)>| #[trigger] are_lines(ws, 0, spans) {
        let spans = choose|spans: Seq<(int, int)>| #[trigger] are_lines(ws, 0, spans);
        if spans.len() == 0 {
            lemma_breaks_before_line(ws, 0, ws.len() as int);
        } else {
            lemma_line_in(ws, spans[0].0, spans[0].1);
            lemma_from_lines(ws, spans[0].1, spans.skip(1));
            assert(lines(ws, spans[0].0, true));
            lemma_breaks_before_line(ws, 0, spans[0].0);
        }
    }
}

/// Words of given kinds from an index on.
pub open spec fn kinds_at(ws: Seq<Word>, i: int, kinds: Seq<SyntaxKind>) -> bool {
    &&& 0 <= i && i + kinds.len() <= ws.len()
    &&& forall|k: int| 0 <= k < kinds.len() ==> ws[i + k].kind == #[trigger] kinds[k]
}

/// A line is a key between single brackets, a key between double brackets of
/// which the first two stand side by side, or a key, an equality sign and a
/// value.
pub proof fn lines_are_headers_or_entries(ws: Seq<Word>, i: int, j: int)
    requires
        0 <= i < j <= ws.len(),
    ensures
        line(ws, i, j) <==> {
            ||| {
                &&& kinds_at(ws, i, seq![SyntaxKind::BRACKET_START])
                &&& !ws[i].bracket_next
                &&& parts_in_turn(ws, i + 1, j - 1)
                &&& kinds_at(ws, j - 1, seq![SyntaxKind::BRACKET_END])
            }
            ||| {
                &&& kinds_at(ws, i, seq![SyntaxKind::BRACKET_START, SyntaxKind::BRACKET_START])
                &&& ws[i].bracket_next
                &&& parts_in_turn(ws, i + 2, j - 2)
                &&& kinds_at(ws, j - 2, seq![SyntaxKind::BRACKET_END, SyntaxKind::BRACKET_END])
            }
            ||| exists|k: int| #[trigger] is_equality(ws, i, k, j)
        },
{
    keys_are_dotted_parts(ws, i + 1, j - 1);
    keys_are_dotted_parts(ws, i + 2, j - 2);
    let two = seq![SyntaxKind::BRACKET_START, SyntaxKind::BRACKET_START];
    let ends = seq![SyntaxKind::BRACKET_END, SyntaxKind::BRACKET_END];
    if kinds_at(ws, i, two) {
        assert(ws[i + 0].kind == two[0] && ws[i + 1].kind == two[1]);
    }
    if kinds_at(ws, j - 2, ends) {
        assert(ws[j - 2 + 0].kind == ends[0] && ws[j - 2 + 1].kind == ends[1]);
    }
    let one = seq![SyntaxKind::BRACKET_START];
    let end = seq![SyntaxKind::BRACKET_END];
    if kinds_at(ws, i, one) {
        assert(ws[i + 0].kind == one[0]);
    }
    if kinds_at(ws, j - 1, end) {
        assert(ws[j - 1 + 0].kind == end[0]);
    }
    if entry(ws, i, j) {
        let k = choose|k: int| #[trigger]
            splits(i, k, j - 1) && key(ws, i, k) && word_is(ws, k, SyntaxKind::EQ) && value(
                ws,
                k + 1,
                j,
            );
        keys_are_dotted_parts(ws, i, k);
        assert(is_equality(ws, i, k, j));
    }
    if exists|k: int| #[trigger] is_equality(ws, i, k, j) {
        let k = choose|k: int| #[trigger] is_equality(ws, i, k, j);
        entries_are_keys_and_values(ws, i, k, j);
    }
}

/// The words from `i` to `j` are the parts of a key, an equality sign at `k`,
/// and a value.
pub open spec fn is_equality(ws: Seq<Word>, i: int, k: int, j: int) -> bool {
    parts_in_turn(ws, i, k) && word_is(ws, k, SyntaxKind::EQ) && value(ws, k + 1, j)
}

/// A kind that matters: none of blanks, comments and errors.
pub open spec fn matters(kind: SyntaxKind) -> bool {
    kind != SyntaxKind::WHITESPACE && kind != SyntaxKind::COMMENT && kind != SyntaxKind::ERROR
}

/// A word is a token of a text, and tells whether the text goes on with an
/// opening bracket immediately behind it.
pub open spec fn is_word_of(w: Word, toks: Seq<Tok>, i: int) -> bool {
    &&& w.kind == toks[i].kind
    &&& w.text == toks[i].text
    &&& w.bracket_next <==> i + 1 < toks.len() && toks[i + 1].text.len() > 0 && toks[i + 1].text[0]
        == '[' as int
}

/// The words among the first `n` tokens stand at the given places, from left to
/// right, and no token that matters stands elsewhere.
pub open spec fn words_stand_at(toks: Seq<Tok>, n: int, places: Seq<int>) -> bool {
    let ws = words(toks, n);
    &&& ws.len() == places.len()
    &&& forall|k: int|
        0 <= k < places.len() ==> 0 <= #[trigger] places[k] < n && matters(toks[places[k]].kind)
            && is_word_of(ws[k], toks, places[k])
    &&& forall|k: int, l: int| 0 <= k < l < places.len() ==> places[k] < places[l]
    &&& forall|i: int| 0 <= i < n && matters(#[trigger] toks[i].kind) ==> places.contains(i)
}

/// The words of a text are its tokens but for blanks, comments and errors, in
/// their order.
pub proof fn words_are_tokens_that_matter(toks: Seq<Tok>, n: int)
    requires
        0 <= n <= toks.len(),
    ensures
        exists|places: Seq<int>| #[trigger] words_stand_at(toks, n, places),
    decreases n,
{
    if n == 0 {
        assert(words_stand_at(toks, n, Seq::empty()));
    } else {
        words_are_tokens_that_matter(toks, n - 1);
        let before = choose|places: Seq<int>| #[trigger] words_stand_at(toks, n - 1, places);
        if matters(toks[n - 1].kind) {
            let places = before.push(n - 1);
            assert forall|i: int| 0 <= i < n && matters(#[trigger] toks[i].kind) implies
            places.contains(i) by {
                if i < n - 1 {
                    assert(before.contains(i));
                    let k = choose|k: int| 0 <= k < before.len() && before[k] == i;
                    assert(places[k] == i);
                } else {
                    assert(places[before.len() as int] == i);
                }
            }
            assert(words_stand_at(toks, n, places));
        } else {
            assert(words_stand_at(toks, n, before));
        }
    }
}

/// What may stand between words is all but errors, and comments in which a
/// character stands that may not.
pub proof fn clean_tokens_hold_what_may_stand(tok: Tok)
    ensures
        clean(tok) <==> tok.kind != SyntaxKind::ERROR && (tok.kind == SyntaxKind::COMMENT
            ==> all_may_stand(tok.text, false)),
{
    lemma_no_control(tok.text, false);
}

} // verus!
