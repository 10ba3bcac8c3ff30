//! The lexical rules: how a text is cut into tokens.

use vstd::prelude::*;
use vstd::string::StringSliceAdditionalSpecFns;
use vstd::utf8::{
    is_char_boundary, is_char_boundary_start_end_of_seq, is_leading_byte_width_1,
    length_of_first_scalar, valid_utf8,
};

use crate::lexer::{covers, ends_at, fits, toks_of, Lexeme};
use crate::model::Tok;
use crate::syntax::SyntaxKind;
use crate::text::{
    lemma_boundary, lemma_boundary_after_ascii, lemma_boundary_after_char, lemma_str_is_utf8,
};
use crate::tokens::{all_tokens_in, is_token, tokens_are_those_of_toml};

verus! {

/// A class of bytes.
#[derive(Clone, Copy)]
pub enum Class {
    Blank,
    InLine,
    Digit,
    NumberPart,
    HexPart,
    OctPart,
    BinPart,
    IdentPart,
    Quote,
    Apostrophe,
}

impl Class {
    /// The byte belongs to the class.
    pub open spec fn has(self, b: u8) -> bool {
        match self {
            Class::Blank => b == 0x20 || b == 0x09,
            Class::InLine => b != 0x0a && b != 0x0d,
            Class::Digit => 0x30 <= b <= 0x39,
            Class::NumberPart => 0x30 <= b <= 0x39 || b == 0x5f,
            Class::HexPart => 0x30 <= b <= 0x39 || 0x41 <= b <= 0x46 || 0x61 <= b <= 0x66 || b
                == 0x5f,
            Class::OctPart => 0x30 <= b <= 0x37 || b == 0x5f,
            Class::BinPart => b == 0x30 || b == 0x31 || b == 0x5f,
            Class::IdentPart => 0x30 <= b <= 0x39 || 0x41 <= b <= 0x5a || 0x61 <= b <= 0x7a || b
                == 0x5f || b == 0x2d,
            Class::Quote => b == 0x22,
            Class::Apostrophe => b == 0x27,
        }
    }

    fn holds(self, b: u8) -> (yes: bool)
        ensures
            yes == self.has(b),
    {
        match self {
            Class::Blank => b == 0x20 || b == 0x09,
            Class::InLine => b != 0x0a && b != 0x0d,
            Class::Digit => 0x30 <= b && b <= 0x39,
            Class::NumberPart => (0x30 <= b && b <= 0x39) || b == 0x5f,
            Class::HexPart => (0x30 <= b && b <= 0x39) || (0x41 <= b && b <= 0x46) || (0x61 <= b
                && b <= 0x66) || b == 0x5f,
            Class::OctPart => (0x30 <= b && b <= 0x37) || b == 0x5f,
            Class::BinPart => b == 0x30 || b == 0x31 || b == 0x5f,
            Class::IdentPart => (0x30 <= b && b <= 0x39) || (0x41 <= b && b <= 0x5a) || (0x61 <= b
                && b <= 0x7a) || b == 0x5f || b == 0x2d,
            Class::Quote => b == 0x22,
            Class::Apostrophe => b == 0x27,
        }
    }
}

/// The given byte stands at an offset.
pub open spec fn byte_at(text: Seq<u8>, at: int, b: u8) -> bool {
    0 <= at < text.len() && text[at] == b
}

/// The given bytes stand from an offset on.
pub open spec fn bytes_at(text: Seq<u8>, at: int, bytes: Seq<u8>) -> bool {
    0 <= at && at + bytes.len() <= text.len() && text.subrange(at, at + bytes.len()) == bytes
}

/// The end of the bytes of a class that stand from an offset on.
pub open spec fn run_end(text: Seq<u8>, at: int, class: Class) -> int
    decreases text.len() - at,
{
    if 0 <= at < text.len() && class.has(text[at]) {
        run_end(text, at + 1, class)
    } else {
        at
    }
}

/// The end of the bytes of a class from an offset on, if there are any.
pub open spec fn some_run_end(text: Seq<u8>, at: int, class: Class) -> Option<int> {
    if run_end(text, at, class) > at {
        Some(run_end(text, at, class))
    } else {
        None
    }
}

/// The end of the line breaks that stand from an offset on.
pub open spec fn newlines_end(text: Seq<u8>, at: int) -> int
    decreases text.len() - at,
{
    if byte_at(text, at, 0x0a) {
        newlines_end(text, at + 1)
    } else if byte_at(text, at, 0x0d) && byte_at(text, at + 1, 0x0a) {
        newlines_end(text, at + 2)
    } else {
        at
    }
}

/// The end of a sign, if there is one.
pub open spec fn sign_end(text: Seq<u8>, at: int) -> int {
    if byte_at(text, at, 0x2b) || byte_at(text, at, 0x2d) {
        at + 1
    } else {
        at
    }
}

/// `[+-]?[0-9_]+`
pub open spec fn integer_end(text: Seq<u8>, at: int) -> Option<int> {
    some_run_end(text, sign_end(text, at), Class::NumberPart)
}

/// A zero, a letter that tells the base, and digits: `0x[0-9A-Fa-f_]+` and the like.
pub open spec fn prefixed_end(text: Seq<u8>, at: int, letter: u8, class: Class) -> Option<int> {
    if byte_at(text, at, 0x30) && byte_at(text, at + 1, letter) {
        some_run_end(text, at + 2, class)
    } else {
        None
    }
}

/// `(\.[0-9_]+)?`, with digits of the given class.
pub open spec fn fraction_end(text: Seq<u8>, at: int, class: Class) -> int {
    if byte_at(text, at, 0x2e) && run_end(text, at + 1, class) > at + 1 {
        run_end(text, at + 1, class)
    } else {
        at
    }
}

/// `([eE][+-]?[0-9_]+)?`
pub open spec fn exponent_end(text: Seq<u8>, at: int) -> int {
    let digits = sign_end(text, at + 1);
    if (byte_at(text, at, 0x65) || byte_at(text, at, 0x45)) && run_end(
        text,
        digits,
        Class::NumberPart,
    ) > digits {
        run_end(text, digits, Class::NumberPart)
    } else {
        at
    }
}

/// `[+-]?([0-9_]+(\.[0-9_]+)?([eE][+-]?[0-9_]+)?|nan|inf)`
pub open spec fn float_end(text: Seq<u8>, at: int) -> Option<int> {
    let digits = sign_end(text, at);
    if bytes_at(text, digits, seq![0x6eu8, 0x61u8, 0x6eu8]) || bytes_at(
        text,
        digits,
        seq![0x69u8, 0x6eu8, 0x66u8],
    ) {
        Some(digits + 3)
    } else if run_end(text, digits, Class::NumberPart) > digits {
        Some(
            exponent_end(
                text,
                fraction_end(text, run_end(text, digits, Class::NumberPart), Class::NumberPart),
            ),
        )
    } else {
        None
    }
}

/// `true|false`
pub open spec fn bool_end(text: Seq<u8>, at: int) -> Option<int> {
    if bytes_at(text, at, seq![0x74u8, 0x72u8, 0x75u8, 0x65u8]) {
        Some(at + 4)
    } else if bytes_at(text, at, seq![0x66u8, 0x61u8, 0x6cu8, 0x73u8, 0x65u8]) {
        Some(at + 5)
    } else {
        None
    }
}

/// `[0-9][0-9]`
pub open spec fn two_digits_at(text: Seq<u8>, at: int) -> bool {
    0 <= at && at + 2 <= text.len() && Class::Digit.has(text[at]) && Class::Digit.has(text[at + 1])
}

/// `[0-9]{4}-[0-9]{2}-[0-9]{2}`
pub open spec fn full_date_at(text: Seq<u8>, at: int) -> bool {
    &&& two_digits_at(text, at)
    &&& two_digits_at(text, at + 2)
    &&& byte_at(text, at + 4, 0x2d)
    &&& two_digits_at(text, at + 5)
    &&& byte_at(text, at + 7, 0x2d)
    &&& two_digits_at(text, at + 8)
}

/// `[0-9]{2}:[0-9]{2}:[0-9]{2}`
pub open spec fn full_time_at(text: Seq<u8>, at: int) -> bool {
    &&& two_digits_at(text, at)
    &&& byte_at(text, at + 2, 0x3a)
    &&& two_digits_at(text, at + 3)
    &&& byte_at(text, at + 5, 0x3a)
    &&& two_digits_at(text, at + 6)
}

/// `([Zz]|[+-][0-9]{2}:[0-9]{2})?`
pub open spec fn offset_end(text: Seq<u8>, at: int) -> int {
    if byte_at(text, at, 0x5a) || byte_at(text, at, 0x7a) {
        at + 1
    } else if sign_end(text, at) > at && two_digits_at(text, at + 1) && byte_at(text, at + 3, 0x3a)
        && two_digits_at(text, at + 4) {
        at + 6
    } else {
        at
    }
}

/// A date, a time, or a date with a time and possibly an offset behind it.
pub open spec fn date_end(text: Seq<u8>, at: int) -> Option<int> {
    if full_date_at(text, at) {
        if (byte_at(text, at + 10, 0x54) || byte_at(text, at + 10, 0x74) || byte_at(
            text,
            at + 10,
            0x20,
        )) && full_time_at(text, at + 11) {
            Some(offset_end(text, fraction_end(text, at + 19, Class::Digit)))
        } else {
            Some(at + 10)
        }
    } else if full_time_at(text, at) {
        Some(fraction_end(text, at + 8, Class::Digit))
    } else {
        None
    }
}

/// The longer one of two tokens, the first one if they are of the same length.
pub open spec fn longer(
    best: (SyntaxKind, int),
    kind: SyntaxKind,
    end: Option<int>,
) -> (SyntaxKind, int) {
    match end {
        Some(e) if e > best.1 => (kind, e),
        _ => best,
    }
}

/// The longest token among dates, numbers, truth values and identifiers.
pub open spec fn word_at(text: Seq<u8>, at: int) -> (SyntaxKind, int) {
    let none = (SyntaxKind::ERROR, at);
    let date = longer(none, SyntaxKind::DATE, date_end(text, at));
    let hex = longer(
        date,
        SyntaxKind::INTEGER_HEX,
        prefixed_end(text, at, 0x78, Class::HexPart),
    );
    let oct = longer(hex, SyntaxKind::INTEGER_OCT, prefixed_end(text, at, 0x6f, Class::OctPart));
    let bin = longer(oct, SyntaxKind::INTEGER_BIN, prefixed_end(text, at, 0x62, Class::BinPart));
    let truth = longer(bin, SyntaxKind::BOOL, bool_end(text, at));
    let integer = longer(truth, SyntaxKind::INTEGER, integer_end(text, at));
    let float = longer(integer, SyntaxKind::FLOAT, float_end(text, at));
    longer(float, SyntaxKind::IDENT, some_run_end(text, at, Class::IdentPart))
}

/// The end of a string on one line, from behind its opening quote on.
pub open spec fn string_end(text: Seq<u8>, at: int, escaped: bool) -> Option<int>
    decreases text.len() - at,
{
    if at < 0 || at >= text.len() || text[at] == 0x0a {
        None
    } else if text[at] == 0x22 && !escaped {
        Some(at + 1)
    } else {
        string_end(text, at + 1, text[at] == 0x5c && !escaped)
    }
}

/// The end of a literal string on one line, from behind its opening quote on.
pub open spec fn literal_end(text: Seq<u8>, at: int) -> Option<int>
    decreases text.len() - at,
{
    if at < 0 || at >= text.len() || text[at] == 0x0a {
        None
    } else if text[at] == 0x27 {
        Some(at + 1)
    } else {
        literal_end(text, at + 1)
    }
}

/// The end of a string over several lines, from behind its opening quotes on.
///
/// Three quotes in a row end it. Up to two more may follow them and belong
/// to it. Where a string has escape sequences, a quote behind a backslash
/// does not count.
pub open spec fn multi_line_end(
    text: Seq<u8>,
    at: int,
    quote: Class,
    escapes: bool,
    escaped: bool,
    quotes: int,
) -> Option<int>
    decreases text.len() - at,
{
    if at < 0 || at >= text.len() {
        None
    } else if quote.has(text[at]) && !escaped {
        if quotes >= 2 {
            let end = run_end(text, at + 1, quote);
            if end - at > 3 {
                None
            } else {
                Some(end)
            }
        } else {
            multi_line_end(text, at + 1, quote, escapes, false, quotes + 1)
        }
    } else {
        multi_line_end(text, at + 1, quote, escapes, escapes && text[at] == 0x5c && !escaped, 0)
    }
}

/// A string with its quotes, or the opening quotes alone where it has no end.
pub open spec fn quoted(
    kind: SyntaxKind,
    end: Option<int>,
    opening_end: int,
) -> (SyntaxKind, int) {
    match end {
        Some(e) => (kind, e),
        None => (SyntaxKind::ERROR, opening_end),
    }
}

/// The token that starts at an offset: its kind and its end.
pub open spec fn lexeme_at(text: Seq<u8>, at: int) -> (SyntaxKind, int) {
    let b = text[at];
    if Class::Blank.has(b) {
        (SyntaxKind::WHITESPACE, run_end(text, at, Class::Blank))
    } else if newlines_end(text, at) > at {
        (SyntaxKind::NEWLINE, newlines_end(text, at))
    } else if b == 0x23 {
        (SyntaxKind::COMMENT, run_end(text, at, Class::InLine))
    } else if b == 0x2e {
        (SyntaxKind::PERIOD, at + 1)
    } else if b == 0x2c {
        (SyntaxKind::COMMA, at + 1)
    } else if b == 0x3d {
        (SyntaxKind::EQ, at + 1)
    } else if b == 0x5b {
        (SyntaxKind::BRACKET_START, at + 1)
    } else if b == 0x5d {
        (SyntaxKind::BRACKET_END, at + 1)
    } else if b == 0x7b {
        (SyntaxKind::BRACE_START, at + 1)
    } else if b == 0x7d {
        (SyntaxKind::BRACE_END, at + 1)
    } else if b == 0x22 {
        if byte_at(text, at + 1, 0x22) && byte_at(text, at + 2, 0x22) {
            quoted(
                SyntaxKind::MULTI_LINE_STRING,
                multi_line_end(text, at + 3, Class::Quote, true, false, 0),
                at + 3,
            )
        } else {
            quoted(SyntaxKind::STRING, string_end(text, at + 1, false), at + 1)
        }
    } else if b == 0x27 {
        if byte_at(text, at + 1, 0x27) && byte_at(text, at + 2, 0x27) {
            quoted(
                SyntaxKind::MULTI_LINE_STRING_LITERAL,
                multi_line_end(text, at + 3, Class::Apostrophe, false, false, 0),
                at + 3,
            )
        } else {
            quoted(SyntaxKind::STRING_LITERAL, literal_end(text, at + 1), at + 1)
        }
    } else if word_at(text, at).1 > at {
        word_at(text, at)
    } else {
        let rest = text.subrange(at, text.len() as int);
        (SyntaxKind::ERROR, at + length_of_first_scalar(rest))
    }
}

/// The tokens from an offset on.
pub open spec fn lexemes_from(text: Seq<u8>, at: int) -> Seq<Lexeme>
    decreases text.len() - at,
{
    if 0 <= at < text.len() {
        let (kind, end) = lexeme_at(text, at);
        let lexeme = Lexeme { kind, start: at as usize, end: end as usize };
        if at < end <= text.len() {
            seq![lexeme] + lexemes_from(text, end)
        } else {
            seq![lexeme]
        }
    } else {
        Seq::empty()
    }
}

/// The tokens of a text.
pub open spec fn toks_in(text: Seq<u8>) -> Seq<Tok> {
    toks_of(lexemes_from(text, 0), text)
}

/// Something ends at `end`: an ASCII character stands before it.
spec fn after_ascii(text: Seq<u8>, at: int, end: int) -> bool {
    &&& at <= end <= text.len()
    &&& end > at ==> is_leading_byte_width_1(text[end - 1])
}

fn is_byte(text: &[u8], at: usize, ahead: usize, b: u8) -> (yes: bool)
    requires
        at <= text@.len(),
    ensures
        yes == byte_at(text@, at + ahead, b),
        text@.len() <= usize::MAX,
{
    text.len() - at > ahead && text[at + ahead] == b
}

fn find_run_end(text: &[u8], at: usize, class: Class) -> (end: usize)
    requires
        at <= text@.len(),
    ensures
        end == run_end(text@, at as int, class),
        at <= end <= text@.len(),
        end > at ==> class.has(text@[end - 1]),
        end < text@.len() ==> !class.has(text@[end as int]),
{
    let mut end = at;
    while end < text.len() && class.holds(text[end])
        invariant
            at <= end <= text@.len(),
            run_end(text@, end as int, class) == run_end(text@, at as int, class),
            end > at ==> class.has(text@[end - 1]),
        ensures
            end < text@.len() ==> !class.has(text@[end as int]),
            at <= end <= text@.len(),
            run_end(text@, end as int, class) == run_end(text@, at as int, class),
            end > at ==> class.has(text@[end - 1]),
        decreases text.len() - end,
    {
        end = end + 1;
    }
    end
}

fn find_newlines_end(text: &[u8], at: usize) -> (end: usize)
    requires
        at <= text@.len(),
    ensures
        end == newlines_end(text@, at as int),
        after_ascii(text@, at as int, end as int),
{
    let mut end = at;
    loop
        invariant_except_break
            at <= end <= text@.len(),
            newlines_end(text@, end as int) == newlines_end(text@, at as int),
            after_ascii(text@, at as int, end as int),
        ensures
            end == newlines_end(text@, at as int),
            after_ascii(text@, at as int, end as int),
        decreases text.len() - end,
    {
        if is_byte(text, end, 0, 0x0a) {
            end = end + 1;
        } else if end < text.len() && is_byte(text, end, 0, 0x0d) && is_byte(text, end, 1, 0x0a) {
            end = end + 2;
        } else {
            break;
        }
    }
    end
}

fn find_sign_end(text: &[u8], at: usize) -> (end: usize)
    requires
        at <= text@.len(),
    ensures
        end == sign_end(text@, at as int),
        after_ascii(text@, at as int, end as int),
{
    if is_byte(text, at, 0, 0x2b) || is_byte(text, at, 0, 0x2d) {
        at + 1
    } else {
        at
    }
}

/// An end that was found, or none.
spec fn found(text: Seq<u8>, at: int, end: Option<usize>, expected: Option<int>) -> bool {
    match end {
        Some(e) => expected == Some(e as int) && at < e && after_ascii(text, at, e as int),
        None => expected is None,
    }
}

fn find_some_run_end(text: &[u8], at: usize, class: Class) -> (end: Option<usize>)
    requires
        at <= text@.len(),
        !(class is InLine),
    ensures
        found(text@, at as int, end, some_run_end(text@, at as int, class)),
{
    let end = find_run_end(text, at, class);
    if end > at {
        Some(end)
    } else {
        None
    }
}

fn find_integer_end(text: &[u8], at: usize) -> (end: Option<usize>)
    requires
        at <= text@.len(),
    ensures
        found(text@, at as int, end, integer_end(text@, at as int)),
{
    find_some_run_end(text, find_sign_end(text, at), Class::NumberPart)
}

fn find_prefixed_end(text: &[u8], at: usize, letter: u8, class: Class) -> (end: Option<usize>)
    requires
        at < text@.len(),
        !(class is InLine),
    ensures
        found(text@, at as int, end, prefixed_end(text@, at as int, letter, class)),
{
    if is_byte(text, at, 0, 0x30) && is_byte(text, at, 1, letter) {
        find_some_run_end(text, at + 2, class)
    } else {
        None
    }
}

fn find_fraction_end(text: &[u8], at: usize, class: Class) -> (end: usize)
    requires
        at <= text@.len(),
        !(class is InLine),
    ensures
        end == fraction_end(text@, at as int, class),
        after_ascii(text@, at as int, end as int),
{
    if is_byte(text, at, 0, 0x2e) {
        let end = find_run_end(text, at + 1, class);
        if end > at + 1 {
            return end;
        }
    }
    at
}

fn find_exponent_end(text: &[u8], at: usize) -> (end: usize)
    requires
        at <= text@.len(),
    ensures
        end == exponent_end(text@, at as int),
        after_ascii(text@, at as int, end as int),
{
    if is_byte(text, at, 0, 0x65) || is_byte(text, at, 0, 0x45) {
        let digits = find_sign_end(text, at + 1);
        let end = find_run_end(text, digits, Class::NumberPart);
        if end > digits {
            return end;
        }
    }
    at
}

fn find_float_end(text: &[u8], at: usize) -> (end: Option<usize>)
    requires
        at <= text@.len(),
    ensures
        found(text@, at as int, end, float_end(text@, at as int)),
{
    let digits = find_sign_end(text, at);
    if text.len() - digits >= 3 {
        let (a, b, c) = (text[digits], text[digits + 1], text[digits + 2]);
        proof {
            let word = text@.subrange(digits as int, digits + 3);
            assert(word =~= seq![a, b, c]);
        }
        if (a == 0x6e && b == 0x61 && c == 0x6e) || (a == 0x69 && b == 0x6e && c == 0x66) {
            return Some(digits + 3);
        }
        proof {
            let word = seq![a, b, c];
            if word == seq![0x6eu8, 0x61u8, 0x6eu8] {
                assert(word[0] == 0x6e && word[1] == 0x61 && word[2] == 0x6e);
            }
            if word == seq![0x69u8, 0x6eu8, 0x66u8] {
                assert(word[0] == 0x69 && word[1] == 0x6e && word[2] == 0x66);
            }
        }
    }
    let whole = find_run_end(text, digits, Class::NumberPart);
    if whole > digits {
        let fraction = find_fraction_end(text, whole, Class::NumberPart);
        Some(find_exponent_end(text, fraction))
    } else {
        None
    }
}

fn find_bool_end(text: &[u8], at: usize) -> (end: Option<usize>)
    requires
        at <= text@.len(),
    ensures
        found(text@, at as int, end, bool_end(text@, at as int)),
{
    let ghost yes = seq![0x74u8, 0x72u8, 0x75u8, 0x65u8];
    let ghost no = seq![0x66u8, 0x61u8, 0x6cu8, 0x73u8, 0x65u8];
    if text.len() - at >= 4 {
        let ghost word = text@.subrange(at as int, at + 4);
        if text[at] == 0x74 && text[at + 1] == 0x72 && text[at + 2] == 0x75 && text[at + 3]
            == 0x65 {
            assert(word =~= yes);
            return Some(at + 4);
        }
        proof {
            if word == yes {
                assert(word[0] == yes[0] && word[1] == yes[1] && word[2] == yes[2] && word[3]
                    == yes[3]);
            }
        }
    }
    if text.len() - at >= 5 {
        let ghost word = text@.subrange(at as int, at + 5);
        if text[at] == 0x66 && text[at + 1] == 0x61 && text[at + 2] == 0x6c && text[at + 3] == 0x73
            && text[at + 4] == 0x65 {
            assert(word =~= no);
            return Some(at + 5);
        }
        proof {
            if word == no {
                assert(word[0] == no[0] && word[1] == no[1] && word[2] == no[2] && word[3]
                    == no[3] && word[4] == no[4]);
            }
        }
    }
    None
}

fn is_two_digits(text: &[u8], at: usize, ahead: usize) -> (yes: bool)
    requires
        at <= text@.len(),
        ahead <= 100,
    ensures
        yes == two_digits_at(text@, at + ahead),
        text@.len() <= usize::MAX,
{
    text.len() - at >= ahead + 2 && Class::Digit.holds(text[at + ahead]) && Class::Digit.holds(
        text[at + ahead + 1],
    )
}

fn is_full_date(text: &[u8], at: usize) -> (yes: bool)
    requires
        at <= text@.len(),
    ensures
        yes == full_date_at(text@, at as int),
{
    is_two_digits(text, at, 0) && is_two_digits(text, at, 2) && is_byte(text, at, 4, 0x2d)
        && is_two_digits(text, at, 5) && is_byte(text, at, 7, 0x2d) && is_two_digits(text, at, 8)
}

fn is_full_time(text: &[u8], at: usize, ahead: usize) -> (yes: bool)
    requires
        at <= text@.len(),
        ahead <= 90,
    ensures
        yes == full_time_at(text@, at + ahead),
        text@.len() <= usize::MAX,
{
    is_two_digits(text, at, ahead) && is_byte(text, at, ahead + 2, 0x3a) && is_two_digits(
        text,
        at,
        ahead + 3,
    ) && is_byte(text, at, ahead + 5, 0x3a) && is_two_digits(text, at, ahead + 6)
}

fn find_offset_end(text: &[u8], at: usize) -> (end: usize)
    requires
        at <= text@.len(),
    ensures
        end == offset_end(text@, at as int),
        after_ascii(text@, at as int, end as int),
{
    if is_byte(text, at, 0, 0x5a) || is_byte(text, at, 0, 0x7a) {
        at + 1
    } else if find_sign_end(text, at) > at && is_two_digits(text, at, 1)
        && is_byte(text, at, 3, 0x3a) && is_two_digits(text, at, 4) {
        at + 6
    } else {
        at
    }
}

fn find_date_end(text: &[u8], at: usize) -> (end: Option<usize>)
    requires
        at <= text@.len(),
    ensures
        found(text@, at as int, end, date_end(text@, at as int)),
{
    if is_full_date(text, at) {
        let parted = is_byte(text, at, 10, 0x54) || is_byte(text, at, 10, 0x74)
            || is_byte(text, at, 10, 0x20);
        if parted && is_full_time(text, at, 11) {
            let fraction = find_fraction_end(text, at + 19, Class::Digit);
            Some(find_offset_end(text, fraction))
        } else {
            Some(at + 10)
        }
    } else if is_full_time(text, at, 0) {
        Some(find_fraction_end(text, at + 8, Class::Digit))
    } else {
        None
    }
}

fn pick_longer(
    best: (SyntaxKind, usize),
    kind: SyntaxKind,
    end: Option<usize>,
    Ghost(text): Ghost<Seq<u8>>,
    Ghost(at): Ghost<int>,
    Ghost(expected): Ghost<Option<int>>,
) -> (pick: (SyntaxKind, usize))
    requires
        found(text, at, end, expected),
        after_ascii(text, at, best.1 as int),
    ensures
        (pick.0, pick.1 as int) == longer((best.0, best.1 as int), kind, expected),
        after_ascii(text, at, pick.1 as int),
{
    match end {
        Some(e) => if e > best.1 {
            (kind, e)
        } else {
            best
        },
        None => best,
    }
}

fn find_word(text: &[u8], at: usize) -> (word: (SyntaxKind, usize))
    requires
        at < text@.len(),
    ensures
        (word.0, word.1 as int) == word_at(text@, at as int),
        after_ascii(text@, at as int, word.1 as int),
{
    let ghost t = text@;
    let ghost i = at as int;
    let none = (SyntaxKind::ERROR, at);
    let date = pick_longer(
        none,
        SyntaxKind::DATE,
        find_date_end(text, at),
        Ghost(t),
        Ghost(i),
        Ghost(date_end(t, i)),
    );
    let hex = pick_longer(
        date,
        SyntaxKind::INTEGER_HEX,
        find_prefixed_end(text, at, 0x78, Class::HexPart),
        Ghost(t),
        Ghost(i),
        Ghost(prefixed_end(t, i, 0x78, Class::HexPart)),
    );
    let oct = pick_longer(
        hex,
        SyntaxKind::INTEGER_OCT,
        find_prefixed_end(text, at, 0x6f, Class::OctPart),
        Ghost(t),
        Ghost(i),
        Ghost(prefixed_end(t, i, 0x6f, Class::OctPart)),
    );
    let bin = pick_longer(
        oct,
        SyntaxKind::INTEGER_BIN,
        find_prefixed_end(text, at, 0x62, Class::BinPart),
        Ghost(t),
        Ghost(i),
        Ghost(prefixed_end(t, i, 0x62, Class::BinPart)),
    );
    let truth = pick_longer(
        bin,
        SyntaxKind::BOOL,
        find_bool_end(text, at),
        Ghost(t),
        Ghost(i),
        Ghost(bool_end(t, i)),
    );
    let integer = pick_longer(
        truth,
        SyntaxKind::INTEGER,
        find_integer_end(text, at),
        Ghost(t),
        Ghost(i),
        Ghost(integer_end(t, i)),
    );
    let float = pick_longer(
        integer,
        SyntaxKind::FLOAT,
        find_float_end(text, at),
        Ghost(t),
        Ghost(i),
        Ghost(float_end(t, i)),
    );
    pick_longer(
        float,
        SyntaxKind::IDENT,
        find_some_run_end(text, at, Class::IdentPart),
        Ghost(t),
        Ghost(i),
        Ghost(some_run_end(t, i, Class::IdentPart)),
    )
}

fn find_string_end(text: &[u8], from: usize) -> (end: Option<usize>)
    requires
        from <= text@.len(),
    ensures
        found(text@, from as int, end, string_end(text@, from as int, false)),
{
    let mut at = from;
    let mut escaped = false;
    while at < text.len()
        invariant
            from <= at <= text@.len(),
            string_end(text@, at as int, escaped) == string_end(text@, from as int, false),
        decreases text.len() - at,
    {
        if text[at] == 0x0a {
            return None;
        }
        if text[at] == 0x22 && !escaped {
            return Some(at + 1);
        }
        escaped = text[at] == 0x5c && !escaped;
        at = at + 1;
    }
    None
}

fn find_literal_end(text: &[u8], from: usize) -> (end: Option<usize>)
    requires
        from <= text@.len(),
    ensures
        found(text@, from as int, end, literal_end(text@, from as int)),
{
    let mut at = from;
    while at < text.len()
        invariant
            from <= at <= text@.len(),
            literal_end(text@, at as int) == literal_end(text@, from as int),
        decreases text.len() - at,
    {
        if text[at] == 0x0a {
            return None;
        }
        if text[at] == 0x27 {
            return Some(at + 1);
        }
        at = at + 1;
    }
    None
}

fn find_multi_line_end(
    text: &[u8],
    from: usize,
    quote: Class,
    escapes: bool,
) -> (end: Option<usize>)
    requires
        from <= text@.len(),
        quote is Quote || quote is Apostrophe,
    ensures
        found(
            text@,
            from as int,
            end,
            multi_line_end(text@, from as int, quote, escapes, false, 0),
        ),
{
    let mut at = from;
    let mut escaped = false;
    let mut quotes: u8 = 0;
    while at < text.len()
        invariant
            from <= at <= text@.len(),
            quotes <= 2,
            quote is Quote || quote is Apostrophe,
            multi_line_end(text@, at as int, quote, escapes, escaped, quotes as int)
                == multi_line_end(text@, from as int, quote, escapes, false, 0),
        decreases text.len() - at,
    {
        if quote.holds(text[at]) && !escaped {
            if quotes == 2 {
                let end = find_run_end(text, at + 1, quote);
                return if end - at > 3 {
                    None
                } else {
                    Some(end)
                };
            }
            quotes = quotes + 1;
        } else {
            escaped = escapes && text[at] == 0x5c && !escaped;
            quotes = 0;
        }
        at = at + 1;
    }
    None
}

/// The length of the character that starts with a byte.
fn char_len(b: u8) -> (len: usize)
    ensures
        forall|text: Seq<u8>|
            #![trigger length_of_first_scalar(text)]
            text.len() > 0 && text[0] == b ==> len == length_of_first_scalar(text),
{
    if b <= 0x7f {
        1
    } else if 0xc0 <= b && b <= 0xdf {
        2
    } else if 0xe0 <= b && b <= 0xef {
        3
    } else {
        4
    }
}

/// Finds the token that starts at an offset.
fn find_lexeme(text: &[u8], at: usize) -> (lexeme: (SyntaxKind, usize))
    requires
        valid_utf8(text@),
        at < text@.len(),
        is_char_boundary(text@, at as int),
    ensures
        (lexeme.0, lexeme.1 as int) == lexeme_at(text@, at as int),
        at < lexeme.1 <= text@.len(),
        is_char_boundary(text@, lexeme.1 as int),
{
    let lexeme = find_any(text, at);
    proof {
        let end = lexeme.1 as int;
        if is_leading_byte_width_1(text@[end - 1]) {
            lemma_boundary_after_ascii(text@, end - 1);
        }
    }
    lexeme
}

fn find_any(text: &[u8], at: usize) -> (lexeme: (SyntaxKind, usize))
    requires
        valid_utf8(text@),
        at < text@.len(),
        is_char_boundary(text@, at as int),
    ensures
        (lexeme.0, lexeme.1 as int) == lexeme_at(text@, at as int),
        at < lexeme.1 <= text@.len(),
        is_leading_byte_width_1(text@[lexeme.1 - 1]) || is_char_boundary(text@, lexeme.1 as int),
{
    let b = text[at];
    if Class::Blank.holds(b) {
        return (SyntaxKind::WHITESPACE, find_run_end(text, at, Class::Blank));
    }
    let newlines = find_newlines_end(text, at);
    if newlines > at {
        return (SyntaxKind::NEWLINE, newlines);
    }
    if b == 0x23 {
        let end = find_run_end(text, at, Class::InLine);
        proof {
            lemma_boundary(text@, end as int);
        }
        return (SyntaxKind::COMMENT, end);
    }
    if b == 0x2e {
        return (SyntaxKind::PERIOD, at + 1);
    }
    if b == 0x2c {
        return (SyntaxKind::COMMA, at + 1);
    }
    if b == 0x3d {
        return (SyntaxKind::EQ, at + 1);
    }
    if b == 0x5b {
        return (SyntaxKind::BRACKET_START, at + 1);
    }
    if b == 0x5d {
        return (SyntaxKind::BRACKET_END, at + 1);
    }
    if b == 0x7b {
        return (SyntaxKind::BRACE_START, at + 1);
    }
    if b == 0x7d {
        return (SyntaxKind::BRACE_END, at + 1);
    }
    if b == 0x22 {
        if is_byte(text, at, 1, 0x22) && is_byte(text, at, 2, 0x22) {
            return match find_multi_line_end(text, at + 3, Class::Quote, true) {
                Some(end) => (SyntaxKind::MULTI_LINE_STRING, end),
                None => (SyntaxKind::ERROR, at + 3),
            };
        }
        return match find_string_end(text, at + 1) {
            Some(end) => (SyntaxKind::STRING, end),
            None => (SyntaxKind::ERROR, at + 1),
        };
    }
    if b == 0x27 {
        if is_byte(text, at, 1, 0x27) && is_byte(text, at, 2, 0x27) {
            return match find_multi_line_end(text, at + 3, Class::Apostrophe, false) {
                Some(end) => (SyntaxKind::MULTI_LINE_STRING_LITERAL, end),
                None => (SyntaxKind::ERROR, at + 3),
            };
        }
        return match find_literal_end(text, at + 1) {
            Some(end) => (SyntaxKind::STRING_LITERAL, end),
            None => (SyntaxKind::ERROR, at + 1),
        };
    }
    let word = find_word(text, at);
    if word.1 > at {
        return word;
    }
    proof {
        lemma_boundary_after_char(text@, at as int);
    }
    (SyntaxKind::ERROR, at + char_len(b))
}

/// Cuts a text into tokens.
pub fn lex(source: &str) -> (lexemes: Vec<Lexeme>)
    ensures
        lexemes@ == lexemes_from(source.spec_bytes(), 0),
        covers(lexemes@, source.spec_bytes()),
        all_tokens_in(lexemes@, source.spec_bytes()),
{
    let text = source.as_bytes();
    let mut lexemes: Vec<Lexeme> = Vec::new();
    let mut at: usize = 0;
    proof {
        lemma_str_is_utf8(source);
        is_char_boundary_start_end_of_seq(text@);
    }
    while at < text.len()
        invariant
            valid_utf8(text@),
            at <= text@.len(),
            is_char_boundary(text@, at as int),
            lexemes@ + lexemes_from(text@, at as int) == lexemes_from(text@, 0),
            forall|i: int| 0 <= i < lexemes@.len() ==> #[trigger] fits(lexemes@, i, text@),
            ends_at(lexemes@, lexemes@.len() as int) == at,
            all_tokens_in(lexemes@, text@),
        decreases text.len() - at,
    {
        let (kind, end) = find_lexeme(text, at);
        let ghost before = lexemes@;
        let lexeme = Lexeme { kind, start: at, end };
        lexemes.push(lexeme);
        proof {
            tokens_are_those_of_toml(text@, at as int);
            assert(is_token(lexeme, text@));
            assert forall|n: int| 0 <= n < lexemes@.len() implies #[trigger] is_token(
                lexemes@[n],
                text@,
            ) by {
                if n < before.len() {
                    assert(is_token(before[n], text@));
                }
            }
            assert(lexemes_from(text@, at as int) == seq![lexeme] + lexemes_from(
                text@,
                end as int,
            ));
            assert(lexemes@ + lexemes_from(text@, end as int) =~= before + lexemes_from(
                text@,
                at as int,
            ));
            assert forall|i: int| 0 <= i < lexemes@.len() implies #[trigger] fits(
                lexemes@,
                i,
                text@,
            ) by {
                if i < before.len() {
                    assert(fits(before, i, text@));
                }
            }
        }
        at = end;
    }
    assert(lexemes@ =~= lexemes@ + lexemes_from(text@, at as int));
    lexemes
}

} // verus!
