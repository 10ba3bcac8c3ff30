//! The kinds of tokens and nodes that occur in a syntax tree.

use vstd::prelude::*;

verus! {

/// The kind of a token (up to `ERROR`) or of a node (from `KEY` on).
#[allow(non_camel_case_types)]
#[derive(Debug, Clone, Copy, PartialEq, Eq, Hash, Structural)]
pub enum SyntaxKind {
    WHITESPACE,
    NEWLINE,
    COMMENT,
    IDENT,
    PERIOD,
    COMMA,
    EQ,
    STRING,
    MULTI_LINE_STRING,
    STRING_LITERAL,
    MULTI_LINE_STRING_LITERAL,
    INTEGER,
    INTEGER_HEX,
    INTEGER_OCT,
    INTEGER_BIN,
    FLOAT,
    BOOL,
    DATE,
    BRACKET_START,
    BRACKET_END,
    BRACE_START,
    BRACE_END,
    ERROR,
    KEY,
    VALUE,
    TABLE_HEADER,
    TABLE_ARRAY_HEADER,
    ENTRY,
    ARRAY,
    INLINE_TABLE,
    ROOT,
}

impl SyntaxKind {
    /// The number of a kind: its place in the declaration of the type, from 0 on.
    pub open spec fn number(self) -> u16 {
        match self {
            SyntaxKind::WHITESPACE => 0,
            SyntaxKind::NEWLINE => 1,
            SyntaxKind::COMMENT => 2,
            SyntaxKind::IDENT => 3,
            SyntaxKind::PERIOD => 4,
            SyntaxKind::COMMA => 5,
            SyntaxKind::EQ => 6,
            SyntaxKind::STRING => 7,
            SyntaxKind::MULTI_LINE_STRING => 8,
            SyntaxKind::STRING_LITERAL => 9,
            SyntaxKind::MULTI_LINE_STRING_LITERAL => 10,
            SyntaxKind::INTEGER => 11,
            SyntaxKind::INTEGER_HEX => 12,
            SyntaxKind::INTEGER_OCT => 13,
            SyntaxKind::INTEGER_BIN => 14,
            SyntaxKind::FLOAT => 15,
            SyntaxKind::BOOL => 16,
            SyntaxKind::DATE => 17,
            SyntaxKind::BRACKET_START => 18,
            SyntaxKind::BRACKET_END => 19,
            SyntaxKind::BRACE_START => 20,
            SyntaxKind::BRACE_END => 21,
            SyntaxKind::ERROR => 22,
            SyntaxKind::KEY => 23,
            SyntaxKind::VALUE => 24,
            SyntaxKind::TABLE_HEADER => 25,
            SyntaxKind::TABLE_ARRAY_HEADER => 26,
            SyntaxKind::ENTRY => 27,
            SyntaxKind::ARRAY => 28,
            SyntaxKind::INLINE_TABLE => 29,
            SyntaxKind::ROOT => 30,
        }
    }

    /// The number under which a kind is stored in a tree.
    pub fn code(self) -> (code: u16)
        ensures
            code == self.number(),
    {
        match self {
            SyntaxKind::WHITESPACE => 0,
            SyntaxKind::NEWLINE => 1,
            SyntaxKind::COMMENT => 2,
            SyntaxKind::IDENT => 3,
            SyntaxKind::PERIOD => 4,
            SyntaxKind::COMMA => 5,
            SyntaxKind::EQ => 6,
            SyntaxKind::STRING => 7,
            SyntaxKind::MULTI_LINE_STRING => 8,
            SyntaxKind::STRING_LITERAL => 9,
            SyntaxKind::MULTI_LINE_STRING_LITERAL => 10,
            SyntaxKind::INTEGER => 11,
            SyntaxKind::INTEGER_HEX => 12,
            SyntaxKind::INTEGER_OCT => 13,
            SyntaxKind::INTEGER_BIN => 14,
            SyntaxKind::FLOAT => 15,
            SyntaxKind::BOOL => 16,
            SyntaxKind::DATE => 17,
            SyntaxKind::BRACKET_START => 18,
            SyntaxKind::BRACKET_END => 19,
            SyntaxKind::BRACE_START => 20,
            SyntaxKind::BRACE_END => 21,
            SyntaxKind::ERROR => 22,
            SyntaxKind::KEY => 23,
            SyntaxKind::VALUE => 24,
            SyntaxKind::TABLE_HEADER => 25,
            SyntaxKind::TABLE_ARRAY_HEADER => 26,
            SyntaxKind::ENTRY => 27,
            SyntaxKind::ARRAY => 28,
            SyntaxKind::INLINE_TABLE => 29,
            SyntaxKind::ROOT => 30,
        }
    }

    /// The kind that is stored in a tree under a number, if there is one.
    pub fn from_code(code: u16) -> (kind: Option<SyntaxKind>)
        ensures
            kind matches Some(k) ==> k.number() == code,
            kind is None <==> code > SyntaxKind::ROOT.number(),
    {
        match code {
            0 => Some(SyntaxKind::WHITESPACE),
            1 => Some(SyntaxKind::NEWLINE),
            2 => Some(SyntaxKind::COMMENT),
            3 => Some(SyntaxKind::IDENT),
            4 => Some(SyntaxKind::PERIOD),
            5 => Some(SyntaxKind::COMMA),
            6 => Some(SyntaxKind::EQ),
            7 => Some(SyntaxKind::STRING),
            8 => Some(SyntaxKind::MULTI_LINE_STRING),
            9 => Some(SyntaxKind::STRING_LITERAL),
            10 => Some(SyntaxKind::MULTI_LINE_STRING_LITERAL),
            11 => Some(SyntaxKind::INTEGER),
            12 => Some(SyntaxKind::INTEGER_HEX),
            13 => Some(SyntaxKind::INTEGER_OCT),
            14 => Some(SyntaxKind::INTEGER_BIN),
            15 => Some(SyntaxKind::FLOAT),
            16 => Some(SyntaxKind::BOOL),
            17 => Some(SyntaxKind::DATE),
            18 => Some(SyntaxKind::BRACKET_START),
            19 => Some(SyntaxKind::BRACKET_END),
            20 => Some(SyntaxKind::BRACE_START),
            21 => Some(SyntaxKind::BRACE_END),
            22 => Some(SyntaxKind::ERROR),
            23 => Some(SyntaxKind::KEY),
            24 => Some(SyntaxKind::VALUE),
            25 => Some(SyntaxKind::TABLE_HEADER),
            26 => Some(SyntaxKind::TABLE_ARRAY_HEADER),
            27 => Some(SyntaxKind::ENTRY),
            28 => Some(SyntaxKind::ARRAY),
            29 => Some(SyntaxKind::INLINE_TABLE),
            30 => Some(SyntaxKind::ROOT),
            _ => None,
        }
    }
}

/// No two kinds share a number, so a tree tells every two kinds apart.
pub proof fn kinds_have_distinct_numbers(a: SyntaxKind, b: SyntaxKind)
    requires
        a.number() == b.number(),
    ensures
        a == b,
{
}

} // verus!
