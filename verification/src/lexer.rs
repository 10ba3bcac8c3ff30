//! The tokens of a text, handed out one after the other.

use vstd::prelude::*;
use vstd::string::StringSliceAdditionalSpecFns;
use vstd::utf8::{is_char_boundary, is_char_boundary_start_end_of_seq};

use crate::model::Tok;
use crate::preserved::{end_of, none_empty, texts_from, tiled};
use crate::syntax::SyntaxKind;
use crate::text::{lemma_str_is_utf8, slice};

verus! {

/// A token of a text: its kind, and the offsets between which it stands.
#[derive(Debug, Clone, Copy, PartialEq, Eq, Hash, Structural)]
pub struct Lexeme {
    pub kind: SyntaxKind,
    pub start: usize,
    pub end: usize,
}

/// The end of the first `n` tokens.
pub open spec fn ends_at(lexemes: Seq<Lexeme>, n: int) -> int {
    if n <= 0 {
        0
    } else {
        lexemes[n - 1].end as int
    }
}

/// A token is not empty, lies in the text, starts where the one before it
/// ends, and ends between two characters.
pub open spec fn fits(lexemes: Seq<Lexeme>, n: int, source: Seq<u8>) -> bool {
    &&& lexemes[n].start == ends_at(lexemes, n)
    &&& lexemes[n].start < lexemes[n].end <= source.len()
    &&& is_char_boundary(source, lexemes[n].end as int)
}

/// The tokens cover a text from its start to its end.
pub open spec fn covers(lexemes: Seq<Lexeme>, source: Seq<u8>) -> bool {
    &&& forall|i: int| 0 <= i < lexemes.len() ==> #[trigger] fits(lexemes, i, source)
    &&& ends_at(lexemes, lexemes.len() as int) == source.len()
}

/// The tokens with their texts.
pub open spec fn toks_of(lexemes: Seq<Lexeme>, source: Seq<u8>) -> Seq<Tok> {
    Seq::new(
        lexemes.len(),
        |i: int|
            Tok {
                kind: lexemes[i].kind,
                start: lexemes[i].start as int,
                text: source.subrange(lexemes[i].start as int, lexemes[i].end as int),
            },
    )
}

/// Tokens that cover a text follow on each other.
pub proof fn lemma_toks_tiled(lexemes: Seq<Lexeme>, source: Seq<u8>)
    requires
        covers(lexemes, source),
    ensures
        tiled(toks_of(lexemes, source)),
        none_empty(toks_of(lexemes, source)),
        end_of(toks_of(lexemes, source), lexemes.len() as int) == source.len(),
{
    let toks = toks_of(lexemes, source);
    assert forall|i: int| 0 <= i < toks.len() implies (#[trigger] toks[i]).text.len() > 0 by {
        assert(fits(lexemes, i, source));
    }
    assert forall|i: int| 0 <= i <= toks.len() implies #[trigger] end_of(toks, i) == ends_at(
        lexemes,
        i,
    ) by {
        if i > 0 {
            assert(fits(lexemes, i - 1, source));
        }
    }
    assert forall|i: int| 0 <= i < toks.len() implies toks[i].start == #[trigger] end_of(
        toks,
        i,
    ) by {
        assert(fits(lexemes, i, source));
    }
}

/// Tokens that cover a text have its text from any of them on.
pub proof fn lemma_toks_text(lexemes: Seq<Lexeme>, source: Seq<u8>, n: int)
    requires
        covers(lexemes, source),
        0 <= n <= lexemes.len(),
    ensures
        0 <= ends_at(lexemes, n) <= source.len(),
        texts_from(toks_of(lexemes, source), n) == source.subrange(
            ends_at(lexemes, n),
            source.len() as int,
        ),
    decreases lexemes.len() - n,
{
    let toks = toks_of(lexemes, source);
    if n < lexemes.len() {
        assert(fits(lexemes, n, source));
        lemma_toks_text(lexemes, source, n + 1);
        assert(toks[n].text + texts_from(toks, n + 1) =~= source.subrange(
            ends_at(lexemes, n),
            source.len() as int,
        ));
    } else {
        assert(texts_from(toks, n) =~= source.subrange(source.len() as int, source.len() as int));
    }
}

/// Hands out the tokens of a text.
pub(crate) struct Lexer<'p> {
    source: &'p str,
    lexemes: Vec<Lexeme>,
    next: usize,
    start: usize,
    end: usize,
}

impl<'p> Lexer<'p> {
    pub(crate) closed spec fn bytes(self) -> Seq<u8> {
        self.source.spec_bytes()
    }

    pub(crate) closed spec fn toks(self) -> Seq<Tok> {
        toks_of(self.lexemes@, self.bytes())
    }

    pub(crate) closed spec fn pos(self) -> int {
        self.next as int
    }

    pub(crate) closed spec fn start(self) -> int {
        self.start as int
    }

    pub(crate) closed spec fn text(self) -> Seq<u8> {
        self.bytes().subrange(self.start as int, self.end as int)
    }

    pub(crate) closed spec fn inv(self) -> bool {
        &&& covers(self.lexemes@, self.bytes())
        &&& self.bytes().len() <= u32::MAX
        &&& self.next <= self.lexemes@.len()
        &&& self.start <= self.end <= self.bytes().len()
        &&& self.end == ends_at(self.lexemes@, self.next as int)
        &&& is_char_boundary(self.bytes(), self.start as int)
        &&& is_char_boundary(self.bytes(), self.end as int)
    }

    /// Before the first token of a text.
    pub(crate) fn new(source: &'p str, lexemes: Vec<Lexeme>) -> (lexer: Lexer<'p>)
        requires
            covers(lexemes@, source.spec_bytes()),
            source.spec_bytes().len() <= u32::MAX,
        ensures
            lexer.inv(),
            lexer.bytes() == source.spec_bytes(),
            lexer.toks() == toks_of(lexemes@, source.spec_bytes()),
            lexer.pos() == 0,
            lexer.start() == 0,
            lexer.text() == Seq::<u8>::empty(),
    {
        let lexer = Lexer { source, lexemes, next: 0, start: 0, end: 0 };
        proof {
            lemma_str_is_utf8(source);
            is_char_boundary_start_end_of_seq(source.spec_bytes());
            assert(lexer.text() =~= Seq::<u8>::empty());
        }
        lexer
    }

    /// Goes on to the next token, if there is one, or to the end of the text.
    pub(crate) fn next(&mut self) -> (kind: Option<SyntaxKind>)
        requires
            old(self).inv(),
        ensures
            final(self).inv(),
            final(self).bytes() == old(self).bytes(),
            final(self).toks() == old(self).toks(),
            old(self).pos() < old(self).toks().len() ==> {
                let tok = old(self).toks()[old(self).pos()];
                &&& kind == Some(tok.kind)
                &&& final(self).pos() == old(self).pos() + 1
                &&& final(self).start() == tok.start
                &&& final(self).text() == tok.text
            },
            old(self).pos() >= old(self).toks().len() ==> {
                &&& kind is None
                &&& final(self).pos() == old(self).pos()
                &&& final(self).start() == old(self).start() + old(self).text().len()
                &&& final(self).text() == Seq::<u8>::empty()
            },
    {
        if self.next < self.lexemes.len() {
            let lexeme = self.lexemes[self.next];
            assert(fits(self.lexemes@, self.next as int, self.bytes()));
            self.start = self.end;
            self.end = lexeme.end;
            self.next = self.next + 1;
            Some(lexeme.kind)
        } else {
            self.start = self.end;
            assert(self.text() =~= Seq::<u8>::empty());
            None
        }
    }

    /// The offsets of what was handed out last.
    pub(crate) fn span(&self) -> (span: (u32, u32))
        requires
            self.inv(),
        ensures
            span.0 == self.start(),
            span.1 == self.start() + self.text().len(),
    {
        (self.start as u32, self.end as u32)
    }

    /// The text of what was handed out last.
    pub(crate) fn slice(&self) -> (text: &'p str)
        requires
            self.inv(),
        ensures
            text.spec_bytes() == self.text(),
    {
        slice(self.source, self.start, self.end)
    }

    /// The text behind what was handed out last.
    pub(crate) fn remainder(&self) -> (text: &'p str)
        requires
            self.inv(),
        ensures
            self.pos() < self.toks().len() ==> {
                let next = self.toks()[self.pos()].text;
                next.len() > 0 && next.is_prefix_of(text.spec_bytes())
            },
            self.pos() >= self.toks().len() ==> text.spec_bytes().len() == 0,
    {
        let (_read, rest) = self.source.split_at(self.end);
        proof {
            if self.next < self.lexemes@.len() {
                assert(fits(self.lexemes@, self.next as int, self.bytes()));
            }
        }
        rest
    }

    /// Every token that was handed out lies in the text.
    pub(crate) proof fn lemma_in_text(self)
        requires
            self.inv(),
        ensures
            0 <= self.start() <= self.start() + self.text().len() <= u32::MAX,
    {
    }
}

} // verus!
