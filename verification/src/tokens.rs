//! What the tokens of a text are, told apart from how they are found.
//!
//! Each predicate below says of a stretch of a text, from the offset `i` up to
//! the offset `e`, what it looks like. The laws say that a token is always the
//! longest stretch that looks like one.

use vstd::prelude::*;
use vstd::utf8::length_of_first_scalar;

use crate::lexer::Lexeme;
use crate::lexical::{
    bool_end, byte_at, bytes_at, date_end, exponent_end, float_end, fraction_end, full_date_at,
    full_time_at, integer_end, lexeme_at, literal_end, multi_line_end, newlines_end,
    offset_end, prefixed_end, run_end, sign_end, some_run_end, string_end, two_digits_at, word_at,
    Class,
};
use crate::syntax::SyntaxKind;

verus! {

/// A decimal digit.
pub open spec fn digit(b: u8) -> bool {
    '0' as int <= b && b <= '9' as int
}

/// A letter of either case.
pub open spec fn letter(b: u8) -> bool {
    ('a' as int <= b && b <= 'z' as int) || ('A' as int <= b && b <= 'Z' as int)
}

/// A hexadecimal digit of either case.
pub open spec fn hex_digit(b: u8) -> bool {
    digit(b) || ('a' as int <= b && b <= 'f' as int) || ('A' as int <= b && b <= 'F' as int)
}

/// The byte of an ASCII character stands at an offset.
pub open spec fn stands(text: Seq<u8>, i: int, c: char) -> bool {
    0 <= i < text.len() && text[i] == c as int
}

/// A plus or a minus.
pub open spec fn signed(text: Seq<u8>, i: int) -> bool {
    stands(text, i, '+') || stands(text, i, '-')
}

/// Digits, at least one.
pub open spec fn digits_in(text: Seq<u8>, i: int, e: int) -> bool {
    0 <= i < e <= text.len() && forall|k: int| i <= k < e ==> digit(#[trigger] text[k])
}

/// Digits and underscores, at least one of them.
pub open spec fn figures_in(text: Seq<u8>, i: int, e: int) -> bool {
    &&& 0 <= i < e <= text.len()
    &&& forall|k: int| i <= k < e ==> digit(#[trigger] text[k]) || text[k] == '_' as int
}

/// `figures`, possibly with a sign in front.
pub open spec fn integer_in(text: Seq<u8>, i: int, e: int) -> bool {
    figures_in(text, i, e) || (signed(text, i) && figures_in(text, i + 1, e))
}

/// `0x` and hexadecimal digits.
pub open spec fn hex_in(text: Seq<u8>, i: int, e: int) -> bool {
    &&& i + 2 < e <= text.len() && stands(text, i, '0') && stands(text, i + 1, 'x')
    &&& forall|k: int| i + 2 <= k < e ==> hex_digit(#[trigger] text[k]) || text[k] == '_' as int
}

/// `0o` and octal digits.
pub open spec fn oct_in(text: Seq<u8>, i: int, e: int) -> bool {
    &&& i + 2 < e <= text.len() && stands(text, i, '0') && stands(text, i + 1, 'o')
    &&& forall|k: int|
        i + 2 <= k < e ==> ('0' as int <= #[trigger] text[k] && text[k] <= '7' as int) || text[k]
            == '_' as int
}

/// `0b` and binary digits.
pub open spec fn bin_in(text: Seq<u8>, i: int, e: int) -> bool {
    &&& i + 2 < e <= text.len() && stands(text, i, '0') && stands(text, i + 1, 'b')
    &&& forall|k: int|
        i + 2 <= k < e ==> #[trigger] text[k] == '0' as int || text[k] == '1' as int || text[k]
            == '_' as int
}

/// Three letters.
pub open spec fn spelled(text: Seq<u8>, i: int, e: int, a: char, b: char, c: char) -> bool {
    e == i + 3 && stands(text, i, a) && stands(text, i + 1, b) && stands(text, i + 2, c)
}

/// `e` or `E`, possibly a sign, and figures.
pub open spec fn exponent_in(text: Seq<u8>, i: int, e: int) -> bool {
    &&& stands(text, i, 'e') || stands(text, i, 'E')
    &&& figures_in(text, i + 1, e) || (signed(text, i + 1) && figures_in(text, i + 2, e))
}

/// Figures, then possibly a period and figures, then possibly an exponent.
pub open spec fn decimal_in(text: Seq<u8>, i: int, p: int, x: int, e: int) -> bool {
    &&& figures_in(text, i, p)
    &&& p == x || (stands(text, p, '.') && figures_in(text, p + 1, x))
    &&& x == e || exponent_in(text, x, e)
}

/// A float without a sign.
pub open spec fn unsigned_in(text: Seq<u8>, i: int, e: int) -> bool {
    ||| spelled(text, i, e, 'n', 'a', 'n')
    ||| spelled(text, i, e, 'i', 'n', 'f')
    ||| exists|p: int, x: int| #[trigger] decimal_in(text, i, p, x, e)
}

/// A float, possibly with a sign in front.
pub open spec fn float_in(text: Seq<u8>, i: int, e: int) -> bool {
    unsigned_in(text, i, e) || (signed(text, i) && unsigned_in(text, i + 1, e))
}

/// `true` or `false`.
pub open spec fn bool_in(text: Seq<u8>, i: int, e: int) -> bool {
    ||| spelled(text, i, i + 3, 't', 'r', 'u') && stands(text, i + 3, 'e') && e == i + 4
    ||| spelled(text, i, i + 3, 'f', 'a', 'l') && stands(text, i + 3, 's') && stands(
        text,
        i + 4,
        'e',
    ) && e == i + 5
}

/// Two digits.
pub open spec fn two_in(text: Seq<u8>, i: int) -> bool {
    digits_in(text, i, i + 2)
}

/// `1979-05-27`
pub open spec fn day_in(text: Seq<u8>, i: int) -> bool {
    &&& digits_in(text, i, i + 4) && stands(text, i + 4, '-')
    &&& two_in(text, i + 5) && stands(text, i + 7, '-') && two_in(text, i + 8)
}

/// `07:32:00`
pub open spec fn clock_in(text: Seq<u8>, i: int) -> bool {
    &&& two_in(text, i) && stands(text, i + 2, ':')
    &&& two_in(text, i + 3) && stands(text, i + 5, ':') && two_in(text, i + 6)
}

/// Possibly a period and digits.
pub open spec fn seconds_in(text: Seq<u8>, i: int, e: int) -> bool {
    i == e || (stands(text, i, '.') && digits_in(text, i + 1, e))
}

/// Possibly `Z` or an offset like `-07:00`.
pub open spec fn zone_in(text: Seq<u8>, i: int, e: int) -> bool {
    ||| i == e
    ||| e == i + 1 && (stands(text, i, 'Z') || stands(text, i, 'z'))
    ||| e == i + 6 && signed(text, i) && two_in(text, i + 1) && stands(text, i + 3, ':') && two_in(
        text,
        i + 4,
    )
}

/// A day, a time of the day, or both with a `T` or a blank in between.
pub open spec fn date_in(text: Seq<u8>, i: int, e: int) -> bool {
    ||| day_in(text, i) && e == i + 10
    ||| {
        &&& day_in(text, i) && clock_in(text, i + 11)
        &&& stands(text, i + 10, 'T') || stands(text, i + 10, 't') || stands(text, i + 10, ' ')
        &&& exists|z: int| #[trigger] seconds_in(text, i + 19, z) && zone_in(text, z, e)
    }
    ||| clock_in(text, i) && seconds_in(text, i + 8, e)
}

/// Letters, digits, dashes and underscores, at least one of them.
pub open spec fn ident_in(text: Seq<u8>, i: int, e: int) -> bool {
    &&& 0 <= i < e <= text.len()
    &&& forall|k: int|
        i <= k < e ==> letter(#[trigger] text[k]) || digit(text[k]) || text[k] == '-' as int
            || text[k] == '_' as int
}

/// The stretch can be a token of the given kind.
pub open spec fn word_in(kind: SyntaxKind, text: Seq<u8>, i: int, e: int) -> bool {
    match kind {
        SyntaxKind::DATE => date_in(text, i, e),
        SyntaxKind::INTEGER_HEX => hex_in(text, i, e),
        SyntaxKind::INTEGER_OCT => oct_in(text, i, e),
        SyntaxKind::INTEGER_BIN => bin_in(text, i, e),
        SyntaxKind::BOOL => bool_in(text, i, e),
        SyntaxKind::INTEGER => integer_in(text, i, e),
        SyntaxKind::FLOAT => float_in(text, i, e),
        SyntaxKind::IDENT => ident_in(text, i, e),
        _ => false,
    }
}

/// Which one of two kinds a stretch is that can be both: the lower one.
pub open spec fn rank(kind: SyntaxKind) -> int {
    match kind {
        SyntaxKind::DATE => 0,
        SyntaxKind::INTEGER_HEX => 1,
        SyntaxKind::INTEGER_OCT => 2,
        SyntaxKind::INTEGER_BIN => 3,
        SyntaxKind::BOOL => 4,
        SyntaxKind::INTEGER => 5,
        SyntaxKind::FLOAT => 6,
        SyntaxKind::IDENT => 7,
        _ => 8,
    }
}

/// An end that was found for a kind is the end of the longest stretch of it.
spec fn longest(kind: SyntaxKind, text: Seq<u8>, i: int, end: Option<int>) -> bool {
    &&& end matches Some(e) ==> i < e <= text.len() && word_in(kind, text, i, e)
    &&& forall|e: int| #[trigger]
        word_in(kind, text, i, e) ==> (end matches Some(m) && e <= m)
}

proof fn lemma_run(text: Seq<u8>, at: int, class: Class)
    requires
        0 <= at <= text.len(),
    ensures
        at <= run_end(text, at, class) <= text.len(),
        forall|k: int| at <= k < run_end(text, at, class) ==> class.has(#[trigger] text[k]),
        run_end(text, at, class) < text.len() ==> !class.has(text[run_end(text, at, class)]),
    decreases text.len() - at,
{
    if at < text.len() && class.has(text[at]) {
        lemma_run(text, at + 1, class);
    }
}

proof fn lemma_integer(text: Seq<u8>, at: int)
    requires
        0 <= at < text.len(),
    ensures
        longest(SyntaxKind::INTEGER, text, at, integer_end(text, at)),
{
    let s = sign_end(text, at);
    lemma_run(text, s, Class::NumberPart);
    lemma_run(text, at, Class::NumberPart);
    let r = run_end(text, s, Class::NumberPart);
    assert forall|e: int| #[trigger] word_in(SyntaxKind::INTEGER, text, at, e) implies e <= r && r
        > s by {
        let from = if figures_in(text, at, e) {
            at
        } else {
            at + 1
        };
        assert(figures_in(text, from, e));
        assert(digit(text[from]) || text[from] == '_' as int);
        assert(from == s);
        if r < e {
            assert(digit(text[r]) || text[r] == '_' as int);
        }
    }
}

proof fn lemma_prefixed(text: Seq<u8>, at: int)
    requires
        0 <= at < text.len(),
    ensures
        longest(
            SyntaxKind::INTEGER_HEX,
            text,
            at,
            prefixed_end(text, at, 0x78, Class::HexPart),
        ),
        longest(
            SyntaxKind::INTEGER_OCT,
            text,
            at,
            prefixed_end(text, at, 0x6f, Class::OctPart),
        ),
        longest(
            SyntaxKind::INTEGER_BIN,
            text,
            at,
            prefixed_end(text, at, 0x62, Class::BinPart),
        ),
{
    if at + 2 <= text.len() {
        lemma_run(text, at + 2, Class::HexPart);
        lemma_run(text, at + 2, Class::OctPart);
        lemma_run(text, at + 2, Class::BinPart);
    }
    assert forall|e: int| #[trigger] word_in(SyntaxKind::INTEGER_HEX, text, at, e) implies e
        <= run_end(text, at + 2, Class::HexPart) by {
        let r = run_end(text, at + 2, Class::HexPart);
        if r < e {
            assert(hex_digit(text[r]) || text[r] == '_' as int);
        }
    }
    assert forall|e: int| #[trigger] word_in(SyntaxKind::INTEGER_OCT, text, at, e) implies e
        <= run_end(text, at + 2, Class::OctPart) by {
        let r = run_end(text, at + 2, Class::OctPart);
        if r < e {
            assert(('0' as int <= text[r] && text[r] <= '7' as int) || text[r] == '_' as int);
        }
    }
    assert forall|e: int| #[trigger] word_in(SyntaxKind::INTEGER_BIN, text, at, e) implies e
        <= run_end(text, at + 2, Class::BinPart) by {
        let r = run_end(text, at + 2, Class::BinPart);
        if r < e {
            assert(text[r] == '0' as int || text[r] == '1' as int || text[r] == '_' as int);
        }
    }
}

proof fn lemma_ident(text: Seq<u8>, at: int)
    requires
        0 <= at < text.len(),
    ensures
        longest(SyntaxKind::IDENT, text, at, some_run_end(text, at, Class::IdentPart)),
{
    lemma_run(text, at, Class::IdentPart);
    let r = run_end(text, at, Class::IdentPart);
    assert forall|e: int| #[trigger] word_in(SyntaxKind::IDENT, text, at, e) implies e <= r && r
        > at by {
        if r < e {
            assert(letter(text[r]) || digit(text[r]) || text[r] == '-' as int || text[r]
                == '_' as int);
        }
        assert(letter(text[at]) || digit(text[at]) || text[at] == '-' as int || text[at]
            == '_' as int);
    }
}

proof fn lemma_bool(text: Seq<u8>, at: int)
    requires
        0 <= at < text.len(),
    ensures
        longest(SyntaxKind::BOOL, text, at, bool_end(text, at)),
{
    let yes = seq![0x74u8, 0x72u8, 0x75u8, 0x65u8];
    let no = seq![0x66u8, 0x61u8, 0x6cu8, 0x73u8, 0x65u8];
    lemma_bytes(text, at, yes);
    lemma_bytes(text, at, no);
    assert(yes[0] == 0x74 && yes[1] == 0x72 && yes[2] == 0x75 && yes[3] == 0x65);
    assert(no[0] == 0x66 && no[1] == 0x61 && no[2] == 0x6c && no[3] == 0x73 && no[4] == 0x65);
}

proof fn lemma_bytes(text: Seq<u8>, at: int, bytes: Seq<u8>)
    requires
        0 <= at,
    ensures
        bytes_at(text, at, bytes) <==> at + bytes.len() <= text.len() && forall|k: int|
            0 <= k < bytes.len() ==> text[at + k] == #[trigger] bytes[k],
{
    if at + bytes.len() <= text.len() {
        let part = text.subrange(at, at + bytes.len());
        assert forall|k: int| 0 <= k < bytes.len() implies part[k] == text[at + k] by {}
        if forall|k: int| 0 <= k < bytes.len() ==> text[at + k] == #[trigger] bytes[k] {
            assert(part =~= bytes);
        }
        if part == bytes {
            assert forall|k: int| 0 <= k < bytes.len() implies text[at + k]
                == #[trigger] bytes[k] by {
                assert(part[k] == bytes[k]);
            }
        }
    }
}

/// Where figures end, possibly with a fraction behind them.
proof fn lemma_fraction(text: Seq<u8>, p: int)
    requires
        0 <= p <= text.len(),
    ensures
        ({
            let x = fraction_end(text, p, Class::NumberPart);
            &&& p <= x <= text.len()
            &&& p == x || (stands(text, p, '.') && figures_in(text, p + 1, x))
            &&& forall|y: int| #[trigger]
                figures_in(text, p + 1, y) && stands(text, p, '.') ==> y <= x
            &&& p < x && x < text.len() ==> !digit(text[x]) && text[x] != '_' as int
        }),
{
    if p < text.len() {
        lemma_run(text, p + 1, Class::NumberPart);
        let r = run_end(text, p + 1, Class::NumberPart);
        assert forall|y: int| #[trigger]
            figures_in(text, p + 1, y) && stands(text, p, '.') implies y <= fraction_end(
            text,
            p,
            Class::NumberPart,
        ) by {
            assert(digit(text[p + 1]) || text[p + 1] == '_' as int);
            if r < y {
                assert(digit(text[r]) || text[r] == '_' as int);
            }
        }
    }
}

proof fn lemma_exponent(text: Seq<u8>, x: int)
    requires
        0 <= x <= text.len(),
    ensures
        ({
            let e = exponent_end(text, x);
            &&& x <= e <= text.len()
            &&& x == e || exponent_in(text, x, e)
            &&& forall|y: int| #[trigger] exponent_in(text, x, y) ==> y <= e
        }),
{
    if x < text.len() {
        let s = sign_end(text, x + 1);
        lemma_run(text, s, Class::NumberPart);
        let r = run_end(text, s, Class::NumberPart);
        assert forall|y: int| #[trigger] exponent_in(text, x, y) implies y <= exponent_end(
            text,
            x,
        ) by {
            let from = if figures_in(text, x + 1, y) {
                x + 1
            } else {
                x + 2
            };
            assert(figures_in(text, from, y));
            assert(digit(text[from]) || text[from] == '_' as int);
            assert(from == s);
            if r < y {
                assert(digit(text[r]) || text[r] == '_' as int);
            }
        }
    }
}

/// The end of the longest float without a sign.
spec fn unsigned_end(text: Seq<u8>, s: int) -> Option<int> {
    if bytes_at(text, s, seq![0x6eu8, 0x61u8, 0x6eu8]) || bytes_at(
        text,
        s,
        seq![0x69u8, 0x6eu8, 0x66u8],
    ) {
        Some(s + 3)
    } else if run_end(text, s, Class::NumberPart) > s {
        Some(
            exponent_end(
                text,
                fraction_end(text, run_end(text, s, Class::NumberPart), Class::NumberPart),
            ),
        )
    } else {
        None
    }
}

proof fn lemma_unsigned(text: Seq<u8>, s: int)
    requires
        0 <= s <= text.len(),
    ensures
        unsigned_end(text, s) matches Some(e) ==> s < e <= text.len() && unsigned_in(text, s, e),
        forall|y: int| #[trigger]
            unsigned_in(text, s, y) ==> (unsigned_end(text, s) matches Some(e) && y <= e),
{
    let nan = seq![0x6eu8, 0x61u8, 0x6eu8];
    let inf = seq![0x69u8, 0x6eu8, 0x66u8];
    lemma_bytes(text, s, nan);
    lemma_bytes(text, s, inf);
    assert(nan[0] == 0x6e && nan[1] == 0x61 && nan[2] == 0x6e);
    assert(inf[0] == 0x69 && inf[1] == 0x6e && inf[2] == 0x66);
    lemma_run(text, s, Class::NumberPart);
    let p = run_end(text, s, Class::NumberPart);
    lemma_fraction(text, p);
    let x = fraction_end(text, p, Class::NumberPart);
    lemma_exponent(text, x);
    lemma_exponent(text, p);
    let e = exponent_end(text, x);
    if p > s {
        assert(figures_in(text, s, p));
        assert(decimal_in(text, s, p, x, e));
    }
    assert forall|y: int| #[trigger] unsigned_in(text, s, y) implies (unsigned_end(
        text,
        s,
    ) matches Some(m) && y <= m) by {
        if spelled(text, s, y, 'n', 'a', 'n') {
            assert(bytes_at(text, s, nan));
        } else if spelled(text, s, y, 'i', 'n', 'f') {
            assert(bytes_at(text, s, inf));
        } else {
            let (q, z) = choose|q: int, z: int| #[trigger] decimal_in(text, s, q, z, y);
            assert(figures_in(text, s, q));
            assert(digit(text[s]) || text[s] == '_' as int);
            if q < p {
                assert(Class::NumberPart.has(text[q]) || q >= text.len());
                assert(z == q && y == q);
            } else {
                if p < q {
                    assert(digit(text[p]) || text[p] == '_' as int);
                }
                assert(q == p);
                if z > p {
                    assert(figures_in(text, p + 1, z));
                    if z < x {
                        assert(digit(text[z]) || text[z] == '_' as int) by {
                            assert(figures_in(text, p + 1, x));
                        }
                        assert(y == z);
                    }
                } else if y > z {
                    assert(exponent_in(text, p, y));
                    assert(x == p);
                }
            }
        }
    }
}

proof fn lemma_float(text: Seq<u8>, at: int)
    requires
        0 <= at < text.len(),
    ensures
        longest(SyntaxKind::FLOAT, text, at, float_end(text, at)),
{
    let s = sign_end(text, at);
    lemma_unsigned(text, s);
    assert(float_end(text, at) == unsigned_end(text, s));
    assert forall|e: int| #[trigger] word_in(SyntaxKind::FLOAT, text, at, e) implies (float_end(
        text,
        at,
    ) matches Some(m) && e <= m) by {
        if unsigned_in(text, at, e) {
            if exists|p: int, x: int| #[trigger] decimal_in(text, at, p, x, e) {
                let (p, x) = choose|p: int, x: int| #[trigger] decimal_in(text, at, p, x, e);
                assert(figures_in(text, at, p));
                assert(digit(text[at]) || text[at] == '_' as int);
            }
            assert(s == at);
        }
    }
}

proof fn lemma_seconds(text: Seq<u8>, i: int)
    requires
        0 <= i <= text.len(),
    ensures
        ({
            let z = fraction_end(text, i, Class::Digit);
            &&& i <= z <= text.len()
            &&& seconds_in(text, i, z)
            &&& forall|y: int| #[trigger] seconds_in(text, i, y) ==> y <= z
            &&& i < z && z < text.len() ==> !digit(text[z])
        }),
{
    if i < text.len() {
        lemma_run(text, i + 1, Class::Digit);
        let r = run_end(text, i + 1, Class::Digit);
        assert forall|y: int| #[trigger] seconds_in(text, i, y) implies y <= fraction_end(
            text,
            i,
            Class::Digit,
        ) by {
            if y != i {
                assert(digits_in(text, i + 1, y));
                assert(digit(text[i + 1]));
                if r < y {
                    assert(digit(text[r]));
                }
            }
        }
    }
}

proof fn lemma_two(text: Seq<u8>, i: int)
    requires
        0 <= i,
    ensures
        two_in(text, i) == two_digits_at(text, i),
{
    if two_in(text, i) {
        assert(digit(text[i]) && digit(text[i + 1]));
    }
}

proof fn lemma_day_and_clock(text: Seq<u8>, i: int)
    requires
        0 <= i,
    ensures
        day_in(text, i) == full_date_at(text, i),
        clock_in(text, i) == full_time_at(text, i),
{
    lemma_two(text, i);
    lemma_two(text, i + 2);
    lemma_two(text, i + 3);
    lemma_two(text, i + 5);
    lemma_two(text, i + 6);
    lemma_two(text, i + 8);
    if digits_in(text, i, i + 4) {
        assert(digit(text[i]) && digit(text[i + 1]) && digit(text[i + 2]) && digit(text[i + 3]));
    }
    if two_digits_at(text, i) && two_digits_at(text, i + 2) {
        assert forall|k: int| i <= k < i + 4 implies digit(#[trigger] text[k]) by {
            assert(k == i || k == i + 1 || k == i + 2 || k == i + 3);
        }
    }
}

proof fn lemma_zone(text: Seq<u8>, z: int)
    requires
        0 <= z <= text.len(),
    ensures
        zone_in(text, z, offset_end(text, z)),
        z <= offset_end(text, z) <= text.len(),
        forall|e: int| #[trigger] zone_in(text, z, e) ==> e <= offset_end(text, z),
        offset_end(text, z) > z ==> text[z] == 'Z' as int || text[z] == 'z' as int || signed(
            text,
            z,
        ),
{
    lemma_two(text, z + 1);
    lemma_two(text, z + 4);
}

proof fn lemma_date(text: Seq<u8>, at: int)
    requires
        0 <= at < text.len(),
    ensures
        longest(SyntaxKind::DATE, text, at, date_end(text, at)),
{
    lemma_day_and_clock(text, at);
    lemma_day_and_clock(text, at + 11);
    if full_date_at(text, at) {
        assert(digit(text[at + 2])) by {
            assert(digits_in(text, at, at + 4));
        }
        assert(!clock_in(text, at));
        if full_time_at(text, at + 11) {
            lemma_seconds(text, at + 19);
            let z = fraction_end(text, at + 19, Class::Digit);
            lemma_zone(text, z);
            assert forall|y: int, e: int| #[trigger]
                seconds_in(text, at + 19, y) && #[trigger] zone_in(text, y, e) implies e
                <= offset_end(text, z) by {
                if y < z {
                    if y == at + 19 {
                        assert(stands(text, y, '.'));
                    } else {
                        assert(digits_in(text, at + 20, z));
                        assert(digit(text[y]));
                    }
                    assert(e == y);
                }
            }
        }
    } else if full_time_at(text, at) {
        lemma_seconds(text, at + 8);
    }
}

/// A token that starts with none of the bytes for blanks, line breaks,
/// comments, punctuation and quotes is the longest stretch that looks like a
/// date, a number, a truth value or an identifier, and of the first of these
/// kinds that fits. Where nothing looks like one, there is no such token.
pub proof fn words_are_longest(text: Seq<u8>, at: int)
    requires
        0 <= at < text.len(),
    ensures
        ({
            let (kind, end) = word_at(text, at);
            &&& at <= end <= text.len()
            &&& end > at ==> word_in(kind, text, at, end)
            &&& end == at ==> kind == SyntaxKind::ERROR
            &&& forall|k: SyntaxKind, e: int| #[trigger]
                word_in(k, text, at, e) ==> at < e && (e < end || (e == end && rank(kind)
                    <= rank(k)))
        }),
{
    lemma_date(text, at);
    lemma_prefixed(text, at);
    lemma_bool(text, at);
    lemma_integer(text, at);
    lemma_float(text, at);
    lemma_ident(text, at);
    let (kind, end) = word_at(text, at);
    assert forall|k: SyntaxKind, e: int| #[trigger] word_in(k, text, at, e) implies at < e && (e
        < end || (e == end && rank(kind) <= rank(k))) by {
        lemma_word_not_empty(k, text, at, e);
        assert(longest(SyntaxKind::DATE, text, at, date_end(text, at)));
    }
}

proof fn lemma_word_not_empty(kind: SyntaxKind, text: Seq<u8>, i: int, e: int)
    requires
        0 <= i,
        word_in(kind, text, i, e),
    ensures
        i < e,
{
    if kind == SyntaxKind::FLOAT {
        let s = if unsigned_in(text, i, e) {
            i
        } else {
            i + 1
        };
        if exists|p: int, x: int| #[trigger] decimal_in(text, s, p, x, e) {
            let (p, x) = choose|p: int, x: int| #[trigger] decimal_in(text, s, p, x, e);
            assert(figures_in(text, s, p));
        }
    } else if kind == SyntaxKind::DATE {
        if !(day_in(text, i) && e == i + 10) && !(clock_in(text, i) && seconds_in(text, i + 8, e)) {
            let z = choose|z: int| #[trigger] seconds_in(text, i + 19, z) && zone_in(text, z, e);
            assert(z >= i + 19);
        }
    }
}

/// A blank.
pub open spec fn blank_at(text: Seq<u8>, i: int) -> bool {
    stands(text, i, ' ') || stands(text, i, '\t')
}

/// A line breaks: a line feed, possibly with a carriage return in front.
pub open spec fn break_at(text: Seq<u8>, i: int) -> bool {
    stands(text, i, '\n') || (stands(text, i, '\r') && stands(text, i + 1, '\n'))
}

/// Blanks, up to where none stands any more.
pub open spec fn blanks_in(text: Seq<u8>, i: int, e: int) -> bool {
    i < e && !blank_at(text, e) && forall|k: int| i <= k < e ==> #[trigger] blank_at(text, k)
}

/// A line breaks, and that is over before `e`.
pub open spec fn break_before(text: Seq<u8>, k: int, e: int) -> bool {
    break_at(text, k) && (stands(text, k, '\r') ==> k + 1 < e)
}

/// Line breaks, up to where no line breaks any more.
pub open spec fn breaks_in(text: Seq<u8>, i: int, e: int) -> bool {
    &&& i < e && !break_at(text, e)
    &&& forall|k: int| i <= k < e ==> #[trigger] break_before(text, k, e)
}

/// Up to the end of the line, or of the text.
pub open spec fn rest_of_line_in(text: Seq<u8>, i: int, e: int) -> bool {
    &&& i < e <= text.len()
    &&& forall|k: int| i <= k < e ==> !stands(text, k, '\n') && !#[trigger] stands(text, k, '\r')
    &&& e == text.len() || stands(text, e, '\n') || stands(text, e, '\r')
}

/// A byte is escaped in a string whose content starts at `from`: a backslash
/// stands in front of it that is not escaped itself.
pub open spec fn escaped(text: Seq<u8>, from: int, k: int) -> bool
    decreases k - from,
{
    k > from && stands(text, k - 1, '\\') && !escaped(text, from, k - 1)
}

/// A string on one line: from a quote to the first one behind it that is not
/// escaped.
pub open spec fn string_in(text: Seq<u8>, i: int, e: int) -> bool {
    &&& i + 1 < e <= text.len() && stands(text, i, '"')
    &&& stands(text, e - 1, '"') && !escaped(text, i + 1, e - 1)
    &&& forall|k: int|
        i < k < e - 1 ==> !#[trigger] stands(text, k, '\n') && (stands(text, k, '"') ==> escaped(
            text,
            i + 1,
            k,
        ))
}

/// A literal string on one line: from an apostrophe to the first one behind it.
pub open spec fn literal_in(text: Seq<u8>, i: int, e: int) -> bool {
    &&& i + 1 < e <= text.len() && stands(text, i, '\'')
    &&& stands(text, e - 1, '\'')
    &&& forall|k: int|
        i < k < e - 1 ==> !#[trigger] stands(text, k, '\n') && !stands(text, k, '\'')
}

/// Three quotes in a row, of which the first one is not escaped.
pub open spec fn triple_at(text: Seq<u8>, from: int, c: int, quote: char, escapes: bool) -> bool {
    &&& stands(text, c, quote) && stands(text, c + 1, quote) && stands(text, c + 2, quote)
    &&& escapes ==> !escaped(text, from, c)
}

/// The first three quotes in a row stand at `c`, and what ends there are these
/// and the one or two quotes that may follow immediately, but no third one.
pub open spec fn closed_at(
    text: Seq<u8>,
    from: int,
    c: int,
    e: int,
    quote: char,
    escapes: bool,
) -> bool {
    &&& from <= c && triple_at(text, from, c, quote, escapes)
    &&& forall|d: int| from <= d < c ==> !#[trigger] triple_at(text, from, d, quote, escapes)
    &&& c + 3 <= e <= c + 5
    &&& forall|k: int| c <= k < e ==> #[trigger] stands(text, k, quote)
    &&& !stands(text, e, quote)
}

/// What starts at `from` is closed, and ends at `e`.
pub open spec fn closes(text: Seq<u8>, from: int, e: int, quote: char, escapes: bool) -> bool {
    exists|c: int| #[trigger] closed_at(text, from, c, e, quote, escapes)
}

/// A string over several lines, between three quotes each.
pub open spec fn multi_line_in(text: Seq<u8>, i: int, e: int, quote: char, escapes: bool) -> bool {
    closes(text, i + 3, e, quote, escapes)
}

/// The kind of a token that is one byte of punctuation.
pub open spec fn punctuation(text: Seq<u8>, i: int) -> Option<SyntaxKind> {
    if stands(text, i, '.') {
        Some(SyntaxKind::PERIOD)
    } else if stands(text, i, ',') {
        Some(SyntaxKind::COMMA)
    } else if stands(text, i, '=') {
        Some(SyntaxKind::EQ)
    } else if stands(text, i, '[') {
        Some(SyntaxKind::BRACKET_START)
    } else if stands(text, i, ']') {
        Some(SyntaxKind::BRACKET_END)
    } else if stands(text, i, '{') {
        Some(SyntaxKind::BRACE_START)
    } else if stands(text, i, '}') {
        Some(SyntaxKind::BRACE_END)
    } else {
        None
    }
}

/// A token in quotes, or the opening quotes as an error where nothing closes them.
pub open spec fn quoted_in(
    text: Seq<u8>,
    i: int,
    e: int,
    kind: SyntaxKind,
    quote: char,
    escapes: bool,
    single: SyntaxKind,
    triple: SyntaxKind,
) -> bool {
    if stands(text, i + 1, quote) && stands(text, i + 2, quote) {
        if kind == SyntaxKind::ERROR {
            e == i + 3 && forall|y: int| !#[trigger] multi_line_in(text, i, y, quote, escapes)
        } else {
            kind == triple && multi_line_in(text, i, e, quote, escapes)
        }
    } else if escapes {
        if kind == SyntaxKind::ERROR {
            e == i + 1 && forall|y: int| !#[trigger] string_in(text, i, y)
        } else {
            kind == single && string_in(text, i, e)
        }
    } else {
        if kind == SyntaxKind::ERROR {
            e == i + 1 && forall|y: int| !#[trigger] literal_in(text, i, y)
        } else {
            kind == single && literal_in(text, i, e)
        }
    }
}

/// The longest stretch that looks like a word, or one character as an error
/// where nothing does.
pub open spec fn longest_word_in(text: Seq<u8>, i: int, e: int, kind: SyntaxKind) -> bool {
    if kind == SyntaxKind::ERROR {
        &&& forall|k: SyntaxKind, y: int| !#[trigger] word_in(k, text, i, y)
        &&& e == i + length_of_first_scalar(text.subrange(i, text.len() as int))
    } else {
        &&& word_in(kind, text, i, e)
        &&& forall|k: SyntaxKind, y: int| #[trigger]
            word_in(k, text, i, y) ==> y < e || (y == e && rank(kind) <= rank(k))
    }
}

/// The stretch from `i` to `e` is the token of the given kind that TOML has
/// at `i`.
pub open spec fn token_in(text: Seq<u8>, i: int, e: int, kind: SyntaxKind) -> bool {
    if blank_at(text, i) {
        kind == SyntaxKind::WHITESPACE && blanks_in(text, i, e)
    } else if break_at(text, i) {
        kind == SyntaxKind::NEWLINE && breaks_in(text, i, e)
    } else if stands(text, i, '#') {
        kind == SyntaxKind::COMMENT && rest_of_line_in(text, i, e)
    } else if punctuation(text, i) is Some {
        kind == punctuation(text, i)->0 && e == i + 1
    } else if stands(text, i, '"') {
        quoted_in(text, i, e, kind, '"', true, SyntaxKind::STRING, SyntaxKind::MULTI_LINE_STRING)
    } else if stands(text, i, '\'') {
        quoted_in(
            text,
            i,
            e,
            kind,
            '\'',
            false,
            SyntaxKind::STRING_LITERAL,
            SyntaxKind::MULTI_LINE_STRING_LITERAL,
        )
    } else {
        longest_word_in(text, i, e, kind)
    }
}

proof fn lemma_string(text: Seq<u8>, from: int, k: int, esc: bool)
    requires
        1 <= from <= k,
        esc == escaped(text, from, k),
    ensures
        string_end(text, k, esc) matches Some(e) ==> {
            &&& k < e <= text.len() && stands(text, e - 1, '"') && !escaped(text, from, e - 1)
            &&& forall|j: int|
                k <= j < e - 1 ==> !#[trigger] stands(text, j, '\n') && (stands(text, j, '"')
                    ==> escaped(text, from, j))
        },
        string_end(text, k, esc) is None ==> forall|q: int|
            k <= q && #[trigger] stands(text, q, '"') && !escaped(text, from, q) ==> exists|j: int|
                k <= j < q && #[trigger] stands(text, j, '\n'),
    decreases text.len() - k,
{
    if k < text.len() {
        if text[k] == 0x0a {
            assert(stands(text, k, '\n'));
        } else if !(text[k] == 0x22 && !esc) {
            let next = text[k] == 0x5c && !esc;
            assert(next == escaped(text, from, k + 1));
            lemma_string(text, from, k + 1, next);
        }
    }
}

proof fn lemma_literal(text: Seq<u8>, k: int)
    requires
        0 <= k,
    ensures
        literal_end(text, k) matches Some(e) ==> {
            &&& k < e <= text.len() && stands(text, e - 1, '\'')
            &&& forall|j: int|
                k <= j < e - 1 ==> !#[trigger] stands(text, j, '\n') && !stands(text, j, '\'')
        },
        literal_end(text, k) is None ==> forall|q: int|
            k <= q && #[trigger] stands(text, q, '\'') ==> exists|j: int|
                k <= j < q && #[trigger] stands(text, j, '\n'),
    decreases text.len() - k,
{
    if k < text.len() {
        if text[k] == 0x0a {
            assert(stands(text, k, '\n'));
        } else if text[k] != 0x27 {
            lemma_literal(text, k + 1);
        }
    }
}

/// A class of bytes is that of a quote.
spec fn is_quote(class: Class, quote: char) -> bool {
    (class == Class::Quote && quote == '"') || (class == Class::Apostrophe && quote == '\'')
}

proof fn lemma_multi_line(
    text: Seq<u8>,
    from: int,
    k: int,
    class: Class,
    quote: char,
    escapes: bool,
    esc: bool,
    quotes: int,
)
    requires
        is_quote(class, quote),
        esc == (escapes && escaped(text, from, k)),
        0 <= from <= k - quotes,
        k <= text.len(),
        0 <= quotes <= 2,
        forall|j: int| k - quotes <= j < k ==> #[trigger] stands(text, j, quote),
        quotes > 0 && escapes ==> !escaped(text, from, k - quotes),
        forall|d: int|
            from <= d < k - quotes ==> !#[trigger] triple_at(text, from, d, quote, escapes),
    ensures
        multi_line_end(text, k, class, escapes, esc, quotes) matches Some(e) ==> closes(
            text,
            from,
            e,
            quote,
            escapes,
        ),
        multi_line_end(text, k, class, escapes, esc, quotes) is None ==> forall|c: int, e: int|
            !#[trigger] closed_at(text, from, c, e, quote, escapes),
    decreases text.len() - k,
{
    let start = k - quotes;
    if k >= text.len() {
        assert forall|c: int, e: int| !#[trigger] closed_at(text, from, c, e, quote, escapes) by {
            if closed_at(text, from, c, e, quote, escapes) {
                assert(triple_at(text, from, c, quote, escapes));
            }
        }
    } else if class.has(text[k]) && !esc {
        if quotes >= 2 {
            lemma_run(text, k + 1, class);
            let end = run_end(text, k + 1, class);
            assert(stands(text, start, quote) && stands(text, start + 1, quote));
            assert(triple_at(text, from, start, quote, escapes));
            assert forall|j: int| start <= j < end implies #[trigger] stands(text, j, quote) by {
                if j > k {
                    assert(class.has(text[j]));
                }
            }
            if end - k <= 3 {
                assert(closed_at(text, from, start, end, quote, escapes));
                assert(closes(text, from, end, quote, escapes));
            } else {
                assert forall|c: int, e: int| !#[trigger]
                    closed_at(text, from, c, e, quote, escapes) by {
                    if closed_at(text, from, c, e, quote, escapes) {
                        assert(c == start);
                        assert(stands(text, e, quote));
                    }
                }
            }
        } else {
            assert forall|j: int| start <= j < k + 1 implies #[trigger] stands(text, j, quote) by {}
            assert(!escaped(text, from, k + 1)) by {
                assert(text[k] != 0x5c);
            }
            lemma_multi_line(text, from, k + 1, class, quote, escapes, false, quotes + 1);
        }
    } else {
        assert forall|d: int| from <= d < k + 1 implies !#[trigger] triple_at(
            text,
            from,
            d,
            quote,
            escapes,
        ) by {
            if d >= start && triple_at(text, from, d, quote, escapes) {
                assert(stands(text, d, quote) && stands(text, d + 1, quote) && stands(
                    text,
                    d + 2,
                    quote,
                ));
                assert(stands(text, k, quote));
                assert(esc);
                assert(stands(text, k - 1, '\\'));
                assert(d < k);
                assert(stands(text, k - 1, quote));
            }
        }
        let next = escapes && text[k] == 0x5c && !esc;
        assert(next == (escapes && escaped(text, from, k + 1)));
        if next {
            lemma_multi_line(text, from, k + 1, class, quote, escapes, true, 0);
        } else {
            lemma_multi_line(text, from, k + 1, class, quote, escapes, false, 0);
        }
    }
}

proof fn lemma_newlines(text: Seq<u8>, i: int)
    requires
        0 <= i <= text.len(),
    ensures
        i <= newlines_end(text, i) <= text.len(),
        newlines_end(text, i) > i <==> break_at(text, i),
        !break_at(text, newlines_end(text, i)),
        forall|k: int|
            i <= k < newlines_end(text, i) ==> #[trigger] break_before(
                text,
                k,
                newlines_end(text, i),
            ),
    decreases text.len() - i,
{
    if byte_at(text, i, 0x0a) {
        lemma_newlines(text, i + 1);
    } else if byte_at(text, i, 0x0d) && byte_at(text, i + 1, 0x0a) {
        lemma_newlines(text, i + 2);
    }
}

proof fn lemma_quoted(text: Seq<u8>, i: int, class: Class, quote: char, escapes: bool)
    requires
        0 <= i < text.len(),
        is_quote(class, quote),
        escapes == (class == Class::Quote),
        stands(text, i, quote),
    ensures
        quoted_in(
            text,
            i,
            lexeme_at(text, i).1,
            lexeme_at(text, i).0,
            quote,
            escapes,
            if escapes {
                SyntaxKind::STRING
            } else {
                SyntaxKind::STRING_LITERAL
            },
            if escapes {
                SyntaxKind::MULTI_LINE_STRING
            } else {
                SyntaxKind::MULTI_LINE_STRING_LITERAL
            },
        ),
{
    lemma_newlines(text, i);
    if stands(text, i + 1, quote) && stands(text, i + 2, quote) {
        lemma_multi_line(text, i + 3, i + 3, class, quote, escapes, false, 0);
        let end = multi_line_end(text, i + 3, class, escapes, false, 0);
        if end is None {
            assert forall|y: int| !#[trigger] multi_line_in(text, i, y, quote, escapes) by {
                if multi_line_in(text, i, y, quote, escapes) {
                    let c = choose|c: int| #[trigger] closed_at(text, i + 3, c, y, quote, escapes);
                    assert(closed_at(text, i + 3, c, y, quote, escapes));
                }
            }
        } else {
            assert(multi_line_in(text, i, end->0, quote, escapes));
        }
    } else if escapes {
        lemma_string(text, i + 1, i + 1, false);
        if string_end(text, i + 1, false) is None {
            assert forall|y: int| !#[trigger] string_in(text, i, y) by {
                if string_in(text, i, y) {
                    assert(stands(text, y - 1, '"'));
                }
            }
        }
    } else {
        lemma_literal(text, i + 1);
        if literal_end(text, i + 1) is None {
            assert forall|y: int| !#[trigger] literal_in(text, i, y) by {
                if literal_in(text, i, y) {
                    assert(stands(text, y - 1, '\''));
                }
            }
        }
    }
}

/// What is found at an offset is the token that TOML has there.
pub proof fn tokens_are_those_of_toml(text: Seq<u8>, i: int)
    requires
        0 <= i < text.len(),
    ensures
        token_in(text, i, lexeme_at(text, i).1, lexeme_at(text, i).0),
{
    lemma_newlines(text, i);
    let (kind, end) = lexeme_at(text, i);
    if blank_at(text, i) {
        lemma_run(text, i, Class::Blank);
        assert forall|k: int| i <= k < end implies #[trigger] blank_at(text, k) by {
            assert(Class::Blank.has(text[k]));
        }
        assert(blanks_in(text, i, end));
    } else if break_at(text, i) {
        assert(end == newlines_end(text, i));
        assert(breaks_in(text, i, end));
    } else if stands(text, i, '#') {
        lemma_run(text, i, Class::InLine);
        assert forall|k: int| i <= k < end implies !stands(text, k, '\n') && !#[trigger] stands(
            text,
            k,
            '\r',
        ) by {
            assert(Class::InLine.has(text[k]));
        }
        assert(rest_of_line_in(text, i, end));
    } else if stands(text, i, '"') {
        lemma_quoted(text, i, Class::Quote, '"', true);
    } else if stands(text, i, '\'') {
        lemma_quoted(text, i, Class::Apostrophe, '\'', false);
    } else if punctuation(text, i) is None {
        words_are_longest(text, i);
        let (k0, e0) = word_at(text, i);
        if e0 == i {
            assert forall|k: SyntaxKind, y: int| !#[trigger] word_in(k, text, i, y) by {
                if word_in(k, text, i, y) {
                    assert(i < y && y <= e0);
                }
            }
        } else {
            assert(word_in(k0, text, i, e0));
            assert(k0 != SyntaxKind::ERROR);
        }
        assert(longest_word_in(text, i, end, kind));
    }
}

/// A bare key: letters, digits, dashes and underscores that start with a
/// letter, are no truth value and no name of a float, and that nothing of this
/// kind follows, are one token, an identifier.
pub proof fn bare_keys_are_identifiers(text: Seq<u8>, i: int, e: int)
    requires
        ident_in(text, i, e),
        !ident_in(text, i, e + 1),
        letter(text[i]),
        !bool_in(text, i, e),
        !spelled(text, i, e, 'n', 'a', 'n'),
        !spelled(text, i, e, 'i', 'n', 'f'),
    ensures
        lexeme_at(text, i) == (SyntaxKind::IDENT, e),
{
    tokens_are_those_of_toml(text, i);
    words_are_longest(text, i);
    lemma_ident(text, i);
    assert(word_in(SyntaxKind::IDENT, text, i, e));
    let (kind, end) = word_at(text, i);
    if end > e {
        assert(word_in(kind, text, i, end));
        assert(kind != SyntaxKind::IDENT) by {
            if ident_in(text, i, end) {
                assert forall|k: int| i <= k < e + 1 implies letter(#[trigger] text[k]) || digit(
                    text[k],
                ) || text[k] == '-' as int || text[k] == '_' as int by {}
            }
        }
    }
    assert(kind == SyntaxKind::IDENT && end == e) by {
        lemma_letter_word(kind, text, i, end, e);
    }
}

proof fn lemma_letter_word(kind: SyntaxKind, text: Seq<u8>, i: int, end: int, e: int)
    requires
        word_in(kind, text, i, end),
        ident_in(text, i, e),
        !ident_in(text, i, e + 1),
        letter(text[i]),
        e <= end <= text.len(),
        !bool_in(text, i, e),
        !spelled(text, i, e, 'n', 'a', 'n'),
        !spelled(text, i, e, 'i', 'n', 'f'),
    ensures
        kind == SyntaxKind::IDENT && end == e,
{
    if kind == SyntaxKind::IDENT {
        if end > e {
            assert forall|k: int| i <= k < e + 1 implies letter(#[trigger] text[k]) || digit(
                text[k],
            ) || text[k] == '-' as int || text[k] == '_' as int by {}
        }
    } else if kind == SyntaxKind::FLOAT {
        if exists|p: int, x: int| #[trigger] decimal_in(text, i, p, x, end) {
            let (p, x) = choose|p: int, x: int| #[trigger] decimal_in(text, i, p, x, end);
            assert(figures_in(text, i, p));
            assert(digit(text[i]) || text[i] == '_' as int);
        }
        assert(end == i + 3);
        lemma_stretch(text, i, e, end);
    } else if kind == SyntaxKind::BOOL {
        lemma_stretch(text, i, e, end);
    } else if kind == SyntaxKind::INTEGER {
        if figures_in(text, i, end) {
            assert(digit(text[i]) || text[i] == '_' as int);
        }
    } else if kind == SyntaxKind::DATE {
        if digits_in(text, i, i + 4) {
            assert(digit(text[i]));
        }
        if digits_in(text, i, i + 2) {
            assert(digit(text[i]));
        }
    }
}

/// A stretch of letters is no longer than the bare key it starts.
proof fn lemma_stretch(text: Seq<u8>, i: int, e: int, end: int)
    requires
        ident_in(text, i, e),
        !ident_in(text, i, e + 1),
        e <= end <= text.len(),
        forall|k: int| i <= k < end ==> letter(#[trigger] text[k]),
    ensures
        end == e,
{
    if end > e {
        assert forall|k: int| i <= k < e + 1 implies letter(#[trigger] text[k]) || digit(text[k])
            || text[k] == '-' as int || text[k] == '_' as int by {}
    }
}

/// Every one of the tokens is the one that TOML has where it starts.
pub open spec fn all_tokens_in(lexemes: Seq<Lexeme>, text: Seq<u8>) -> bool {
    forall|n: int| 0 <= n < lexemes.len() ==> #[trigger] is_token(lexemes[n], text)
}

/// A token is the one that TOML has where it starts.
pub open spec fn is_token(lexeme: Lexeme, text: Seq<u8>) -> bool {
    token_in(text, lexeme.start as int, lexeme.end as int, lexeme.kind)
}

} // verus!
