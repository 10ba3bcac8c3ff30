//! Escape sequences in strings.

use vstd::prelude::*;
use vstd::string::StringSliceAdditionalSpecFns;

use super::reports;
use super::underscores::{lemma_writes, writes};
use crate::rules::{escapes_well, valid_texts_have_escapes};

verus! {

/// The value of a hexadecimal digit.
pub open spec fn hex_value(byte: u8) -> Option<int> {
    if 0x30 <= byte <= 0x39 {
        Some(byte - 0x30)
    } else if 0x41 <= byte <= 0x46 {
        Some(byte - 0x41 + 10)
    } else if 0x61 <= byte <= 0x66 {
        Some(byte - 0x61 + 10)
    } else {
        None
    }
}

/// The number that the four hexadecimal digits from an offset on stand for.
pub open spec fn hex4_value(text: Seq<u8>, at: int) -> Option<int> {
    if at + 4 <= text.len() {
        match (
            hex_value(text[at]),
            hex_value(text[at + 1]),
            hex_value(text[at + 2]),
            hex_value(text[at + 3]),
        ) {
            (Some(a), Some(b), Some(c), Some(d)) => Some(a * 4096 + b * 256 + c * 16 + d),
            _ => None,
        }
    } else {
        None
    }
}

/// The number is that of a Unicode character.
pub open spec fn is_scalar_value(n: int) -> bool {
    0 <= n < 0xd800 || 0xe000 <= n <= 0x10ffff
}

/// The first offset, from the given one on, at which no blank stands.
pub open spec fn after_blanks(text: Seq<u8>, at: int) -> int
    decreases text.len() - at,
{
    if at < text.len() && (text[at] == 0x20 || text[at] == 0x09) {
        after_blanks(text, at + 1)
    } else {
        at
    }
}

/// The length of the escape sequence that a backslash at an offset starts,
/// where it is one that strings may hold.
pub open spec fn escape_len(text: Seq<u8>, at: int) -> Option<int> {
    if at + 1 >= text.len() {
        None
    } else {
        let c = text[at + 1];
        let newline = after_blanks(text, at + 1);
        if c == 0x62 || c == 0x74 || c == 0x6e || c == 0x66 || c == 0x72 || c == 0x22 || c
            == 0x5c {
            Some(2)
        } else if c == 0x75 {
            match hex4_value(text, at + 2) {
                Some(n) if is_scalar_value(n) => Some(6),
                _ => None,
            }
        } else if c == 0x55 {
            match (hex4_value(text, at + 2), hex4_value(text, at + 6)) {
                (Some(high), Some(low)) if is_scalar_value(high * 0x10000 + low) => Some(10),
                _ => None,
            }
        } else if newline < text.len() && text[newline] == 0x0a {
            Some(newline + 1 - at)
        } else if newline + 1 < text.len() && text[newline] == 0x0d && text[newline + 1] == 0x0a {
            Some(newline + 2 - at)
        } else {
            None
        }
    }
}

/// The offsets, from the given one on, of the backslashes that start no
/// escape sequence that strings may hold.
pub open spec fn escape_errors(text: Seq<u8>, at: int) -> Seq<int>
    decreases text.len() - at,
{
    if at >= text.len() {
        Seq::empty()
    } else if text[at] != 0x5c {
        escape_errors(text, at + 1)
    } else {
        match escape_len(text, at) {
            Some(n) if n > 0 => escape_errors(text, at + n),
            _ => seq![at] + escape_errors(text, at + 1),
        }
    }
}

/// Every offset that is reported lies in the text.
pub proof fn lemma_escape_errors_in_text(text: Seq<u8>, at: int)
    requires
        0 <= at,
    ensures
        forall|i: int|
            0 <= i < escape_errors(text, at).len() ==> 0 <= #[trigger] escape_errors(text, at)[i]
                < text.len(),
    decreases text.len() - at,
{
    if at >= text.len() {
    } else if text[at] != 0x5c {
        lemma_escape_errors_in_text(text, at + 1);
        assert(escape_errors(text, at) == escape_errors(text, at + 1));
    } else {
        let n = escape_len(text, at);
        if n is Some && n->0 > 0 {
            lemma_escape_errors_in_text(text, at + n->0);
            assert(escape_errors(text, at) == escape_errors(text, at + n->0));
        } else {
            lemma_escape_errors_in_text(text, at + 1);
            let rest = escape_errors(text, at + 1);
            assert(escape_errors(text, at) == seq![at] + rest);
            assert forall|i: int| 0 <= i < escape_errors(text, at).len() implies 0
                <= #[trigger] escape_errors(text, at)[i] < text.len() by {
                if i > 0 {
                    assert(0 <= rest[i - 1] < text.len());
                }
            }
        }
    }
}

fn hex_digit(byte: u8) -> (value: Option<u32>)
    ensures
        value is Some == hex_value(byte) is Some,
        value matches Some(v) ==> v == hex_value(byte)->0 && v < 16,
{
    if 0x30 <= byte && byte <= 0x39 {
        Some((byte - 0x30) as u32)
    } else if 0x41 <= byte && byte <= 0x46 {
        Some((byte - 0x41 + 10) as u32)
    } else if 0x61 <= byte && byte <= 0x66 {
        Some((byte - 0x61 + 10) as u32)
    } else {
        None
    }
}

fn hex4(bytes: &[u8], at: usize) -> (value: Option<u32>)
    requires
        at <= bytes@.len(),
    ensures
        value is Some == hex4_value(bytes@, at as int) is Some,
        value matches Some(v) ==> v == hex4_value(bytes@, at as int)->0 && v < 0x10000,
{
    if bytes.len() - at < 4 {
        return None;
    }
    match (
        hex_digit(bytes[at]),
        hex_digit(bytes[at + 1]),
        hex_digit(bytes[at + 2]),
        hex_digit(bytes[at + 3]),
    ) {
        (Some(a), Some(b), Some(c), Some(d)) => Some(a * 4096 + b * 256 + c * 16 + d),
        _ => None,
    }
}

/// The length of the escape sequence at a backslash.
fn escape_sequence(bytes: &[u8], at: usize) -> (len: Option<usize>)
    requires
        at < bytes@.len(),
    ensures
        len is Some == escape_len(bytes@, at as int) is Some,
        len matches Some(n) ==> n == escape_len(bytes@, at as int)->0 && 0 < n && at + n
            <= bytes@.len(),
{
    if bytes.len() - at < 2 {
        return None;
    }
    let c = bytes[at + 1];
    if c == 0x62 || c == 0x74 || c == 0x6e || c == 0x66 || c == 0x72 || c == 0x22 || c == 0x5c {
        return Some(2);
    }
    if c == 0x75 {
        return match hex4(bytes, at + 2) {
            Some(n) => if n < 0xd800 || 0xe000 <= n {
                Some(6)
            } else {
                None
            },
            None => None,
        };
    }
    if c == 0x55 {
        let high = hex4(bytes, at + 2);
        if bytes.len() - at < 6 {
            return None;
        }
        return match (high, hex4(bytes, at + 6)) {
            (Some(high), Some(low)) => {
                let n: u32 = high * 0x10000 + low;
                if n < 0xd800 || (0xe000 <= n && n <= 0x10ffff) {
                    Some(10)
                } else {
                    None
                }
            },
            _ => None,
        };
    }
    let mut newline: usize = at + 1;
    while newline < bytes.len() && (bytes[newline] == 0x20 || bytes[newline] == 0x09)
        invariant
            at < newline <= bytes@.len(),
            after_blanks(bytes@, newline as int) == after_blanks(bytes@, at + 1),
        decreases bytes.len() - newline,
    {
        newline = newline + 1;
    }
    if newline < bytes.len() && bytes[newline] == 0x0a {
        Some(newline - at + 1)
    } else if newline < bytes.len() && bytes.len() - newline > 1 && bytes[newline] == 0x0d
        && bytes[newline + 1] == 0x0a {
        Some(newline - at + 2)
    } else {
        None
    }
}

/// Looks for escape sequences that strings may not hold.
pub fn check_escape(s: &str) -> (outcome: Result<(), Vec<usize>>)
    ensures
        reports(outcome, escape_errors(s.spec_bytes(), 0)),
        outcome is Ok <==> escapes_well(s.spec_bytes(), 0),
{
    proof {
        valid_texts_have_escapes(s.spec_bytes(), 0);
    }
    let bytes = s.as_bytes();
    let mut invalid: Vec<usize> = Vec::new();
    let mut i: usize = 0;
    let ghost all = escape_errors(bytes@, 0);
    while i < bytes.len()
        invariant
            i <= bytes@.len(),
            all.len() == invalid@.len() + escape_errors(bytes@, i as int).len(),
            forall|j: int| 0 <= j < invalid@.len() ==> #[trigger] invalid@[j] == all[j],
            escape_errors(bytes@, i as int) == all.skip(invalid@.len() as int),
        decreases bytes.len() - i,
    {
        if bytes[i] != 0x5c {
            i = i + 1;
        } else {
            match escape_sequence(bytes, i) {
                Some(n) => {
                    i = i + n;
                },
                None => {
                    let ghost rest = escape_errors(bytes@, i as int);
                    assert(rest == seq![i as int] + escape_errors(bytes@, i + 1));
                    assert(all[invalid@.len() as int] == rest[0]);
                    let ghost n = invalid@.len() as int;
                    assert(escape_errors(bytes@, i + 1) =~= rest.skip(1));
                    assert(rest.skip(1) =~= all.skip(n + 1));
                    invalid.push(i);
                    i = i + 1;
                },
            }
        }
    }
    if invalid.len() == 0 {
        Ok(())
    } else {
        Err(invalid)
    }
}

/// A hexadecimal digit, and the number it writes.
pub open spec fn writes_hex(byte: u8, d: int) -> bool {
    0 <= d < 16 && writes(byte as char, d) && byte < 0x80
}

/// Hexadecimal digits that write a number, with the highest digit first.
pub open spec fn hex_writes(t: Seq<u8>, n: int) -> bool
    decreases t.len(),
{
    if t.len() == 0 {
        n == 0
    } else {
        writes_hex(t.last(), n % 16) && hex_writes(t.drop_last(), n / 16)
    }
}

/// Hexadecimal digits that write the number of a Unicode character.
pub open spec fn writes_char(t: Seq<u8>) -> bool {
    exists|n: int| #[trigger]
        hex_writes(t, n) && (0 <= n <= 0xd7ff || 0xe000 <= n <= 0x10ffff)
}

/// A backslash and the letter or sign of a character.
pub open spec fn is_short_escape(t: Seq<u8>) -> bool {
    t.len() == 2 && (t[1] == 'b' as int || t[1] == 't' as int || t[1] == 'n' as int || t[1]
        == 'f' as int || t[1] == 'r' as int || t[1] == '"' as int || t[1] == '\\' as int)
}

/// A backslash, the letter `u` or `U`, and four or eight digits of a character.
pub open spec fn is_unicode_escape(t: Seq<u8>) -> bool {
    ||| t.len() == 6 && t[1] == 'u' as int && writes_char(t.skip(2))
    ||| t.len() == 10 && t[1] == 'U' as int && writes_char(t.skip(2))
}

/// A backslash at the end of a line, with nothing but blanks behind it.
pub open spec fn is_line_escape(t: Seq<u8>) -> bool {
    let n = t.len();
    &&& n >= 2 && t[n - 1] == '\n' as int
    &&& forall|k: int|
        0 < k < n - 1 ==> #[trigger] t[k] == ' ' as int || t[k] == '\t' as int || (k == n - 2
            && t[k] == '\r' as int)
}

/// An escape sequence that strings may hold.
pub open spec fn is_escape(t: Seq<u8>) -> bool {
    &&& t.len() > 0 && t[0] == '\\' as int
    &&& is_short_escape(t) || is_unicode_escape(t) || is_line_escape(t)
}

proof fn lemma_hex(byte: u8)
    ensures
        hex_value(byte) matches Some(v) ==> writes_hex(byte, v),
        forall|d: int| #[trigger] writes_hex(byte, d) ==> hex_value(byte) == Some(d),
{
    if hex_value(byte) is Some {
        lemma_writes(byte as char, hex_value(byte)->0);
    }
    assert forall|d: int| #[trigger] writes_hex(byte, d) implies hex_value(byte) == Some(d) by {
        lemma_writes(byte as char, d);
    }
}

proof fn lemma_hex4(t: Seq<u8>, n: int)
    requires
        t.len() == 4,
    ensures
        hex_writes(t, n) <==> hex4_value(t, 0) == Some(n),
{
    reveal_with_fuel(hex_writes, 5);
    lemma_hex(t[0]);
    lemma_hex(t[1]);
    lemma_hex(t[2]);
    lemma_hex(t[3]);
    let a = t.drop_last();
    let b = a.drop_last();
    let c = b.drop_last();
    let d = c.drop_last();
    assert(t.last() == t[3] && a.last() == t[2] && b.last() == t[1] && c.last() == t[0]);
    if hex_value(t[0]) is Some && hex_value(t[1]) is Some && hex_value(t[2]) is Some && hex_value(
        t[3],
    ) is Some {
        lemma_packed(
            n,
            0,
            hex_value(t[0])->0,
            hex_value(t[1])->0,
            hex_value(t[2])->0,
            hex_value(t[3])->0,
        );
    }
}

/// The lowest four of the digits of a number, and the number above them.
proof fn lemma_packed(n: int, h: int, w: int, x: int, y: int, z: int)
    requires
        0 <= w < 16,
        0 <= x < 16,
        0 <= y < 16,
        0 <= z < 16,
    ensures
        n == h * 65536 + (w * 4096 + x * 256 + y * 16 + z) <==> {
            &&& n % 16 == z
            &&& n / 16 % 16 == y
            &&& n / 16 / 16 % 16 == x
            &&& n / 16 / 16 / 16 % 16 == w
            &&& n / 16 / 16 / 16 / 16 == h
        },
{
    assert(n == n / 16 * 16 + n % 16);
    assert(n / 16 == n / 16 / 16 * 16 + n / 16 % 16);
    assert(n / 16 / 16 == n / 16 / 16 / 16 * 16 + n / 16 / 16 % 16);
    assert(n / 16 / 16 / 16 == n / 16 / 16 / 16 / 16 * 16 + n / 16 / 16 / 16 % 16);
    if n == h * 65536 + (w * 4096 + x * 256 + y * 16 + z) {
        assert(n / 16 == h * 4096 + w * 256 + x * 16 + y);
        assert(n / 16 / 16 == h * 256 + w * 16 + x);
        assert(n / 16 / 16 / 16 == h * 16 + w);
    }
}

/// Four more digits.
proof fn lemma_hex_more(t: Seq<u8>, n: int)
    requires
        t.len() >= 4,
    ensures
        ({
            let k = t.len() - 4;
            hex_writes(t, n) <==> {
                &&& writes_hex(t[k + 3], n % 16)
                &&& writes_hex(t[k + 2], n / 16 % 16)
                &&& writes_hex(t[k + 1], n / 16 / 16 % 16)
                &&& writes_hex(t[k], n / 16 / 16 / 16 % 16)
                &&& hex_writes(t.take(k), n / 16 / 16 / 16 / 16)
            }
        }),
{
    reveal_with_fuel(hex_writes, 5);
    let k = t.len() - 4;
    let a = t.drop_last();
    let b = a.drop_last();
    let c = b.drop_last();
    assert(c.drop_last() =~= t.take(k));
    assert(t.last() == t[k + 3] && a.last() == t[k + 2] && b.last() == t[k + 1] && c.last()
        == t[k]);
}

proof fn lemma_hex8(t: Seq<u8>, n: int)
    requires
        t.len() == 8,
    ensures
        hex_writes(t, n) <==> {
            &&& hex4_value(t, 0) is Some && hex4_value(t, 4) is Some
            &&& n == hex4_value(t, 0)->0 * 0x10000 + hex4_value(t, 4)->0
        },
{
    lemma_hex(t[4]);
    lemma_hex(t[5]);
    lemma_hex(t[6]);
    lemma_hex(t[7]);
    lemma_hex_more(t, n);
    lemma_hex4(t.take(4), n / 16 / 16 / 16 / 16);
    assert(hex4_value(t.take(4), 0) == hex4_value(t, 0));
    if hex4_value(t, 4) is Some {
        lemma_packed(
            n,
            n / 16 / 16 / 16 / 16,
            hex_value(t[4])->0,
            hex_value(t[5])->0,
            hex_value(t[6])->0,
            hex_value(t[7])->0,
        );
        if hex4_value(t, 0) is Some {
            lemma_packed(
                n,
                hex4_value(t, 0)->0,
                hex_value(t[4])->0,
                hex_value(t[5])->0,
                hex_value(t[6])->0,
                hex_value(t[7])->0,
            );
        }
    }
}

proof fn lemma_after_blanks(text: Seq<u8>, at: int)
    requires
        0 <= at <= text.len(),
    ensures
        at <= after_blanks(text, at) <= text.len(),
        forall|k: int|
            at <= k < after_blanks(text, at) ==> #[trigger] text[k] == 0x20 || text[k] == 0x09,
        after_blanks(text, at) < text.len() ==> text[after_blanks(text, at)] != 0x20
            && text[after_blanks(text, at)] != 0x09,
    decreases text.len() - at,
{
    if at < text.len() && (text[at] == 0x20 || text[at] == 0x09) {
        lemma_after_blanks(text, at + 1);
    }
}

/// The number of a character that four or eight digits write.
proof fn lemma_writes_char(text: Seq<u8>, at: int, len: int)
    requires
        0 <= at,
        len == 4 || len == 8,
        at + len <= text.len(),
    ensures
        writes_char(text.subrange(at, at + len)) <==> if len == 4 {
            hex4_value(text, at) matches Some(n) && is_scalar_value(n)
        } else {
            (hex4_value(text, at), hex4_value(text, at + 4)) matches (Some(h), Some(l))
                && is_scalar_value(h * 0x10000 + l)
        },
{
    let t = text.subrange(at, at + len);
    assert(hex4_value(t, 0) == hex4_value(text, at));
    if len == 4 {
        if writes_char(t) {
            let n = choose|n: int| #[trigger]
                hex_writes(t, n) && (0 <= n <= 0xd7ff || 0xe000 <= n <= 0x10ffff);
            lemma_hex4(t, n);
        }
        if hex4_value(text, at) is Some {
            lemma_hex4(t, hex4_value(text, at)->0);
        }
    } else {
        assert(hex4_value(t, 4) == hex4_value(text, at + 4));
        if writes_char(t) {
            let n = choose|n: int| #[trigger]
                hex_writes(t, n) && (0 <= n <= 0xd7ff || 0xe000 <= n <= 0x10ffff);
            lemma_hex8(t, n);
        }
        if hex4_value(text, at) is Some && hex4_value(text, at + 4) is Some {
            lemma_hex8(t, hex4_value(text, at)->0 * 0x10000 + hex4_value(text, at + 4)->0);
        }
    }
}

/// A backslash starts an escape sequence of a length if and only if the text
/// from it on, up to that length, is one that strings may hold.
pub proof fn escapes_are_those_of_toml(text: Seq<u8>, at: int, n: int)
    requires
        0 <= at < text.len(),
        text[at] == '\\' as int,
        0 < n,
        at + n <= text.len(),
    ensures
        escape_len(text, at) == Some(n) <==> is_escape(text.subrange(at, at + n)),
{
    let t = text.subrange(at, at + n);
    if at + 1 < text.len() {
        lemma_after_blanks(text, at + 1);
        let e = after_blanks(text, at + 1);
        let c = text[at + 1];
        if n >= 2 {
            assert(t[1] == c);
        }
        if n == 6 {
            assert(t.skip(2) =~= text.subrange(at + 2, at + 2 + 4));
            lemma_writes_char(text, at + 2, 4);
        }
        if n == 10 {
            assert(t.skip(2) =~= text.subrange(at + 2, at + 2 + 8));
            lemma_writes_char(text, at + 2, 8);
        }
        if is_line_escape(t) {
            let last = at + n - 1;
            assert(text[last] == t[n - 1]);
            if e < last {
                assert(t[e - at] == text[e]);
            } else if e > last {
                assert(text[last] == 0x20 || text[last] == 0x09);
            }
            assert(e == last || (e == last - 1 && text[e] == 0x0d));
        }
        if escape_len(text, at) == Some(n) && !is_short_escape(t) && !is_unicode_escape(t) {
            assert forall|k: int| 0 < k < n - 1 implies #[trigger] t[k] == ' ' as int || t[k]
                == '\t' as int || (k == n - 2 && t[k] == '\r' as int) by {
                assert(t[k] == text[at + k]);
            }
        }
    }
}

/// What is reported of a text: a backslash that starts no escape sequence,
/// with the search going on behind it, and behind an escape sequence where
/// there is one.
pub proof fn bad_escapes_are_found(text: Seq<u8>, at: int)
    requires
        0 <= at,
    ensures
        at >= text.len() ==> escape_errors(text, at).len() == 0,
        at < text.len() && text[at] != '\\' as int ==> escape_errors(text, at) == escape_errors(
            text,
            at + 1,
        ),
        forall|n: int|
            #![trigger text.subrange(at, at + n)]
            at < text.len() && 0 < n && at + n <= text.len() && is_escape(
                text.subrange(at, at + n),
            ) ==> escape_errors(text, at) == escape_errors(text, at + n),
        at < text.len() && text[at] == '\\' as int && (forall|n: int|
            #![trigger text.subrange(at, at + n)]
            0 < n && at + n <= text.len() ==> !is_escape(text.subrange(at, at + n)))
            ==> escape_errors(text, at) == seq![at] + escape_errors(text, at + 1),
{
    if at < text.len() && text[at] == 0x5c {
        assert forall|n: int|
            #![trigger text.subrange(at, at + n)]
            0 < n && at + n <= text.len() && is_escape(text.subrange(at, at + n)) implies
            escape_errors(text, at) == escape_errors(text, at + n) by {
            escapes_are_those_of_toml(text, at, n);
        }
        lemma_after_blanks(text, at + 1);
        if escape_len(text, at) is Some {
            let n = escape_len(text, at)->0;
            escapes_are_those_of_toml(text, at, n);
            assert(is_escape(text.subrange(at, at + n)));
        }
    } else if at < text.len() {
        assert forall|n: int|
            #![trigger text.subrange(at, at + n)]
            0 < n && at + n <= text.len() implies !is_escape(text.subrange(at, at + n)) by {
            assert(text.subrange(at, at + n)[0] == text[at]);
        }
    }
}

} // verus!
