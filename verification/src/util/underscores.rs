//! Underscores in numbers.

use vstd::prelude::*;

verus! {

/// The character is a digit of a number in the given base.
pub open spec fn is_digit_in(c: char, radix: u32) -> bool {
    ||| '0' <= c <= '9' && (c as int) - ('0' as int) < radix
    ||| 'a' <= c <= 'z' && (c as int) - ('a' as int) + 10 < radix
    ||| 'A' <= c <= 'Z' && (c as int) - ('A' as int) + 10 < radix
}

/// Every underscore stands between two digits.
pub open spec fn underscores_between_digits(s: Seq<char>, radix: u32) -> bool {
    forall|i: int|
        0 <= i < s.len() && #[trigger] s[i] == '_' ==> 0 < i < s.len() - 1 && is_digit_in(
            s[i - 1],
            radix,
        ) && is_digit_in(s[i + 1], radix)
}

fn is_digit(c: char, radix: u32) -> (yes: bool)
    requires
        radix <= 36,
    ensures
        yes == is_digit_in(c, radix),
{
    let n: u32 = c as u32;
    if '0' <= c && c <= '9' {
        n - 48 < radix
    } else if 'a' <= c && c <= 'z' {
        n - 97 + 10 < radix
    } else if 'A' <= c && c <= 'Z' {
        n - 65 + 10 < radix
    } else {
        false
    }
}

/// Tells whether every underscore in a number stands between two digits of
/// the given base.
pub fn check_underscores(s: &str, radix: u32) -> (valid: bool)
    requires
        2 <= radix <= 36,
    ensures
        valid == underscores_between_digits(s@, radix),
        valid <==> cut_between_digits(s@, radix),
{
    proof {
        underscores_part_digits(s@, radix);
    }
    let mut last_char: char = '\0';
    for c in iter: s.chars()
        invariant
            radix <= 36,
            underscores_between_digits(s@, radix) == cut_between_digits(s@, radix),
            iter.seq() == s@,
            iter.index() == 0 ==> last_char == '\0',
            iter.index() > 0 ==> last_char == s@[iter.index() - 1],
            forall|j: int|
                0 <= j < iter.index() && #[trigger] s@[j] == '_' ==> 0 < j && is_digit_in(
                    s@[j - 1],
                    radix,
                ),
            forall|j: int|
                0 <= j < iter.index() - 1 && #[trigger] s@[j] == '_' ==> is_digit_in(
                    s@[j + 1],
                    radix,
                ),
    {
        if c == '_' && !is_digit(last_char, radix) {
            assert(s@[iter.index()] == '_');
            return false;
        }
        if !is_digit(c, radix) && last_char == '_' {
            assert(s@[iter.index() - 1] == '_');
            return false;
        }
        last_char = c;
    }
    if last_char == '_' {
        assert(s@[s@.len() - 1] == '_');
        return false;
    }
    true
}

/// The character writes the digit `d`.
pub open spec fn writes(c: char, d: int) -> bool {
    &&& 0 <= d < 36
    &&& c == "0123456789abcdefghijklmnopqrstuvwxyz"@[d] || c
        == "0123456789ABCDEFGHIJKLMNOPQRSTUVWXYZ"@[d]
}

/// The character writes one of the digits below the base.
pub open spec fn writes_digit(c: char, radix: u32) -> bool {
    exists|d: int| #[trigger] writes(c, d) && d < radix
}

/// What the characters that write digits are.
pub proof fn lemma_writes(c: char, d: int)
    requires
        0 <= d < 36,
    ensures
        writes(c, d) <==> {
            ||| d < 10 && c as int == '0' as int + d
            ||| d >= 10 && c as int == 'a' as int + d - 10
            ||| d >= 10 && c as int == 'A' as int + d - 10
        },
{
    reveal_strlit("0123456789abcdefghijklmnopqrstuvwxyz");
    reveal_strlit("0123456789ABCDEFGHIJKLMNOPQRSTUVWXYZ");
    assert(d == 0 || d == 1 || d == 2 || d == 3 || d == 4 || d == 5 || d == 6 || d == 7 || d == 8
        || d == 9 || d == 10 || d == 11 || d == 12 || d == 13 || d == 14 || d == 15 || d == 16
        || d == 17 || d == 18 || d == 19 || d == 20 || d == 21 || d == 22 || d == 23 || d == 24
        || d == 25 || d == 26 || d == 27 || d == 28 || d == 29 || d == 30 || d == 31 || d == 32
        || d == 33 || d == 34 || d == 35);
}

/// The digits of a base are the characters that write the numbers below it,
/// in either case, and no others.
pub proof fn digits_are_written(c: char, radix: u32)
    requires
        2 <= radix <= 36,
    ensures
        is_digit_in(c, radix) <==> writes_digit(c, radix),
{
    if is_digit_in(c, radix) {
        let d = if '0' <= c <= '9' {
            c as int - '0' as int
        } else if 'a' <= c <= 'z' {
            c as int - 'a' as int + 10
        } else {
            c as int - 'A' as int + 10
        };
        lemma_writes(c, d);
        assert(writes(c, d));
    }
    if writes_digit(c, radix) {
        let d = choose|d: int| #[trigger] writes(c, d) && d < radix;
        lemma_writes(c, d);
    }
}

/// Wherever a text is cut at an underscore, a digit of the base stands on
/// either side of the cut.
pub open spec fn cut_between_digits(s: Seq<char>, radix: u32) -> bool {
    forall|a: Seq<char>, b: Seq<char>|
        s == #[trigger] (a + seq!['_'] + b) ==> a.len() > 0 && b.len() > 0 && writes_digit(
            a.last(),
            radix,
        ) && writes_digit(b.first(), radix)
}

/// The underscores of a number are right if and only if it can be cut at none
/// of them without a digit on either side.
pub proof fn underscores_part_digits(s: Seq<char>, radix: u32)
    requires
        2 <= radix <= 36,
    ensures
        underscores_between_digits(s, radix) <==> cut_between_digits(s, radix),
{
    if underscores_between_digits(s, radix) {
        assert forall|a: Seq<char>, b: Seq<char>|
            s == #[trigger] (a + seq!['_'] + b) implies a.len() > 0 && b.len() > 0 && writes_digit(
            a.last(),
            radix,
        ) && writes_digit(b.first(), radix) by {
            let i = a.len() as int;
            assert(s[i] == '_');
            assert(s[i - 1] == a.last());
            assert(s[i + 1] == b.first());
            digits_are_written(s[i - 1], radix);
            digits_are_written(s[i + 1], radix);
        }
    }
    if cut_between_digits(s, radix) {
        assert forall|i: int| 0 <= i < s.len() && #[trigger] s[i] == '_' implies 0 < i < s.len() - 1
            && is_digit_in(s[i - 1], radix) && is_digit_in(s[i + 1], radix) by {
            let a = s.take(i);
            let b = s.skip(i + 1);
            assert(s =~= a + seq!['_'] + b);
            digits_are_written(a.last(), radix);
            digits_are_written(b.first(), radix);
        }
    }
}

} // verus!
