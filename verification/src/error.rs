//! Syntax errors.

use vstd::prelude::*;

verus! {

/// A range of byte offsets in a text.
#[derive(Debug, Clone, Copy, PartialEq, Eq, Hash, Structural)]
pub struct TextRange {
    pub start: u32,
    pub end: u32,
}

/// A syntax error that can occur during parsing.
#[derive(Debug, PartialEq, Eq, Hash)]
pub struct Error {
    /// The span of the error.
    pub range: TextRange,
    /// Human-friendly error message.
    pub message: String,
}

impl Clone for Error {
    fn clone(&self) -> (copy: Self)
        ensures
            copy == *self,
    {
        Error { range: self.range, message: self.message.clone() }
    }
}

/// What an [`Error`] says.
#[verifier::ext_equal]
pub struct ErrorView {
    pub start: int,
    pub end: int,
    pub message: Seq<char>,
}

impl View for Error {
    type V = ErrorView;

    open spec fn view(&self) -> ErrorView {
        ErrorView {
            start: self.range.start as int,
            end: self.range.end as int,
            message: self.message@,
        }
    }
}

/// What the errors in a list say, in their order.
pub open spec fn error_views(errors: Seq<Error>) -> Seq<ErrorView> {
    errors.map_values(|e: Error| e@)
}

/// The decimal digits of a number, without leading zeros.
pub open spec fn decimal(n: nat) -> Seq<char>
    decreases n,
{
    if n < 10 {
        seq![digit_char(n)]
    } else {
        decimal(n / 10).push(digit_char(n % 10))
    }
}

/// The character of a decimal digit.
pub open spec fn digit_char(d: nat) -> char {
    if d == 0 {
        '0'
    } else if d == 1 {
        '1'
    } else if d == 2 {
        '2'
    } else if d == 3 {
        '3'
    } else if d == 4 {
        '4'
    } else if d == 5 {
        '5'
    } else if d == 6 {
        '6'
    } else if d == 7 {
        '7'
    } else if d == 8 {
        '8'
    } else {
        '9'
    }
}

/// How an error is shown: its message, and its range in brackets.
pub open spec fn shown(e: ErrorView) -> Seq<char> {
    e.message + " ("@ + decimal(e.start as nat) + ".."@ + decimal(e.end as nat) + ")"@
}

/// Appends the decimal digits of a number to a text.
fn push_decimal(out: &mut String, n: u32)
    ensures
        final(out)@ == old(out)@ + decimal(n as nat),
    decreases n,
{
    if n >= 10 {
        push_decimal(out, n / 10);
    }
    let digit: &str = match n % 10 {
        0 => "0",
        1 => "1",
        2 => "2",
        3 => "3",
        4 => "4",
        5 => "5",
        6 => "6",
        7 => "7",
        8 => "8",
        _ => "9",
    };
    proof {
        reveal_strlit("0");
        reveal_strlit("1");
        reveal_strlit("2");
        reveal_strlit("3");
        reveal_strlit("4");
        reveal_strlit("5");
        reveal_strlit("6");
        reveal_strlit("7");
        reveal_strlit("8");
        reveal_strlit("9");
        assert(digit@ =~= seq![digit_char((n % 10) as nat)]);
        if n >= 10 {
            assert(decimal(n as nat) == decimal((n / 10) as nat).push(digit_char((n % 10) as nat)));
            assert(old(out)@ + decimal((n / 10) as nat) + digit@ =~= old(out)@ + decimal(n as nat));
        }
    }
    out.append(digit);
}

impl Error {
    /// The text that shows the error to a reader.
    pub fn display(&self) -> (text: String)
        ensures
            text@ == shown(self@),
    {
        let mut text = self.message.clone();
        text.append(" (");
        push_decimal(&mut text, self.range.start);
        text.append("..");
        push_decimal(&mut text, self.range.end);
        text.append(")");
        text
    }
}

/// The number that decimal digits write.
pub open spec fn number_of(digits: Seq<char>) -> int
    decreases digits.len(),
{
    if digits.len() == 0 {
        0
    } else {
        number_of(digits.drop_last()) * 10 + (digits.last() as int - '0' as int)
    }
}

/// Digits that write a number in the usual way: at least one, all of them
/// decimal, and no zero in front unless it is the only one.
pub open spec fn is_numeral(digits: Seq<char>, n: int) -> bool {
    &&& digits.len() > 0 && number_of(digits) == n
    &&& forall|i: int| 0 <= i < digits.len() ==> '0' <= #[trigger] digits[i] <= '9'
    &&& digits[0] == '0' ==> digits.len() == 1
}

/// A number is written in the usual way.
pub proof fn numbers_are_written_in_full(n: nat)
    ensures
        is_numeral(decimal(n), n as int),
        n > 0 ==> decimal(n)[0] != '0',
    decreases n,
{
    reveal_with_fuel(number_of, 2);
    assert(digit_char(n % 10) as int - '0' as int == n % 10);
    if n >= 10 {
        numbers_are_written_in_full(n / 10);
        let front = decimal(n / 10);
        assert(decimal(n).drop_last() =~= front);
        assert forall|i: int| 0 <= i < decimal(n).len() implies '0' <= #[trigger] decimal(n)[i]
            <= '9' by {
            if i < front.len() {
                assert(decimal(n)[i] == front[i]);
            }
        }
    } else {
        assert(decimal(n).drop_last() =~= Seq::<char>::empty());
        assert(number_of(decimal(n)) == n);
    }
}

/// An error is shown as its message, and behind it in brackets the two ends of
/// its range, with two periods in between.
pub proof fn errors_are_shown_with_ranges(e: ErrorView)
    requires
        0 <= e.start,
        0 <= e.end,
    ensures
        exists|a: Seq<char>, b: Seq<char>|
            #![trigger is_numeral(a, e.start), is_numeral(b, e.end)]
            {
                &&& is_numeral(a, e.start) && is_numeral(b, e.end)
                &&& shown(e) == e.message + " ("@ + a + ".."@ + b + ")"@
            },
{
    numbers_are_written_in_full(e.start as nat);
    numbers_are_written_in_full(e.end as nat);
    let a = decimal(e.start as nat);
    let b = decimal(e.end as nat);
    assert(is_numeral(a, e.start) && is_numeral(b, e.end));
}

} // verus!
