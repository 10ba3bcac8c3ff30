//! The characters that comments and strings may hold.

use vstd::prelude::*;
use vstd::string::StringSliceAdditionalSpecFns;

use super::reports;

verus! {

/// Control characters other than the tab are not allowed. Over several lines
/// the characters that end a line are.
pub open spec fn is_forbidden(byte: u8, multi_line: bool) -> bool {
    &&& byte < 0x20 || byte == 0x7f
    &&& byte != 0x09
    &&& !(multi_line && (byte == 0x0a || byte == 0x0d))
}

/// The offsets of the characters that are not allowed, from left to right.
pub open spec fn forbidden_offsets(text: Seq<u8>, multi_line: bool) -> Seq<int>
    decreases text.len(),
{
    if text.len() == 0 {
        Seq::empty()
    } else {
        let before = forbidden_offsets(text.drop_last(), multi_line);
        if is_forbidden(text.last(), multi_line) {
            before.push(text.len() - 1)
        } else {
            before
        }
    }
}

/// Every offset that is reported lies in the text.
pub proof fn lemma_forbidden_offsets_in_text(text: Seq<u8>, multi_line: bool)
    ensures
        forall|i: int|
            0 <= i < forbidden_offsets(text, multi_line).len() ==> 0
                <= #[trigger] forbidden_offsets(text, multi_line)[i] < text.len(),
    decreases text.len(),
{
    if text.len() > 0 {
        lemma_forbidden_offsets_in_text(text.drop_last(), multi_line);
        let before = forbidden_offsets(text.drop_last(), multi_line);
        assert forall|i: int| 0 <= i < forbidden_offsets(text, multi_line).len() implies 0
            <= #[trigger] forbidden_offsets(text, multi_line)[i] < text.len() by {
            if i < before.len() {
                assert(0 <= before[i] < text.drop_last().len());
            }
        }
    }
}

fn check(s: &str, multi_line: bool) -> (outcome: Result<(), Vec<usize>>)
    ensures
        reports(outcome, forbidden_offsets(s.spec_bytes(), multi_line)),
        tells(outcome, s.spec_bytes(), multi_line),
{
    let bytes = s.as_bytes();
    let mut err_indices: Vec<usize> = Vec::new();
    let mut i: usize = 0;
    while i < bytes.len()
        invariant
            i <= bytes@.len(),
            err_indices@.len() == forbidden_offsets(bytes@.take(i as int), multi_line).len(),
            forall|j: int|
                0 <= j < err_indices@.len() ==> #[trigger] err_indices@[j] == forbidden_offsets(
                    bytes@.take(i as int),
                    multi_line,
                )[j],
        decreases bytes.len() - i,
    {
        let byte = bytes[i];
        assert(bytes@.take(i + 1).drop_last() =~= bytes@.take(i as int));
        if (byte < 0x20 || byte == 0x7f) && byte != 0x09 && !(multi_line && (byte == 0x0a || byte
            == 0x0d)) {
            err_indices.push(i);
        }
        i = i + 1;
    }
    assert(bytes@.take(i as int) =~= bytes@);
    proof {
        lemma_found(err_indices@, bytes@, multi_line);
    }
    if err_indices.len() == 0 {
        Ok(())
    } else {
        Err(err_indices)
    }
}

/// Looks for characters that are not allowed in a comment.
pub fn comment(s: &str) -> (outcome: Result<(), Vec<usize>>)
    ensures
        reports(outcome, forbidden_offsets(s.spec_bytes(), false)),
        tells(outcome, s.spec_bytes(), false),
{
    check(s, false)
}

/// Looks for characters that are not allowed in a string on one line.
pub fn string(s: &str) -> (outcome: Result<(), Vec<usize>>)
    ensures
        reports(outcome, forbidden_offsets(s.spec_bytes(), false)),
        tells(outcome, s.spec_bytes(), false),
{
    check(s, false)
}

/// Looks for characters that are not allowed in a string over several lines.
pub fn multi_line_string(s: &str) -> (outcome: Result<(), Vec<usize>>)
    ensures
        reports(outcome, forbidden_offsets(s.spec_bytes(), true)),
        tells(outcome, s.spec_bytes(), true),
{
    check(s, true)
}

/// Looks for characters that are not allowed in a literal string on one line.
pub fn string_literal(s: &str) -> (outcome: Result<(), Vec<usize>>)
    ensures
        reports(outcome, forbidden_offsets(s.spec_bytes(), false)),
        tells(outcome, s.spec_bytes(), false),
{
    check(s, false)
}

/// Looks for characters that are not allowed in a literal string over several lines.
pub fn multi_line_string_literal(s: &str) -> (outcome: Result<(), Vec<usize>>)
    ensures
        reports(outcome, forbidden_offsets(s.spec_bytes(), true)),
        tells(outcome, s.spec_bytes(), true),
{
    check(s, true)
}

/// A byte may stand in a comment or in a string: that of a printable ASCII
/// character, of a tab, or of a character beyond ASCII, and over several lines
/// those that end a line.
pub open spec fn may_stand(byte: u8, multi_line: bool) -> bool {
    ||| ' ' as int <= byte && byte <= '~' as int
    ||| byte == '\t' as int
    ||| byte >= 0x80
    ||| multi_line && (byte == '\n' as int || byte == '\r' as int)
}

/// The offsets that are reported are those of the bytes that may not stand
/// there, all of them, each one once, and from left to right.
pub proof fn forbidden_bytes_are_found(text: Seq<u8>, multi_line: bool)
    ensures
        forall|k: int|
            #![trigger forbidden_offsets(text, multi_line).contains(k)]
            forbidden_offsets(text, multi_line).contains(k) <==> 0 <= k < text.len() && !may_stand(
                text[k],
                multi_line,
            ),
        forall|i: int, j: int|
            0 <= i < j < forbidden_offsets(text, multi_line).len() ==> forbidden_offsets(
                text,
                multi_line,
            )[i] < forbidden_offsets(text, multi_line)[j],
    decreases text.len(),
{
    let all = forbidden_offsets(text, multi_line);
    if text.len() > 0 {
        let front = text.drop_last();
        let n = text.len() - 1;
        let before = forbidden_offsets(front, multi_line);
        forbidden_bytes_are_found(front, multi_line);
        lemma_forbidden_offsets_in_text(front, multi_line);
        assert(is_forbidden(text.last(), multi_line) == !may_stand(text[n], multi_line));
        assert forall|k: int| all.contains(k) <==> 0 <= k < text.len() && !may_stand(
            text[k],
            multi_line,
        ) by {
            if all.contains(k) {
                let i = choose|i: int| 0 <= i < all.len() && all[i] == k;
                if i < before.len() {
                    assert(before[i] == k);
                    assert(before.contains(k));
                    assert(front[k] == text[k]);
                }
            }
            if 0 <= k < text.len() && !may_stand(text[k], multi_line) {
                if k < n {
                    assert(front[k] == text[k]);
                    assert(before.contains(k));
                    let i = choose|i: int| 0 <= i < before.len() && before[i] == k;
                    assert(all[i] == k);
                } else {
                    assert(all[before.len() as int] == k);
                }
            }
        }
    }
}

/// An offset is among those that were found.
pub open spec fn is_among(found: Seq<usize>, k: int) -> bool {
    exists|j: int| 0 <= j < found.len() && #[trigger] found[j] == k
}

/// The offsets that were found are those of the bytes that may not stand in a
/// text, from left to right.
pub open spec fn finds(found: Seq<usize>, text: Seq<u8>, multi_line: bool) -> bool {
    &&& forall|k: int| #[trigger]
        is_among(found, k) <==> 0 <= k < text.len() && !may_stand(text[k], multi_line)
    &&& forall|i: int, j: int| 0 <= i < j < found.len() ==> found[i] < found[j]
}

/// A check succeeds where every byte of a text may stand there, and tells
/// otherwise which ones may not.
pub open spec fn tells(
    outcome: Result<(), Vec<usize>>,
    text: Seq<u8>,
    multi_line: bool,
) -> bool {
    match outcome {
        Ok(_) => forall|k: int| 0 <= k < text.len() ==> may_stand(#[trigger] text[k], multi_line),
        Err(found) => found@.len() > 0 && finds(found@, text, multi_line),
    }
}

proof fn lemma_found(found: Seq<usize>, text: Seq<u8>, multi_line: bool)
    requires
        found.len() == forbidden_offsets(text, multi_line).len(),
        forall|j: int|
            0 <= j < found.len() ==> #[trigger] found[j] == forbidden_offsets(text, multi_line)[j],
    ensures
        finds(found, text, multi_line),
        found.len() == 0 ==> forall|k: int|
            0 <= k < text.len() ==> may_stand(#[trigger] text[k], multi_line),
{
    let offsets = forbidden_offsets(text, multi_line);
    forbidden_bytes_are_found(text, multi_line);
    assert forall|k: int| #[trigger]
        is_among(found, k) <==> 0 <= k < text.len() && !may_stand(text[k], multi_line) by {
        if is_among(found, k) {
            let j = choose|j: int| 0 <= j < found.len() && #[trigger] found[j] == k;
            assert(offsets[j] == k);
            assert(offsets.contains(k));
        }
        if offsets.contains(k) {
            let j = choose|j: int| 0 <= j < offsets.len() && offsets[j] == k;
            assert(found[j] == k);
        }
    }
    if found.len() == 0 {
        assert forall|k: int| 0 <= k < text.len() implies may_stand(
            #[trigger] text[k],
            multi_line,
        ) by {
            assert(!is_among(found, k));
        }
    }
}

} // verus!
