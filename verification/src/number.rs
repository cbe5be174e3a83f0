//! Ids in decimal notation: how one is written and how it is read back.

use vstd::prelude::*;
use crate::text::starts_at;

verus! {

/// The character that stands for a digit.
pub open spec fn digit(d: nat) -> char {
    if d == 0 {
        '0'
    } else if d == 1 {
        '1'
    } else if d == 2 {
        '2'
    } else if d == 3 {
        '3'
    } else if d == 4 {
        '4'
    } else if d == 5 {
        '5'
    } else if d == 6 {
        '6'
    } else if d == 7 {
        '7'
    } else if d == 8 {
        '8'
    } else {
        '9'
    }
}

/// A number in decimal notation: no sign, and no leading zero but for zero
/// itself.
pub open spec fn decimal(n: nat) -> Seq<char>
    decreases n,
{
    if n < 10 {
        seq![digit(n)]
    } else {
        decimal(n / 10).push(digit(n % 10))
    }
}

/// Whether the character is a decimal digit.
pub open spec fn is_digit(c: char) -> bool {
    '0' <= c && c <= '9'
}

/// The number that a digit stands for.
pub open spec fn digit_value(c: char) -> nat {
    (c as u32 - '0' as u32) as nat
}

/// The number that a run of digits stands for.
pub open spec fn number(digits: Seq<char>) -> nat
    decreases digits.len(),
{
    if digits.len() == 0 {
        0
    } else {
        number(digits.drop_last()) * 10 + digit_value(digits.last())
    }
}

/// Where the run of digits that starts at `pos` ends.
pub open spec fn digits_end(text: Seq<char>, pos: int) -> int
    decreases text.len() - pos,
{
    if 0 <= pos < text.len() && is_digit(text[pos]) {
        digits_end(text, pos + 1)
    } else {
        pos
    }
}

/// The id written at `pos`, with the position behind it. The whole run of
/// digits is taken. It stands for an id if it is not empty, has no leading
/// zero but for zero itself, and does not exceed the largest id.
pub open spec fn number_at(text: Seq<char>, pos: int) -> Option<(u32, int)> {
    let end = digits_end(text, pos);
    if end <= pos {
        None
    } else if end > pos + 1 && text[pos] == '0' {
        None
    } else if number(text.subrange(pos, end)) > u32::MAX {
        None
    } else {
        Some((number(text.subrange(pos, end)) as u32, end))
    }
}

/// The character that stands for the digit `d`.
pub fn digit_char(d: u32) -> (c: char)
    requires
        d < 10,
    ensures
        c == digit(d as nat),
{
    if d == 0 {
        '0'
    } else if d == 1 {
        '1'
    } else if d == 2 {
        '2'
    } else if d == 3 {
        '3'
    } else if d == 4 {
        '4'
    } else if d == 5 {
        '5'
    } else if d == 6 {
        '6'
    } else if d == 7 {
        '7'
    } else if d == 8 {
        '8'
    } else {
        '9'
    }
}

/// Adds `n` in decimal notation at the end of `out`.
pub fn push_decimal(out: &mut Vec<char>, n: u32)
    ensures
        final(out)@ == old(out)@ + decimal(n as nat),
    decreases n,
{
    if n >= 10 {
        push_decimal(out, n / 10);
    }
    out.push(digit_char(n % 10));
}

/// The run of digits from `pos` on holds digits only and ends at the end of
/// the text or before a character that is no digit.
pub proof fn lemma_digits_end(text: Seq<char>, pos: int)
    requires
        0 <= pos <= text.len(),
    ensures
        pos <= digits_end(text, pos) <= text.len(),
        forall|j: int| pos <= j < digits_end(text, pos) ==> is_digit(#[trigger] text[j]),
        digits_end(text, pos) == text.len() || !is_digit(text[digits_end(text, pos)]),
    decreases text.len() - pos,
{
    if pos < text.len() && is_digit(text[pos]) {
        lemma_digits_end(text, pos + 1);
    }
}

/// A run of digits that is followed by no further digit is the whole run.
pub proof fn lemma_digits_end_found(text: Seq<char>, pos: int, end: int)
    requires
        0 <= pos <= end <= text.len(),
        forall|j: int| pos <= j < end ==> is_digit(#[trigger] text[j]),
        end == text.len() || !is_digit(text[end]),
    ensures
        digits_end(text, pos) == end,
    decreases end - pos,
{
    if pos < end {
        lemma_digits_end_found(text, pos + 1, end);
    }
}

/// What decimal notation looks like, and that it is read back as the number
/// it was written for.
pub proof fn lemma_decimal(n: nat)
    ensures
        decimal(n).len() >= 1,
        forall|j: int| 0 <= j < decimal(n).len() ==> is_digit(#[trigger] decimal(n)[j]),
        number(decimal(n)) == n,
        n >= 1 ==> decimal(n)[0] != '0',
        decimal(n).len() > 1 ==> n >= 10,
    decreases n,
{
    if n < 10 {
        assert(decimal(n).drop_last() =~= Seq::empty());
        assert(number(decimal(n).drop_last()) == 0);
    } else {
        lemma_decimal(n / 10);
        assert(decimal(n).drop_last() =~= decimal(n / 10));
        assert(decimal(n)[0] == decimal(n / 10)[0]);
    }
}

/// A run of digits without a leading zero is the decimal notation of the
/// number it stands for.
pub proof fn lemma_number_is_written_as_read(digits: Seq<char>)
    requires
        digits.len() >= 1,
        forall|j: int| 0 <= j < digits.len() ==> is_digit(#[trigger] digits[j]),
        digits.len() > 1 ==> digits[0] != '0',
    ensures
        decimal(number(digits)) == digits,
        digits[0] != '0' ==> number(digits) >= 1,
    decreases digits.len(),
{
    let init = digits.drop_last();
    if digits.len() == 1 {
        assert(init =~= Seq::empty());
        assert(number(init) == 0);
        assert(decimal(number(digits)) =~= digits);
    } else {
        assert(init[0] == digits[0]);
        lemma_number_is_written_as_read(init);
        let n = number(digits);
        assert(n / 10 == number(init));
        assert(n % 10 == digit_value(digits.last()));
        assert(decimal(n) =~= digits);
    }
}

/// A longer run of digits stands for no smaller number than its beginning.
pub proof fn lemma_number_grows(digits: Seq<char>, k: int)
    requires
        0 <= k <= digits.len(),
        forall|j: int| 0 <= j < digits.len() ==> is_digit(#[trigger] digits[j]),
    ensures
        number(digits.take(k)) <= number(digits),
    decreases digits.len(),
{
    if k == digits.len() {
        assert(digits.take(k) =~= digits);
    } else {
        assert(digits.drop_last().take(k) =~= digits.take(k));
        lemma_number_grows(digits.drop_last(), k);
    }
}

/// An id in decimal notation, followed by no digit, is read back as that id.
pub proof fn lemma_written_number_is_read(text: Seq<char>, pos: int, n: u32)
    requires
        starts_at(text, pos, decimal(n as nat)),
        pos + decimal(n as nat).len() == text.len() || !is_digit(
            text[pos + decimal(n as nat).len()],
        ),
    ensures
        number_at(text, pos) == Some((n, pos + decimal(n as nat).len())),
{
    reveal(starts_at);
    let word = decimal(n as nat);
    let end = pos + word.len();
    lemma_decimal(n as nat);
    assert forall|j: int| pos <= j < end implies is_digit(#[trigger] text[j]) by {
        assert(text[j] == text.subrange(pos, end)[j - pos]);
    }
    lemma_digits_end_found(text, pos, end);
    assert(text[pos] == text.subrange(pos, end)[0]);
}

/// What is read as an id is that id in decimal notation, followed by no
/// digit.
pub proof fn lemma_read_number_was_written(text: Seq<char>, pos: int)
    requires
        0 <= pos <= text.len(),
        number_at(text, pos) is Some,
    ensures
        ({
            let (n, end) = number_at(text, pos)->0;
            &&& pos < end <= text.len()
            &&& end == pos + decimal(n as nat).len()
            &&& starts_at(text, pos, decimal(n as nat))
            &&& end == text.len() || !is_digit(text[end])
        }),
{
    reveal(starts_at);
    lemma_digits_end(text, pos);
    let end = digits_end(text, pos);
    let digits = text.subrange(pos, end);
    assert(digits[0] == text[pos]);
    lemma_number_is_written_as_read(digits);
}

/// Reads the id written at `pos`.
pub fn read_number(text: &Vec<char>, pos: usize) -> (r: Option<(u32, usize)>)
    requires
        pos <= text.len(),
    ensures
        match r {
            Some((n, end)) => number_at(text@, pos as int) == Some((n, end as int)) && pos < end
                <= text.len(),
            None => number_at(text@, pos as int) is None,
        },
{
    let mut i: usize = pos;
    let mut value: u64 = 0;
    proof {
        assert(text@.subrange(pos as int, pos as int) =~= Seq::empty());
        lemma_digits_end(text@, pos as int);
    }
    while i < text.len() && '0' <= text[i] && text[i] <= '9'
        invariant
            pos <= i <= text.len(),
            i <= digits_end(text@, pos as int) <= text.len(),
            digits_end(text@, pos as int) == digits_end(text@, i as int),
            forall|j: int| pos <= j < digits_end(text@, pos as int) ==> is_digit(#[trigger] text@[j]),
            value == number(text@.subrange(pos as int, i as int)),
            value <= u32::MAX,
        decreases text.len() - i,
    {
        let d: u64 = (text[i] as u32 - '0' as u32) as u64;
        let next: u64 = value * 10 + d;
        proof {
            let longer = text@.subrange(pos as int, i + 1);
            assert(longer.drop_last() =~= text@.subrange(pos as int, i as int));
            assert(longer.last() == text@[i as int]);
            assert(next == number(longer));
            assert(digits_end(text@, i as int) == digits_end(text@, i + 1));
            lemma_digits_end(text@, i + 1);
        }
        if next > 0xffff_ffff {
            proof {
                let end = digits_end(text@, pos as int);
                let digits = text@.subrange(pos as int, end);
                assert(digits.take(i + 1 - pos) =~= text@.subrange(pos as int, i + 1));
                lemma_number_grows(digits, i + 1 - pos);
            }
            return None;
        }
        value = next;
        i += 1;
    }
    if i == pos {
        return None;
    }
    if i > pos + 1 && text[pos] == '0' {
        return None;
    }
    Some((value as u32, i))
}

} // verus!
