//! Text between the quotes of a snapshot: how it is written so that the
//! closing quote can be found, and how it is read back.

use vstd::prelude::*;
use crate::number::{digit, digit_char, digit_value, is_digit};
use crate::text::{lemma_part_stands, lemma_starts_at_first, lemma_starts_at_joined, starts_at};

verus! {

/// The character that stands for a hexadecimal digit.
pub open spec fn hex(d: nat) -> char {
    if d < 10 {
        digit(d)
    } else if d == 10 {
        'a'
    } else if d == 11 {
        'b'
    } else if d == 12 {
        'c'
    } else if d == 13 {
        'd'
    } else if d == 14 {
        'e'
    } else {
        'f'
    }
}

/// The number that a hexadecimal digit stands for. Only the small letters
/// count as digits.
pub open spec fn hex_value(c: char) -> Option<nat> {
    if is_digit(c) {
        Some(digit_value(c))
    } else if 'a' <= c && c <= 'f' {
        Some((c as u32 - 'a' as u32 + 10) as nat)
    } else {
        None
    }
}

/// Whether the character is one of the 32 control characters that may not
/// stand in a snapshot as they are.
pub open spec fn is_control(c: char) -> bool {
    (c as u32) < 32
}

/// How one character of a text is written: a quote and a backslash behind a
/// backslash, a control character by its code in four hexadecimal digits,
/// any other character as it is.
pub open spec fn escaped_char(c: char) -> Seq<char> {
    if c == '"' {
        seq!['\\', '"']
    } else if c == '\\' {
        seq!['\\', '\\']
    } else if is_control(c) {
        seq!['\\', 'u', '0', '0', hex((c as u32 / 16) as nat), hex((c as u32 % 16) as nat)]
    } else {
        seq![c]
    }
}

/// How a text is written between quotes.
pub open spec fn escaped(text: Seq<char>) -> Seq<char>
    decreases text.len(),
{
    if text.len() == 0 {
        Seq::empty()
    } else {
        escaped_char(text[0]) + escaped(text.drop_first())
    }
}

/// The character written at `pos`, with the position behind it. A quote and
/// a control character as they are stand for nothing, and so does a
/// backslash that none of the three written forms follows.
pub open spec fn char_at(text: Seq<char>, pos: int) -> Option<(char, int)> {
    if !(0 <= pos < text.len()) {
        None
    } else if text[pos] == '\\' {
        if pos + 1 < text.len() && text[pos + 1] == '"' {
            Some(('"', pos + 2))
        } else if pos + 1 < text.len() && text[pos + 1] == '\\' {
            Some(('\\', pos + 2))
        } else if pos + 5 < text.len() && text[pos + 1] == 'u' && text[pos + 2] == '0' && text[pos
            + 3] == '0' && (text[pos + 4] == '0' || text[pos + 4] == '1') && hex_value(
            text[pos + 5],
        ) is Some {
            Some(
                (
                    ((digit_value(text[pos + 4]) * 16 + hex_value(text[pos + 5])->0) as u8) as char,
                    pos + 6,
                ),
            )
        } else {
            None
        }
    } else if text[pos] == '"' || is_control(text[pos]) {
        None
    } else {
        Some((text[pos], pos + 1))
    }
}

/// The text written from `pos` up to its closing quote, with the position of
/// that quote. A text that no quote closes stands for nothing. (A written
/// character takes up at least one position; the test for it is there to show
/// that the reading ends.)
pub open spec fn text_at(text: Seq<char>, pos: int) -> Option<(Seq<char>, int)>
    decreases text.len() - pos,
{
    if !(0 <= pos < text.len()) {
        None
    } else if text[pos] == '"' {
        Some((Seq::empty(), pos))
    } else {
        match char_at(text, pos) {
            None => None,
            Some((c, next)) => if next <= pos {
                None
            } else {
                match text_at(text, next) {
                    None => None,
                    Some((rest, end)) => Some((seq![c] + rest, end)),
                }
            },
        }
    }
}

/// A written character is read back as the character it was written for, and
/// it does not begin with a quote.
pub proof fn lemma_written_char_is_read(text: Seq<char>, pos: int, c: char)
    requires
        starts_at(text, pos, escaped_char(c)),
    ensures
        char_at(text, pos) == Some((c, pos + escaped_char(c).len())),
        text[pos] != '"',
{
    reveal(starts_at);
    let word = escaped_char(c);
    assert forall|j: int| 0 <= j < word.len() implies text[pos + j] == word[j] by {
        assert(text.subrange(pos, pos + word.len())[j] == word[j]);
    }
    assert(text[pos] == word[0]);
    if c == '"' {
        assert(text[pos + 1] == word[1]);
    } else if c == '\\' {
        assert(text[pos + 1] == word[1]);
    } else if is_control(c) {
        assert(text[pos + 1] == word[1]);
        assert(text[pos + 2] == word[2]);
        assert(text[pos + 3] == word[3]);
        assert(text[pos + 4] == word[4]);
        assert(text[pos + 5] == word[5]);
        let code = c as u32;
        let high = (code / 16) as nat;
        let low = (code % 16) as nat;
        assert(high == 0 || high == 1);
        assert(hex_value(hex(low)) == Some(low));
        assert(digit_value(hex(high)) == high);
        assert(high * 16 + low == code);
    }
}

/// What is read as a character was written for that character.
pub proof fn lemma_read_char_was_written(text: Seq<char>, pos: int)
    requires
        char_at(text, pos) is Some,
    ensures
        ({
            let (c, next) = char_at(text, pos)->0;
            &&& pos < next <= text.len()
            &&& text.subrange(pos, next) == escaped_char(c)
        }),
{
    let (c, next) = char_at(text, pos)->0;
    if text[pos] == '\\' {
        if text[pos + 1] == '"' || text[pos + 1] == '\\' {
            assert(text.subrange(pos, next) =~= escaped_char(c));
        } else {
            let high = digit_value(text[pos + 4]);
            let low = hex_value(text[pos + 5])->0;
            assert(low < 16);
            assert(c as u32 == high * 16 + low);
            assert((c as u32 / 16) as nat == high);
            assert((c as u32 % 16) as nat == low);
            assert(hex(low) == text[pos + 5]);
            assert(hex(high) == text[pos + 4]);
            assert(text.subrange(pos, next) =~= escaped_char(c));
        }
    } else {
        assert(text.subrange(pos, next) =~= escaped_char(c));
    }
}

/// A written text with its closing quote is read back as the text it was
/// written for.
pub proof fn lemma_written_text_is_read(text: Seq<char>, pos: int, content: Seq<char>)
    requires
        starts_at(text, pos, escaped(content).push('"')),
    ensures
        text_at(text, pos) == Some((content, pos + escaped(content).len())),
    decreases content.len(),
{
    let word = escaped(content).push('"');
    if content.len() == 0 {
        lemma_starts_at_first(text, pos, word);
        assert(content =~= Seq::empty());
    } else {
        let first = escaped_char(content[0]);
        let rest = content.drop_first();
        assert(word =~= first + escaped(rest).push('"'));
        lemma_starts_at_joined(text, pos, first, escaped(rest).push('"'));
        lemma_written_char_is_read(text, pos, content[0]);
        let next = pos + first.len();
        lemma_written_text_is_read(text, next, rest);
        assert(seq![content[0]] + rest =~= content);
    }
}

/// What is read as a text was written for that text, and a quote closes it.
pub proof fn lemma_read_text_was_written(text: Seq<char>, pos: int)
    requires
        text_at(text, pos) is Some,
    ensures
        ({
            let (content, end) = text_at(text, pos)->0;
            &&& pos <= end < text.len()
            &&& text[end] == '"'
            &&& end == pos + escaped(content).len()
            &&& starts_at(text, pos, escaped(content))
        }),
    decreases text.len() - pos,
{
    let (content, end) = text_at(text, pos)->0;
    if text[pos] == '"' {
        lemma_part_stands(text, pos, pos);
        assert(text.subrange(pos, pos) =~= escaped(content));
    } else {
        let (c, next) = char_at(text, pos)->0;
        lemma_read_char_was_written(text, pos);
        lemma_read_text_was_written(text, next);
        let (rest, _) = text_at(text, next)->0;
        assert(content == seq![c] + rest);
        assert(content.drop_first() =~= rest);
        lemma_part_stands(text, pos, next);
        lemma_starts_at_joined(text, pos, escaped_char(c), escaped(rest));
    }
}

/// Writing goes character by character: a text with one more character is
/// written as the text followed by that character.
pub proof fn lemma_escaped_push(text: Seq<char>, c: char)
    ensures
        escaped(text.push(c)) == escaped(text) + escaped_char(c),
    decreases text.len(),
{
    if text.len() == 0 {
        assert(text.push(c).drop_first() =~= Seq::empty());
        assert(escaped(Seq::<char>::empty()) =~= Seq::empty());
        assert(escaped(text.push(c)) =~= escaped(text) + escaped_char(c));
    } else {
        assert(text.push(c).drop_first() =~= text.drop_first().push(c));
        lemma_escaped_push(text.drop_first(), c);
        assert(escaped(text.push(c)) =~= escaped(text) + escaped_char(c));
    }
}

/// A text without quote, backslash and control character is written as it
/// is.
pub proof fn lemma_plain_text_is_kept(text: Seq<char>)
    requires
        forall|j: int|
            0 <= j < text.len() ==> (#[trigger] text[j]) != '"' && text[j] != '\\' && !is_control(
                text[j],
            ),
    ensures
        escaped(text) == text,
    decreases text.len(),
{
    if text.len() > 0 {
        lemma_plain_text_is_kept(text.drop_first());
        assert(escaped(text) =~= text);
    }
}

/// The character that stands for the hexadecimal digit `d`.
fn hex_char(d: u32) -> (c: char)
    requires
        d < 16,
    ensures
        c == hex(d as nat),
{
    if d < 10 {
        digit_char(d)
    } else if d == 10 {
        'a'
    } else if d == 11 {
        'b'
    } else if d == 12 {
        'c'
    } else if d == 13 {
        'd'
    } else if d == 14 {
        'e'
    } else {
        'f'
    }
}

/// The number that the hexadecimal digit `c` stands for.
fn hex_value_of(c: char) -> (value: Option<u32>)
    ensures
        match value {
            Some(v) => hex_value(c) == Some(v as nat),
            None => hex_value(c) is None,
        },
{
    if '0' <= c && c <= '9' {
        Some(c as u32 - '0' as u32)
    } else if 'a' <= c && c <= 'f' {
        Some(c as u32 - 'a' as u32 + 10)
    } else {
        None
    }
}

/// Adds `text`, written as it stands between quotes, at the end of `out`.
pub fn push_escaped(out: &mut Vec<char>, text: &Vec<char>)
    ensures
        final(out)@ == old(out)@ + escaped(text@),
{
    let mut i: usize = 0;
    assert(text@.take(0) =~= Seq::empty());
    while i < text.len()
        invariant
            i <= text.len(),
            out@ == old(out)@ + escaped(text@.take(i as int)),
        decreases text.len() - i,
    {
        let c = text[i];
        proof {
            assert(text@.take(i + 1) =~= text@.take(i as int).push(c));
            lemma_escaped_push(text@.take(i as int), c);
        }
        let ghost before = out@;
        if c == '"' {
            out.push('\\');
            out.push('"');
        } else if c == '\\' {
            out.push('\\');
            out.push('\\');
        } else if (c as u32) < 32 {
            out.push('\\');
            out.push('u');
            out.push('0');
            out.push('0');
            out.push(hex_char(c as u32 / 16));
            out.push(hex_char(c as u32 % 16));
        } else {
            out.push(c);
        }
        assert(out@ =~= before + escaped_char(c));
        i += 1;
    }
    assert(text@.take(text.len() as int) =~= text@);
}

/// Reads the character written at `pos`.
pub fn read_char(text: &Vec<char>, pos: usize) -> (r: Option<(char, usize)>)
    ensures
        match r {
            Some((c, next)) => char_at(text@, pos as int) == Some((c, next as int)) && pos < next
                <= text.len(),
            None => char_at(text@, pos as int) is None,
        },
{
    if pos >= text.len() {
        return None;
    }
    let c = text[pos];
    if c == '\\' {
        if text.len() - pos < 2 {
            return None;
        }
        let what = text[pos + 1];
        if what == '"' {
            Some(('"', pos + 2))
        } else if what == '\\' {
            Some(('\\', pos + 2))
        } else if what == 'u' {
            if text.len() - pos < 6 {
                return None;
            }
            if text[pos + 2] != '0' || text[pos + 3] != '0' {
                return None;
            }
            let high = text[pos + 4];
            if high != '0' && high != '1' {
                return None;
            }
            match hex_value_of(text[pos + 5]) {
                None => None,
                Some(low) => {
                    let code: u32 = (high as u32 - '0' as u32) * 16 + low;
                    Some(((code as u8) as char, pos + 6))
                },
            }
        } else {
            None
        }
    } else if c == '"' || (c as u32) < 32 {
        None
    } else {
        Some((c, pos + 1))
    }
}

/// Reads the text written from `pos` up to its closing quote.
pub fn read_text(text: &Vec<char>, pos: usize) -> (r: Option<(Vec<char>, usize)>)
    ensures
        match r {
            Some((content, end)) => text_at(text@, pos as int) == Some((content@, end as int))
                && pos <= end < text.len(),
            None => text_at(text@, pos as int) is None,
        },
{
    let mut content: Vec<char> = Vec::new();
    let mut i: usize = pos;
    loop
        invariant
            pos <= i,
            text_at(text@, pos as int) == match text_at(text@, i as int) {
                None => None::<(Seq<char>, int)>,
                Some((rest, end)) => Some((content@ + rest, end)),
            },
        decreases text.len() - i,
    {
        if i >= text.len() {
            return None;
        }
        if text[i] == '"' {
            assert(content@ + Seq::<char>::empty() =~= content@);
            return Some((content, i));
        }
        match read_char(text, i) {
            None => {
                return None;
            },
            Some((c, next)) => {
                proof {
                    let ghost before = content@;
                    assert forall|rest: Seq<char>| before + (seq![c] + rest) == #[trigger] (
                    before.push(c) + rest) by {
                        assert(before + (seq![c] + rest) =~= before.push(c) + rest);
                    }
                }
                content.push(c);
                i = next;
            },
        }
    }
}

} // verus!
