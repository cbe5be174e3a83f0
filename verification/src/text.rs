//! Strings as sequences of characters: the conversions that the stores need.

use vstd::prelude::*;

verus! {

broadcast use vstd::string::group_string_axioms;

/// `String::push` of the standard library: the string afterwards is the
/// string before with the character added at its end.
pub assume_specification[ String::push ](s: &mut String, c: char)
    ensures
        final(s)@ == old(s)@.push(c),
;

/// The characters of `text`, in order.
pub fn chars_of(text: &str) -> (out: Vec<char>)
    ensures
        out@ == text@,
{
    let mut out: Vec<char> = Vec::new();
    for c in it: text.chars()
        invariant
            it.seq() == text@,
            out@ == it.seq().take(it.index() as int),
    {
        out.push(c);
    }
    out
}

/// The string made of `chars`, in order.
pub fn string_of(chars: &Vec<char>) -> (out: String)
    ensures
        out@ == chars@,
{
    let mut out = String::new();
    let mut i: usize = 0;
    while i < chars.len()
        invariant
            i <= chars.len(),
            out@ == chars@.take(i as int),
        decreases chars.len() - i,
    {
        out.push(chars[i]);
        i += 1;
    }
    out
}

/// Adds the characters of `text` at the end of `out`.
pub fn push_text(out: &mut Vec<char>, text: &str)
    ensures
        final(out)@ == old(out)@ + text@,
{
    for c in it: text.chars()
        invariant
            it.seq() == text@,
            out@ == old(out)@ + it.seq().take(it.index() as int),
    {
        out.push(c);
    }
}

/// Whether `word` stands in `text` from position `pos` on.
#[verifier::opaque]
pub open spec fn starts_at(text: Seq<char>, pos: int, word: Seq<char>) -> bool {
    &&& 0 <= pos
    &&& pos + word.len() <= text.len()
    &&& text.subrange(pos, pos + word.len()) == word
}

/// A word that stands in a text lies within it, and where it has a first
/// character, that character stands at the word's position.
pub proof fn lemma_starts_at_first(text: Seq<char>, pos: int, word: Seq<char>)
    requires
        starts_at(text, pos, word),
    ensures
        0 <= pos,
        pos + word.len() <= text.len(),
        word.len() > 0 ==> text[pos] == word[0],
{
    reveal(starts_at);
    if word.len() > 0 {
        assert(text.subrange(pos, pos + word.len())[0] == word[0]);
    }
}

/// Every part of a text stands where it was taken from.
pub proof fn lemma_part_stands(text: Seq<char>, pos: int, end: int)
    requires
        0 <= pos <= end <= text.len(),
    ensures
        starts_at(text, pos, text.subrange(pos, end)),
{
    reveal(starts_at);
}

/// A character of a text stands, as a word of one character, at its own
/// position.
pub proof fn lemma_char_stands(text: Seq<char>, pos: int)
    requires
        0 <= pos < text.len(),
    ensures
        starts_at(text, pos, seq![text[pos]]),
{
    reveal(starts_at);
    assert(text.subrange(pos, pos + 1) =~= seq![text[pos]]);
}

/// A word that stands at the beginning of a text and is as long as the text
/// is the text.
pub proof fn lemma_whole_text(text: Seq<char>, word: Seq<char>)
    ensures
        starts_at(text, 0, text),
        starts_at(text, 0, word) && word.len() == text.len() ==> word == text,
{
    reveal(starts_at);
    assert(text.subrange(0, text.len() as int) =~= text);
}

/// Two words stand one behind the other exactly where their joining stands.
pub proof fn lemma_starts_at_joined(text: Seq<char>, pos: int, first: Seq<char>, second: Seq<char>)
    ensures
        starts_at(text, pos, first + second) <==> starts_at(text, pos, first) && starts_at(
            text,
            pos + first.len(),
            second,
        ),
{
    reveal(starts_at);
    let both = first + second;
    let mid = pos + first.len();
    if starts_at(text, pos, both) {
        assert(text.subrange(pos, mid) =~= text.subrange(pos, pos + both.len()).subrange(
            0,
            first.len() as int,
        ));
        assert(both.subrange(0, first.len() as int) =~= first);
        assert(text.subrange(mid, mid + second.len()) =~= text.subrange(
            pos,
            pos + both.len(),
        ).subrange(first.len() as int, both.len() as int));
        assert(both.subrange(first.len() as int, both.len() as int) =~= second);
    }
    if starts_at(text, pos, first) && starts_at(text, mid, second) {
        assert(text.subrange(pos, pos + both.len()) =~= text.subrange(pos, mid) + text.subrange(
            mid,
            mid + second.len(),
        ));
    }
}

/// The position behind `word`, if it stands in `text` from position `pos`
/// on.
pub fn skip_word(text: &Vec<char>, pos: usize, word: &str) -> (r: Option<usize>)
    requires
        pos <= text.len(),
    ensures
        match r {
            Some(next) => starts_at(text@, pos as int, word@) && next == pos + word@.len() && next
                <= text.len(),
            None => !starts_at(text@, pos as int, word@),
        },
{
    reveal(starts_at);
    let letters = chars_of(word);
    if letters.len() > text.len() - pos {
        return None;
    }
    let mut i: usize = 0;
    while i < letters.len()
        invariant
            letters@ == word@,
            pos + letters.len() <= text.len(),
            i <= letters.len(),
            forall|j: int| 0 <= j < i ==> text@[pos + j] == letters@[j],
        decreases letters.len() - i,
    {
        if text[pos + i] != letters[i] {
            proof {
                reveal(starts_at);
                assert(text@.subrange(pos as int, pos + word@.len())[i as int] != word@[i as int]);
            }
            return None;
        }
        i += 1;
    }
    assert(text@.subrange(pos as int, pos + word@.len()) =~= word@);
    Some(pos + letters.len())
}

/// Whether two vectors hold the same characters.
pub fn same_chars(a: &Vec<char>, b: &Vec<char>) -> (same: bool)
    ensures
        same == (a@ == b@),
{
    if a.len() != b.len() {
        return false;
    }
    let mut i: usize = 0;
    while i < a.len()
        invariant
            a.len() == b.len(),
            i <= a.len(),
            a@.take(i as int) == b@.take(i as int),
        decreases a.len() - i,
    {
        if a[i] != b[i] {
            return false;
        }
        assert(a@.take(i + 1) == a@.take(i as int).push(a@[i as int]));
        assert(b@.take(i + 1) == b@.take(i as int).push(b@[i as int]));
        i += 1;
    }
    assert(a@ == a@.take(a.len() as int));
    assert(b@ == b@.take(b.len() as int));
    true
}

} // verus!
