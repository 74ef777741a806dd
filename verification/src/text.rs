//! Character-level helpers shared by the desugarer and the parser.

use vstd::prelude::*;

verus! {

/// Whether a character counts as whitespace.
pub uninterp spec fn white_space(c: char) -> bool;

/// `char::is_whitespace` decides whether a character has the Unicode
/// `White_Space` property. The property is a fixed table of the standard
/// library, so the answer is given a name instead of being spelled out.
pub assume_specification[ char::is_whitespace ](c: char) -> (b: bool)
    ensures
        b == white_space(c),
;

/// `String::push` appends one character at the end of the string.
pub assume_specification[ String::push ](s: &mut String, c: char)
    ensures
        final(s)@ == old(s)@.push(c),
;

/// The characters of a string slice, in order.
pub fn chars_of(text: &str) -> (chars: Vec<char>)
    ensures
        chars@ == text@,
{
    let mut chars: Vec<char> = Vec::new();
    for c in it: text.chars()
        invariant
            it.seq() == text@,
            chars@ == text@.take(it.index() as int),
    {
        chars.push(c);
    }
    chars
}

/// The string made of the given characters, in order.
pub fn string_of(chars: &[char]) -> (text: String)
    ensures
        text@ == chars@,
{
    let mut text = String::new();
    let mut i: usize = 0;
    while i < chars.len()
        invariant
            i <= chars.len(),
            text@ == chars@.take(i as int),
        decreases chars.len() - i,
    {
        text.push(chars[i]);
        i += 1;
    }
    text
}

/// The spellings of a table of names.
pub open spec fn spellings(table: Seq<String>) -> Seq<Seq<char>> {
    Seq::new(table.len(), |i: int| table[i]@)
}

/// Appends `piece` to `out`.
pub fn append(out: &mut Vec<char>, piece: &[char])
    ensures
        final(out)@ == old(out)@ + piece@,
{
    let mut i: usize = 0;
    while i < piece.len()
        invariant
            i <= piece.len(),
            out@ == old(out)@ + piece@.take(i as int),
        decreases piece.len() - i,
    {
        out.push(piece[i]);
        assert(piece@.take(i + 1) =~= piece@.take(i as int).push(piece@[i as int]));
        i += 1;
    }
    assert(piece@.take(piece.len() as int) =~= piece@);
}

/// Whether `i` is the first position of `target` in `text`.
pub open spec fn is_first_index(text: Seq<char>, target: char, i: int) -> bool {
    &&& 0 <= i < text.len()
    &&& text[i] == target
    &&& forall|j: int| 0 <= j < i ==> text[j] != target
}

/// The first position of `target` in `text`, if it occurs at all.
pub open spec fn first_index(text: Seq<char>, target: char) -> Option<int> {
    if exists|i: int| is_first_index(text, target, i) {
        Some(choose|i: int| is_first_index(text, target, i))
    } else {
        None
    }
}

/// At most one position is the first.
pub proof fn lemma_first_index_unique(text: Seq<char>, target: char, i: int)
    requires
        is_first_index(text, target, i),
    ensures
        first_index(text, target) == Some(i),
{
    let chosen = choose|k: int| is_first_index(text, target, k);
    if chosen < i {
        assert(text[chosen] != target);
    } else if i < chosen {
        assert(text[i] != target);
    }
}

/// An occurrence of `target` at `j` puts its first occurrence at or before
/// `j`.
pub proof fn lemma_first_index_before(text: Seq<char>, target: char, j: int)
    requires
        0 <= j < text.len(),
        text[j] == target,
    ensures
        first_index(text, target) matches Some(i) && 0 <= i <= j && is_first_index(text, target, i),
    decreases j,
{
    if exists|k: int| 0 <= k < j && text[k] == target {
        let k = choose|k: int| 0 <= k < j && text[k] == target;
        lemma_first_index_before(text, target, k);
    } else {
        assert(is_first_index(text, target, j));
        lemma_first_index_unique(text, target, j);
    }
}

/// The first position of `target` in `text`.
pub fn find(text: &[char], target: char) -> (found: Option<usize>)
    ensures
        match found {
            Some(i) => first_index(text@, target) == Some(i as int) && is_first_index(
                text@,
                target,
                i as int,
            ),
            None => first_index(text@, target) is None,
        },
{
    let mut i: usize = 0;
    while i < text.len()
        invariant
            i <= text.len(),
            forall|j: int| 0 <= j < i ==> text@[j] != target,
        decreases text.len() - i,
    {
        if text[i] == target {
            proof {
                lemma_first_index_unique(text@, target, i as int);
            }
            return Some(i);
        }
        i += 1;
    }
    None
}

/// The test that keeps what is not whitespace.
pub open spec fn not_whitespace() -> spec_fn(char) -> bool {
    |c: char| !white_space(c)
}

/// `text` without its whitespace characters.
pub open spec fn without_whitespace(text: Seq<char>) -> Seq<char> {
    text.filter(not_whitespace())
}

/// The characters of `text` that are not whitespace, in order.
pub fn strip_whitespace(text: &[char]) -> (kept: Vec<char>)
    ensures
        kept@ == without_whitespace(text@),
{
    let mut kept: Vec<char> = Vec::new();
    let mut i: usize = 0;
    assert(text@.take(0).filter(not_whitespace()) =~= Seq::<char>::empty()) by {
        reveal(Seq::filter);
    }
    while i < text.len()
        invariant
            i <= text.len(),
            kept@ == text@.take(i as int).filter(not_whitespace()),
        decreases text.len() - i,
    {
        let c = text[i];
        proof {
            reveal(Seq::filter);
            assert(text@.take(i + 1).drop_last() =~= text@.take(i as int));
            assert(text@.take(i + 1).last() == c);
        }
        if !c.is_whitespace() {
            kept.push(c);
        }
        i += 1;
    }
    assert(text@.take(text.len() as int) =~= text@);
    kept
}

} // verus!
