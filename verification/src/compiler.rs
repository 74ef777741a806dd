//! The desugarer: `let` prefixes and comma-joined parameter lists are
//! rewritten into the base notation.

use crate::failure::Failure;
use crate::helpers::{block_end, find_block_end, lemma_block_end_follows_opening};
use crate::parser::{argument_end, find_argument_end};
use crate::pattern::{first_match, regex_accepts, regex_find};
use crate::text::{
    append, chars_of, find, first_index, string_of, strip_whitespace, white_space,
    without_whitespace,
};
use vstd::prelude::*;
use vstd::string::StrSliceExecFns;
use vstd::string::StringSliceAdditionalSpecFns;
use vstd::utf8::{decode_utf8, encode_utf8};

verus! {

/// `text` from its first character that is not whitespace.
pub open spec fn without_leading_whitespace(text: Seq<char>) -> Seq<char>
    decreases text.len(),
{
    if text.len() > 0 && white_space(text[0]) {
        without_leading_whitespace(text.skip(1))
    } else {
        text
    }
}

/// Whether `text` begins with the keyword `let`.
pub open spec fn starts_with_let(text: Seq<char>) -> bool {
    text.len() >= 3 && text[0] == 'l' && text[1] == 'e' && text[2] == 't'
}

/// The test that keeps what is not a blank.
pub open spec fn not_blank() -> spec_fn(char) -> bool {
    |c: char| c != ' '
}

/// The name and the value of a `let`, given the text from the keyword up to
/// the terminator. Blanks separate the words: the first word is the keyword,
/// the second the name, and the others, joined, the value. `None` when there
/// is no blank at all.
pub open spec fn let_parts(head: Seq<char>) -> Option<(Seq<char>, Seq<char>)> {
    match first_index(head, ' ') {
        None => None,
        Some(first) => {
            let after = head.skip(first + 1);
            match first_index(after, ' ') {
                None => Some((after, Seq::empty())),
                Some(second) => Some(
                    (after.take(second), after.skip(second + 1).filter(not_blank())),
                ),
            }
        },
    }
}

/// Whether `text` is exactly one argument as the parser splits arguments: a
/// name, or a name with its group, and nothing behind it.
pub open spec fn is_single_argument(text: Seq<char>) -> bool {
    argument_end(text) == Some(text.len() as int)
}

/// `value` as one argument: as it stands where, whitespace aside, it is a
/// single argument already, and in a group of its own otherwise.
pub open spec fn grouped(value: Seq<char>) -> Seq<char> {
    if is_single_argument(without_whitespace(value)) {
        value
    } else {
        seq!['('] + value + seq![')']
    }
}

/// `name(inner).value`: what a `let` of `name` to `value` in front of `inner`
/// stands for. The value is passed as one argument.
pub open spec fn let_wrapped(name: Seq<char>, value: Seq<char>, inner: Seq<char>) -> Seq<char> {
    name + seq!['('] + inner + seq![')', '.'] + grouped(value)
}

/// `text` with its leading `let name value;` definitions rewritten: each
/// wraps what follows it, so the first one ends up outermost. A `let`
/// without a name or without its terminator is refused.
pub open spec fn desugared_lets(text: Seq<char>) -> Result<Seq<char>, Failure>
    decreases text.len(),
{
    let start = without_leading_whitespace(text);
    if !starts_with_let(start) {
        Ok(text)
    } else {
        match first_index(start, ';') {
            None => Err(Failure::Syntax),
            Some(semicolon) => match let_parts(start.take(semicolon)) {
                None => Err(Failure::Syntax),
                Some((name, value)) => {
                    proof {
                        lemma_leading_whitespace_shortens(text);
                    }
                    match desugared_lets(start.skip(semicolon + 1)) {
                        Err(e) => Err(e),
                        Ok(inner) => Ok(let_wrapped(name, value, inner)),
                    }
                },
            },
        }
    }
}

/// Skipping leading whitespace does not make a text longer.
pub proof fn lemma_leading_whitespace_shortens(text: Seq<char>)
    ensures
        without_leading_whitespace(text).len() <= text.len(),
    decreases text.len(),
{
    if text.len() > 0 && white_space(text[0]) {
        lemma_leading_whitespace_shortens(text.skip(1));
    }
}

/// `inner` wrapped by the given `let` definitions, the first one outermost.
spec fn wrapped_by(lets: Seq<(Seq<char>, Seq<char>)>, inner: Seq<char>) -> Seq<char>
    decreases lets.len(),
{
    if lets.len() == 0 {
        inner
    } else {
        wrapped_by(lets.drop_last(), let_wrapped(lets.last().0, lets.last().1, inner))
    }
}

/// The names and values of collected definitions as sequences.
spec fn pairs_of(lets: Seq<(Vec<char>, Vec<char>)>) -> Seq<(Seq<char>, Seq<char>)> {
    Seq::new(lets.len(), |i: int| (lets[i].0@, lets[i].1@))
}

/// How many whitespace characters `text` begins with.
fn leading_whitespace(text: &[char]) -> (count: usize)
    ensures
        count <= text.len(),
        text@.skip(count as int) == without_leading_whitespace(text@),
{
    let mut count: usize = 0;
    assert(text@.skip(0) =~= text@);
    while count < text.len() && text[count].is_whitespace()
        invariant
            count <= text.len(),
            without_leading_whitespace(text@) == without_leading_whitespace(
                text@.skip(count as int),
            ),
        decreases text.len() - count,
    {
        assert(text@.skip(count as int).skip(1) =~= text@.skip(count + 1));
        count += 1;
    }
    count
}

/// Whether `text` begins with the keyword `let`.
fn begins_with_let(text: &[char]) -> (yes: bool)
    ensures
        yes == starts_with_let(text@),
{
    text.len() >= 3 && text[0] == 'l' && text[1] == 'e' && text[2] == 't'
}

/// `text` without its blanks.
fn without_blanks(text: &[char]) -> (kept: Vec<char>)
    ensures
        kept@ == text@.filter(not_blank()),
{
    let mut kept: Vec<char> = Vec::new();
    let mut i: usize = 0;
    assert(text@.take(0).filter(not_blank()) =~= Seq::<char>::empty()) by {
        reveal(Seq::filter);
    }
    while i < text.len()
        invariant
            i <= text.len(),
            kept@ == text@.take(i as int).filter(not_blank()),
        decreases text.len() - i,
    {
        let c = text[i];
        proof {
            reveal(Seq::filter);
            assert(text@.take(i + 1).drop_last() =~= text@.take(i as int));
            assert(text@.take(i + 1).last() == c);
        }
        if c != ' ' {
            kept.push(c);
        }
        i += 1;
    }
    assert(text@.take(text.len() as int) =~= text@);
    kept
}

/// A copy of `text`.
fn copy_of(text: &[char]) -> (copy: Vec<char>)
    ensures
        copy@ == text@,
{
    let mut copy: Vec<char> = Vec::new();
    append(&mut copy, text);
    assert(Seq::<char>::empty() + text@ =~= text@);
    copy
}

/// `value` as one argument.
fn group_value(value: &[char]) -> (result: Vec<char>)
    ensures
        result@ == grouped(value@),
{
    let stripped = strip_whitespace(value);
    let single = match find_argument_end(stripped.as_slice()) {
        Some(end) => end == stripped.len(),
        None => false,
    };
    let mut result: Vec<char> = Vec::new();
    if single {
        append(&mut result, value);
        assert(result@ =~= value@);
    } else {
        result.push('(');
        append(&mut result, value);
        result.push(')');
        assert(result@ =~= seq!['('] + value@ + seq![')']);
    }
    result
}

/// The name and the value of the `let` whose text, from the keyword up to
/// the terminator, is `head`.
fn split_let(head: &[char]) -> (parts: Option<(Vec<char>, Vec<char>)>)
    ensures
        match let_parts(head@) {
            Some((name, value)) => parts matches Some((n, v)) && n@ == name && v@ == value,
            None => parts is None,
        },
{
    let first = match find(head, ' ') {
        Some(first) => first,
        None => {
            return None;
        },
    };
    let length = head.len();
    let after = vstd::slice::slice_subrange(head, first + 1, length);
    assert(after@ =~= head@.skip(first + 1));
    match find(after, ' ') {
        None => Some((copy_of(after), Vec::new())),
        Some(second) => {
            let name = vstd::slice::slice_subrange(after, 0, second);
            let rest = vstd::slice::slice_subrange(after, second + 1, after.len());
            assert(name@ =~= after@.take(second as int));
            assert(rest@ =~= after@.skip(second + 1));
            Some((copy_of(name), without_blanks(rest)))
        },
    }
}

/// Rewrites the leading `let name value;` definitions of `text` into
/// `name(rest).value`, the first definition outermost.
pub fn replace_lets(text: &str) -> (result: Result<String, Failure>)
    ensures
        match desugared_lets(text@) {
            Ok(rewritten) => result matches Ok(s) && s@ == rewritten,
            Err(e) => result matches Err(x) && x == e,
        },
{
    let chars = chars_of(text);
    let mut lets: Vec<(Vec<char>, Vec<char>)> = Vec::new();
    let mut index: usize = 0;
    let mut more = true;
    assert(chars@.skip(0) =~= chars@);
    while more
        invariant
            index <= chars.len(),
            chars@ == text@,
            !more ==> !starts_with_let(without_leading_whitespace(chars@.skip(index as int))),
            match desugared_lets(chars@.skip(index as int)) {
                Ok(inner) => desugared_lets(chars@) == Ok::<Seq<char>, Failure>(
                    wrapped_by(pairs_of(lets@), inner),
                ),
                Err(e) => desugared_lets(chars@) == Err::<Seq<char>, Failure>(e),
            },
        decreases
                chars.len() - index + if more {
                    1int
                } else {
                    0int
                },
    {
        let rest = vstd::slice::slice_subrange(chars.as_slice(), index, chars.len());
        assert(rest@ =~= chars@.skip(index as int));
        let skipped = leading_whitespace(rest);
        let start = vstd::slice::slice_subrange(rest, skipped, rest.len());
        assert(start@ =~= rest@.skip(skipped as int));
        if !begins_with_let(start) {
            more = false;
        } else {
            let semicolon = match find(start, ';') {
                Some(semicolon) => semicolon,
                None => {
                    return Err(Failure::Syntax);
                },
            };
            let head = vstd::slice::slice_subrange(start, 0, semicolon);
            assert(head@ =~= start@.take(semicolon as int));
            let (name, value) = match split_let(head) {
                Some(parts) => parts,
                None => {
                    return Err(Failure::Syntax);
                },
            };
            let ghost before = pairs_of(lets@);
            lets.push((name, value));
            let next = index + skipped + semicolon + 1;
            proof {
                assert(chars@.skip(next as int) =~= start@.skip(semicolon + 1));
                assert(pairs_of(lets@) =~= before.push((name@, value@)));
                assert(pairs_of(lets@).drop_last() =~= before);
            }
            index = next;
        }
    }
    let tail = vstd::slice::slice_subrange(chars.as_slice(), index, chars.len());
    assert(tail@ =~= chars@.skip(index as int));
    let mut string = copy_of(tail);
    let mut k: usize = lets.len();
    assert(pairs_of(lets@).take(k as int) =~= pairs_of(lets@));
    while k > 0
        invariant
            k <= lets.len(),
            wrapped_by(pairs_of(lets@), tail@) == wrapped_by(
                pairs_of(lets@).take(k as int),
                string@,
            ),
        decreases k,
    {
        let ghost shown = pairs_of(lets@).take(k as int);
        k -= 1;
        let mut wrapped: Vec<char> = Vec::new();
        append(&mut wrapped, lets[k].0.as_slice());
        wrapped.push('(');
        append(&mut wrapped, string.as_slice());
        wrapped.push(')');
        wrapped.push('.');
        append(&mut wrapped, group_value(lets[k].1.as_slice()).as_slice());
        proof {
            let name = lets@[k as int].0@;
            let value = lets@[k as int].1@;
            assert(shown.last() == (name, value));
            assert(shown.drop_last() =~= pairs_of(lets@).take(k as int));
            assert(wrapped@ =~= let_wrapped(name, value, string@));
        }
        string = wrapped;
    }
    Ok(string_of(string.as_slice()))
}

/// The pattern of a parameter list: two or more names joined by commas, a
/// name being a run of characters other than `(`, `)`, `,` and `.`.
pub open spec fn comma_list_pattern() -> Seq<char> {
    "[^(),.]+(,[^(),.]+)+"@
}

/// How many characters of `text` are encoded before the byte `offset` of its
/// UTF-8 encoding.
pub open spec fn chars_before(text: Seq<char>, offset: int) -> int {
    decode_utf8(encode_utf8(text).subrange(0, offset)).len() as int
}

/// The first parameter list in `text`, as the positions of its first
/// character and of the character behind it.
pub open spec fn comma_list(text: Seq<char>) -> Option<(int, int)> {
    match regex_find(comma_list_pattern(), text) {
        Some((start, end)) => Some((chars_before(text, start), chars_before(text, end))),
        None => None,
    }
}

/// A parameter list turned into the heads of nested abstractions: every
/// comma becomes an opening delimiter and one more follows the last name.
pub open spec fn opened(list: Seq<char>) -> Seq<char> {
    Seq::new(
        list.len(),
        |i: int|
            if list[i] == ',' {
                '('
            } else {
                list[i]
            },
    ).push('(')
}

/// The closing delimiters that go with `opened(list)`: one for each name.
pub open spec fn closers(list: Seq<char>) -> Seq<char>
    decreases list.len(),
{
    if list.len() == 0 {
        seq![')']
    } else if list.last() == ',' {
        closers(list.drop_last()).push(')')
    } else {
        closers(list.drop_last())
    }
}

/// `text` with the parameter list at `start..end` expanded. The group that
/// follows the list is its body. Lists inside the body and behind it are
/// expanded too; what stands before the list has none.
pub open spec fn expanded_at(text: Seq<char>, start: int, end: int) -> Result<Seq<char>, Failure>
    decreases text.len(), 0int,
{
    if !(0 <= start <= end <= text.len()) {
        Ok(text)
    } else {
        match block_end(text.skip(end)) {
            None => Err(Failure::Syntax),
            Some(close) => {
                proof {
                    lemma_block_end_follows_opening(text.skip(end));
                }
                let list = text.subrange(start, end);
                match expanded_commas(text.subrange(end + 1, end + close)) {
                    Err(e) => Err(e),
                    Ok(body) => match expanded_commas(text.skip(end + close + 1)) {
                        Err(e) => Err(e),
                        Ok(tail) => Ok(
                            text.take(start) + opened(list) + body + closers(list) + tail,
                        ),
                    },
                }
            },
        }
    }
}

/// `text` with every parameter list `n1,n2,...,nk(body)` rewritten into the
/// nested abstractions `n1(n2(...nk(body)...))`.
pub open spec fn expanded_commas(text: Seq<char>) -> Result<Seq<char>, Failure>
    decreases text.len(), 1int,
{
    if !regex_accepts(comma_list_pattern()) {
        Err(Failure::Pattern)
    } else {
        match comma_list(text) {
            None => Ok(text),
            Some((start, end)) => expanded_at(text, start, end),
        }
    }
}

/// The text that a program stands for in the base notation: its `let`
/// definitions rewritten, its whitespace removed and its parameter lists
/// expanded, in that order.
pub open spec fn compiled(text: Seq<char>) -> Result<Seq<char>, Failure> {
    match desugared_lets(text) {
        Err(e) => Err(e),
        Ok(rewritten) => expanded_commas(without_whitespace(rewritten)),
    }
}

/// The heads of the nested abstractions for the parameter list `list`.
fn open_names(list: &[char]) -> (heads: Vec<char>)
    ensures
        heads@ == opened(list@),
{
    let mut heads: Vec<char> = Vec::new();
    let mut i: usize = 0;
    while i < list.len()
        invariant
            i <= list.len(),
            heads@.len() == i,
            forall|j: int| 0 <= j < i ==> heads@[j] == opened(list@)[j],
        decreases list.len() - i,
    {
        if list[i] == ',' {
            heads.push('(');
        } else {
            heads.push(list[i]);
        }
        i += 1;
    }
    heads.push('(');
    assert(heads@ =~= opened(list@));
    heads
}

/// The closing delimiters for the parameter list `list`.
fn close_names(list: &[char]) -> (tails: Vec<char>)
    ensures
        tails@ == closers(list@),
{
    let mut tails: Vec<char> = Vec::new();
    tails.push(')');
    let mut i: usize = 0;
    assert(list@.take(0) =~= Seq::<char>::empty());
    while i < list.len()
        invariant
            i <= list.len(),
            tails@ == closers(list@.take(i as int)),
        decreases list.len() - i,
    {
        proof {
            assert(list@.take(i + 1).drop_last() =~= list@.take(i as int));
            assert(list@.take(i + 1).last() == list@[i as int]);
        }
        if list[i] == ',' {
            tails.push(')');
        }
        i += 1;
    }
    assert(list@.take(list.len() as int) =~= list@);
    tails
}

/// Expands the parameter list that stands at `start..end` of `text`, and the
/// lists in its body and behind it. A range that does not lie within `text`
/// leaves the text as it is.
pub fn expand_comma_list(text: &[char], start: usize, end: usize) -> (result: Result<
    Vec<char>,
    Failure,
>)
    ensures
        match expanded_at(text@, start as int, end as int) {
            Ok(expanded) => result matches Ok(chars) && chars@ == expanded,
            Err(e) => result matches Err(x) && x == e,
        },
    decreases text.len(), 0int,
{
    let length = text.len();
    if !(start <= end && end <= length) {
        return Ok(copy_of(text));
    }
    let rest = vstd::slice::slice_subrange(text, end, length);
    assert(rest@ =~= text@.skip(end as int));
    let close = match find_block_end(rest) {
        Some(close) => close,
        None => {
            return Err(Failure::Syntax);
        },
    };
    proof {
        lemma_block_end_follows_opening(rest@);
    }
    let list = vstd::slice::slice_subrange(text, start, end);
    let body = vstd::slice::slice_subrange(text, end + 1, end + close);
    let tail = vstd::slice::slice_subrange(text, end + close + 1, length);
    assert(tail@ =~= text@.skip(end + close + 1));
    let new_body = match replace_comma_chars(body) {
        Ok(new_body) => new_body,
        Err(e) => {
            return Err(e);
        },
    };
    let new_tail = match replace_comma_chars(tail) {
        Ok(new_tail) => new_tail,
        Err(e) => {
            return Err(e);
        },
    };
    let mut string: Vec<char> = Vec::new();
    append(&mut string, vstd::slice::slice_subrange(text, 0, start));
    append(&mut string, open_names(list).as_slice());
    append(&mut string, new_body.as_slice());
    append(&mut string, close_names(list).as_slice());
    append(&mut string, new_tail.as_slice());
    assert(string@ =~= text@.take(start as int) + opened(list@) + new_body@ + closers(list@)
        + new_tail@);
    Ok(string)
}

/// Expands every parameter list in `text`.
pub fn replace_comma_chars(text: &[char]) -> (result: Result<Vec<char>, Failure>)
    ensures
        match expanded_commas(text@) {
            Ok(expanded) => result matches Ok(chars) && chars@ == expanded,
            Err(e) => result matches Err(x) && x == e,
        },
    decreases text.len(), 1int,
{
    let string = string_of(text);
    let haystack = string.as_str();
    match first_match("[^(),.]+(,[^(),.]+)+", haystack) {
        Err(_) => Err(Failure::Pattern),
        Ok(None) => Ok(copy_of(text)),
        Ok(Some((start, end))) => {
            let (before_start, _) = haystack.split_at(start);
            let (before_end, _) = haystack.split_at(end);
            let first = before_start.unicode_len();
            let behind = before_end.unicode_len();
            proof {
                vstd::utf8::encode_utf8_decode_utf8(before_start@);
                vstd::utf8::encode_utf8_decode_utf8(before_end@);
                assert(first == chars_before(text@, start as int));
                assert(behind == chars_before(text@, end as int));
            }
            expand_comma_list(text, first, behind)
        },
    }
}

/// Rewrites every parameter list `n1,n2,...,nk(body)` in `text` into the
/// nested abstractions `n1(n2(...nk(body)...))`.
pub fn replace_comma_definition(text: &str) -> (result: Result<String, Failure>)
    ensures
        match expanded_commas(text@) {
            Ok(expanded) => result matches Ok(s) && s@ == expanded,
            Err(e) => result matches Err(x) && x == e,
        },
{
    let chars = chars_of(text);
    match replace_comma_chars(chars.as_slice()) {
        Ok(expanded) => Ok(string_of(expanded.as_slice())),
        Err(e) => Err(e),
    }
}

/// Rewrites a program into the base notation that the parser reads.
pub fn compile(text: &str) -> (result: Result<String, Failure>)
    ensures
        match compiled(text@) {
            Ok(base) => result matches Ok(s) && s@ == base,
            Err(e) => result matches Err(x) && x == e,
        },
{
    let after_lets_replaced = match replace_lets(text) {
        Ok(rewritten) => rewritten,
        Err(e) => {
            return Err(e);
        },
    };
    let without_whitespace = crate::parser::remove_whitespace(after_lets_replaced.as_str());
    replace_comma_definition(without_whitespace.as_str())
}

} // verus!
