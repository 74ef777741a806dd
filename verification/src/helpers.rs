//! Delimiter matching and the rendering of terms as text.

use crate::term::{lemma_model_of_call, models, Lambda, Term};
use crate::text::{
    append, chars_of, first_index, lemma_first_index_before, spellings, string_of,
};
use vstd::prelude::*;

verus! {

/// How much an opening or closing delimiter changes the nesting depth.
pub open spec fn depth_change(c: char) -> int {
    if c == '(' {
        1
    } else if c == ')' {
        -1
    } else {
        0
    }
}

/// The nesting depth after `text`: opening minus closing delimiters.
pub open spec fn depth_after(text: Seq<char>) -> int
    decreases text.len(),
{
    if text.len() == 0 {
        0
    } else {
        depth_after(text.drop_last()) + depth_change(text.last())
    }
}

/// Whether position `i` closes the first group of `text`: a closing
/// delimiter that brings the depth back to zero, with no closing delimiter
/// before it that did so or that had nothing to close.
pub open spec fn is_block_end(text: Seq<char>, i: int) -> bool {
    &&& 0 <= i < text.len()
    &&& text[i] == ')'
    &&& depth_after(text.take(i + 1)) == 0
    &&& forall|j: int| 0 <= j < i && text[j] == ')' ==> depth_after(#[trigger] text.take(j + 1)) > 0
}

/// The position that closes the first group of `text`, if the delimiters up
/// to it are balanced.
pub open spec fn block_end(text: Seq<char>) -> Option<int> {
    if exists|i: int| is_block_end(text, i) {
        Some(choose|i: int| is_block_end(text, i))
    } else {
        None
    }
}

/// At most one position closes the first group.
pub proof fn lemma_block_end_unique(text: Seq<char>, i: int)
    requires
        is_block_end(text, i),
    ensures
        block_end(text) == Some(i),
{
    let chosen = choose|k: int| is_block_end(text, k);
    if chosen < i {
        assert(depth_after(text.take(chosen + 1)) > 0);
    } else if i < chosen {
        assert(depth_after(text.take(i + 1)) > 0);
    }
}

/// The depth after one more character.
pub proof fn lemma_depth_after_next(text: Seq<char>, i: int)
    requires
        0 <= i < text.len(),
    ensures
        depth_after(text.take(i + 1)) == depth_after(text.take(i)) + depth_change(text[i]),
{
    assert(text.take(i + 1).drop_last() =~= text.take(i));
}

/// Without an opening delimiter the depth does not rise.
proof fn lemma_depth_without_opening(text: Seq<char>, n: int)
    requires
        0 <= n <= text.len(),
        forall|j: int| 0 <= j < n ==> text[j] != '(',
    ensures
        depth_after(text.take(n)) <= 0,
    decreases n,
{
    if n > 0 {
        lemma_depth_without_opening(text, n - 1);
        lemma_depth_after_next(text, n - 1);
    }
}

/// A closed group is opened before it is closed.
pub proof fn lemma_block_end_follows_opening(text: Seq<char>)
    ensures
        block_end(text) matches Some(end) ==> {
            &&& 0 < end < text.len()
            &&& first_index(text, '(') matches Some(open) && open < end
        },
{
    if let Some(end) = block_end(text) {
        assert(is_block_end(text, end));
        if forall|j: int| 0 <= j < end ==> text[j] != '(' {
            lemma_depth_without_opening(text, end);
            lemma_depth_after_next(text, end);
        }
        let j = choose|j: int| 0 <= j < end && text[j] == '(';
        lemma_first_index_before(text, '(', j);
    }
}

/// The position of the delimiter that closes the first group of `text`.
/// `None` when no group is closed or a closing delimiter has nothing to
/// close.
pub fn find_block_end(text: &[char]) -> (end: Option<usize>)
    ensures
        match end {
            Some(i) => block_end(text@) == Some(i as int) && is_block_end(text@, i as int),
            None => block_end(text@) is None,
        },
{
    let mut stack: usize = 0;
    let mut index: usize = 0;
    while index < text.len()
        invariant
            index <= text.len(),
            stack == depth_after(text@.take(index as int)),
            stack <= index,
            forall|j: int|
                0 <= j < index && text@[j] == ')' ==> depth_after(#[trigger] text@.take(j + 1)) > 0,
        decreases text.len() - index,
    {
        let c = text[index];
        proof {
            lemma_depth_after_next(text@, index as int);
        }
        if c == '(' {
            stack += 1;
        }
        if c == ')' {
            if stack == 0 {
                assert forall|i: int| !is_block_end(text@, i) by {
                    if is_block_end(text@, i) && i > index {
                        assert(depth_after(text@.take(index + 1)) > 0);
                    }
                }
                return None;
            }
            stack -= 1;
            if stack == 0 {
                proof {
                    lemma_block_end_unique(text@, index as int);
                }
                return Some(index);
            }
        }
        index += 1;
    }
    assert forall|i: int| !is_block_end(text@, i) by {
        if is_block_end(text@, i) {
            assert(depth_after(text@.take(i + 1)) > 0);
        }
    }
    None
}

/// Whether every identity that `term` mentions is below `count`, so that a
/// table of `count` names has a name for each.
pub open spec fn covered(term: Term, count: nat) -> bool
    decreases term,
{
    match term {
        Term::Var(id) => id < count,
        Term::Abs(id, body, parameter) => {
            &&& id < count
            &&& covered(*body, count)
            &&& match parameter {
                Some(p) => covered(*p, count),
                None => true,
            }
        },
        Term::App(id, args) => {
            &&& id < count
            &&& forall|i: int| 0 <= i < args.len() ==> covered(#[trigger] args[i], count)
        },
    }
}

/// Whether a table of `count` names has a name for every identity in
/// `lambda`.
pub fn names_cover(lambda: &Lambda, count: usize) -> (yes: bool)
    ensures
        yes == covered(lambda@, count as nat),
    decreases lambda,
{
    match lambda {
        Lambda::Variable(id) => *id < count,
        Lambda::Definition { name_index, body, parameter } => {
            if !(*name_index < count) {
                return false;
            }
            if !names_cover(&**body, count) {
                return false;
            }
            match parameter {
                Some(p) => names_cover(&**p, count),
                None => true,
            }
        },
        Lambda::Call { name_index, parameters } => {
            proof {
                lemma_model_of_call(*name_index, *parameters);
            }
            if !(*name_index < count) {
                return false;
            }
            let mut i: usize = 0;
            while i < parameters.len()
                invariant
                    *lambda == (Lambda::Call { name_index: *name_index, parameters: *parameters }),
                    lambda@ == Term::App(*name_index as nat, models(parameters@)),
                    *name_index < count,
                    i <= parameters.len(),
                    forall|j: int|
                        0 <= j < i ==> covered(#[trigger] models(parameters@)[j], count as nat),
                decreases parameters.len() - i,
            {
                assert(decreases_to!(*lambda => lambda->parameters));
                if !names_cover(&parameters[i], count) {
                    assert(lambda@->App_1[i as int] == parameters@[i as int]@);
                    assert(!covered(lambda@->App_1[i as int], count as nat));
                    return false;
                }
                i += 1;
            }
            true
        },
    }
}

/// The one-line rendering of `term` with the names of `names`:
/// `name(body)`, followed by `.parameter` when there is one, and
/// `name.(argument).(argument)`.
pub open spec fn rendered(term: Term, names: Seq<Seq<char>>) -> Seq<char>
    decreases term,
{
    match term {
        Term::Var(id) => names[id as int],
        Term::Abs(id, body, parameter) => names[id as int] + seq!['('] + rendered(*body, names)
            + seq![')'] + match parameter {
            Some(p) => seq!['.'] + rendered(*p, names),
            None => Seq::empty(),
        },
        Term::App(id, args) => names[id as int] + rendered_arguments(args, names),
    }
}

/// The one-line rendering of the arguments of an application.
pub open spec fn rendered_arguments(args: Seq<Term>, names: Seq<Seq<char>>) -> Seq<char>
    decreases args,
{
    if args.len() == 0 {
        Seq::empty()
    } else {
        rendered_arguments(args.drop_last(), names) + seq!['.', '('] + rendered(args.last(), names)
            + seq![')']
    }
}

/// Appends the one-line rendering of `lambda` to `out`.
fn render(lambda: &Lambda, bindings: &Vec<String>, out: &mut Vec<char>)
    requires
        covered(lambda@, bindings@.len()),
    ensures
        final(out)@ == old(out)@ + rendered(lambda@, spellings(bindings@)),
    decreases lambda,
{
    let ghost names = spellings(bindings@);
    match lambda {
        Lambda::Variable(value) => {
            append(out, chars_of(bindings[*value].as_str()).as_slice());
        },
        Lambda::Definition { name_index, body, parameter } => {
            append(out, chars_of(bindings[*name_index].as_str()).as_slice());
            out.push('(');
            render(&**body, bindings, out);
            out.push(')');
            match parameter {
                Some(value) => {
                    out.push('.');
                    render(&**value, bindings, out);
                    assert(out@ =~= old(out)@ + rendered(lambda@, names));
                },
                None => {
                    assert(out@ =~= old(out)@ + rendered(lambda@, names));
                },
            }
        },
        Lambda::Call { name_index, parameters } => {
            proof {
                lemma_model_of_call(*name_index, *parameters);
            }
            append(out, chars_of(bindings[*name_index].as_str()).as_slice());
            let ghost args = models(parameters@);
            let ghost start = out@;
            let mut i: usize = 0;
            assert(args.take(0) =~= Seq::<Term>::empty());
            assert(lambda@->App_1 == args);
            assert forall|j: int| 0 <= j < args.len() implies covered(
                #[trigger] args[j],
                bindings@.len(),
            ) by {
                assert(covered(lambda@->App_1[j], bindings@.len()));
            }
            while i < parameters.len()
                invariant
                    *lambda == (Lambda::Call { name_index: *name_index, parameters: *parameters }),
                    args == models(parameters@),
                    names == spellings(bindings@),
                    forall|j: int|
                        0 <= j < args.len() ==> covered(#[trigger] args[j], bindings@.len()),
                    i <= parameters.len(),
                    out@ == start + rendered_arguments(args.take(i as int), names),
                decreases parameters.len() - i,
            {
                assert(decreases_to!(*lambda => lambda->parameters));
                out.push('.');
                out.push('(');
                assert(covered(args[i as int], bindings@.len()));
                render(&parameters[i], bindings, out);
                out.push(')');
                proof {
                    assert(args.take(i + 1).drop_last() =~= args.take(i as int));
                    assert(args.take(i + 1).last() == args[i as int]);
                    assert(out@ =~= start + rendered_arguments(args.take(i + 1), names));
                }
                i += 1;
            }
            assert(args.take(parameters.len() as int) =~= args);
            assert(out@ =~= old(out)@ + rendered(lambda@, names));
        },
    }
}

/// The one-line rendering of `lambda` with the names of `bindings`.
pub fn format_lambda(lambda: &Lambda, bindings: &Vec<String>) -> (string: String)
    requires
        covered(lambda@, bindings@.len()),
    ensures
        string@ == rendered(lambda@, spellings(bindings@)),
{
    let mut out: Vec<char> = Vec::new();
    render(lambda, bindings, &mut out);
    assert(Seq::<char>::empty() + rendered(lambda@, spellings(bindings@)) =~= rendered(
        lambda@,
        spellings(bindings@),
    ));
    string_of(out.as_slice())
}

/// An indentation of `depth` blanks.
pub open spec fn spaces(depth: nat) -> Seq<char> {
    Seq::new(depth, |i: int| ' ')
}

/// The indentation in front of a term: `depth` blanks where the term starts
/// a line, nothing where it continues one.
pub open spec fn lead(depth: nat, on_newline: bool) -> Seq<char> {
    if on_newline {
        spaces(depth)
    } else {
        Seq::empty()
    }
}

/// The multi-line rendering of `term`, indented by `depth` blanks. The body
/// of an abstraction stands on a line of its own, one level deeper; a
/// parameter and every argument start a line with a `.` at the level of
/// their owner. A variable is written without indentation.
pub open spec fn indented(term: Term, names: Seq<Seq<char>>, depth: nat, on_newline: bool) -> Seq<
    char,
>
    decreases term,
{
    match term {
        Term::Var(id) => names[id as int],
        Term::Abs(id, body, parameter) => lead(depth, on_newline) + names[id as int] + seq!['(']
            + spaces(depth) + seq!['\n'] + indented(*body, names, depth + 1, true) + seq![')']
            + match parameter {
            Some(p) => seq!['\n'] + spaces(depth) + seq!['.'] + indented(
                *p,
                names,
                depth + 1,
                false,
            ),
            None => Seq::empty(),
        },
        Term::App(id, args) => lead(depth, on_newline) + names[id as int] + indented_arguments(
            args,
            names,
            depth,
        ),
    }
}

/// The multi-line rendering of the arguments of an application.
pub open spec fn indented_arguments(args: Seq<Term>, names: Seq<Seq<char>>, depth: nat) -> Seq<
    char,
>
    decreases args,
{
    if args.len() == 0 {
        Seq::empty()
    } else {
        indented_arguments(args.drop_last(), names, depth) + seq!['\n'] + spaces(depth) + seq![
            '.',
            '(',
        ] + indented(args.last(), names, depth + 1, false) + seq![')']
    }
}

/// The multi-line rendering of `lambda`. `indent` holds the blanks of the
/// current level.
fn render_indented(
    lambda: &Lambda,
    bindings: &Vec<String>,
    indent: &Vec<char>,
    is_on_newline: bool,
) -> (out: Vec<char>)
    requires
        covered(lambda@, bindings@.len()),
        indent@ == spaces(indent@.len()),
    ensures
        out@ == indented(lambda@, spellings(bindings@), indent@.len(), is_on_newline),
    decreases lambda,
{
    let ghost names = spellings(bindings@);
    let ghost depth = indent@.len();
    let mut deeper: Vec<char> = Vec::new();
    append(&mut deeper, indent.as_slice());
    deeper.push(' ');
    assert(deeper@ =~= spaces(depth + 1));
    let mut out: Vec<char> = Vec::new();
    match lambda {
        Lambda::Variable(value) => {
            append(&mut out, chars_of(bindings[*value].as_str()).as_slice());
            assert(out@ =~= names[*value as int]);
        },
        Lambda::Definition { name_index, body, parameter } => {
            if is_on_newline {
                append(&mut out, indent.as_slice());
            }
            assert(out@ =~= lead(depth, is_on_newline));
            append(&mut out, chars_of(bindings[*name_index].as_str()).as_slice());
            let ghost shown = lead(depth, is_on_newline) + names[*name_index as int];
            assert(out@ == shown);
            out.push('(');
            let ghost shown = shown + seq!['('];
            assert(out@ =~= shown);
            append(&mut out, indent.as_slice());
            let ghost shown = shown + spaces(depth);
            assert(out@ == shown);
            out.push('\n');
            let ghost shown = shown + seq!['\n'];
            assert(out@ =~= shown);
            let inner = render_indented(&**body, bindings, &deeper, true);
            append(&mut out, inner.as_slice());
            let ghost shown = shown + indented(body@, names, depth + 1, true);
            assert(out@ == shown);
            out.push(')');
            let ghost shown = shown + seq![')'];
            assert(out@ =~= shown);
            match parameter {
                Some(value) => {
                    let mut applied: Vec<char> = Vec::new();
                    applied.push('\n');
                    assert(applied@ =~= seq!['\n']);
                    append(&mut applied, indent.as_slice());
                    applied.push('.');
                    assert(applied@ =~= seq!['\n'] + spaces(depth) + seq!['.']);
                    let argument = render_indented(&**value, bindings, &deeper, false);
                    append(&mut applied, argument.as_slice());
                    append(&mut out, applied.as_slice());
                },
                None => {
                    assert(out@ =~= shown + Seq::<char>::empty());
                },
            }
        },
        Lambda::Call { name_index, parameters } => {
            proof {
                lemma_model_of_call(*name_index, *parameters);
            }
            if is_on_newline {
                append(&mut out, indent.as_slice());
            }
            assert(out@ =~= lead(depth, is_on_newline));
            append(&mut out, chars_of(bindings[*name_index].as_str()).as_slice());
            let ghost args = models(parameters@);
            let mut rest: Vec<char> = Vec::new();
            let mut i: usize = 0;
            assert(args.take(0) =~= Seq::<Term>::empty());
            assert(lambda@->App_1 == args);
            assert forall|j: int| 0 <= j < args.len() implies covered(
                #[trigger] args[j],
                bindings@.len(),
            ) by {
                assert(covered(lambda@->App_1[j], bindings@.len()));
            }
            while i < parameters.len()
                invariant
                    *lambda == (Lambda::Call { name_index: *name_index, parameters: *parameters }),
                    args == models(parameters@),
                    names == spellings(bindings@),
                    depth == indent@.len(),
                    indent@ == spaces(depth),
                    deeper@ == spaces(depth + 1),
                    forall|j: int|
                        0 <= j < args.len() ==> covered(#[trigger] args[j], bindings@.len()),
                    i <= parameters.len(),
                    rest@ == indented_arguments(args.take(i as int), names, depth),
                decreases parameters.len() - i,
            {
                assert(decreases_to!(*lambda => lambda->parameters));
                let ghost shown = rest@;
                rest.push('\n');
                let ghost shown = shown + seq!['\n'];
                assert(rest@ =~= shown);
                append(&mut rest, indent.as_slice());
                let ghost shown = shown + spaces(depth);
                rest.push('.');
                rest.push('(');
                let ghost shown = shown + seq!['.', '('];
                assert(rest@ =~= shown);
                assert(covered(args[i as int], bindings@.len()));
                let argument = render_indented(&parameters[i], bindings, &deeper, false);
                append(&mut rest, argument.as_slice());
                let ghost shown = shown + indented(args[i as int], names, depth + 1, false);
                assert(rest@ == shown);
                rest.push(')');
                let ghost shown = shown + seq![')'];
                assert(rest@ =~= shown);
                proof {
                    assert(args.take(i + 1).drop_last() =~= args.take(i as int));
                    assert(args.take(i + 1).last() == args[i as int]);
                }
                i += 1;
            }
            assert(args.take(parameters.len() as int) =~= args);
            append(&mut out, rest.as_slice());
        },
    }
    out
}

/// The multi-line rendering of `lambda` with the names of `bindings`,
/// indented by `depth` blanks.
pub fn format_lambda_indented(
    lambda: &Lambda,
    bindings: &Vec<String>,
    depth: usize,
    is_on_newline: bool,
) -> (string: String)
    requires
        covered(lambda@, bindings@.len()),
    ensures
        string@ == indented(lambda@, spellings(bindings@), depth as nat, is_on_newline),
{
    let mut whitespaces: Vec<char> = Vec::new();
    let mut i: usize = 0;
    while i < depth
        invariant
            i <= depth,
            whitespaces@ == spaces(i as nat),
        decreases depth - i,
    {
        whitespaces.push(' ');
        assert(whitespaces@ =~= spaces((i + 1) as nat));
        i += 1;
    }
    let out = render_indented(lambda, bindings, &whitespaces, is_on_newline);
    string_of(out.as_slice())
}

/// The character of a decimal digit.
pub open spec fn digit(value: nat) -> char {
    if value == 0 {
        '0'
    } else if value == 1 {
        '1'
    } else if value == 2 {
        '2'
    } else if value == 3 {
        '3'
    } else if value == 4 {
        '4'
    } else if value == 5 {
        '5'
    } else if value == 6 {
        '6'
    } else if value == 7 {
        '7'
    } else if value == 8 {
        '8'
    } else {
        '9'
    }
}

/// The decimal numeral of `value`.
pub open spec fn decimal(value: nat) -> Seq<char>
    decreases value,
{
    if value < 10 {
        seq![digit(value)]
    } else {
        decimal(value / 10).push(digit(value % 10))
    }
}

/// The rendering of `term` with identities in place of names:
/// `id(body)`, followed by `.(parameter)` when there is one, and
/// `id.(argument).(argument)`.
pub open spec fn numbered(term: Term) -> Seq<char>
    decreases term,
{
    match term {
        Term::Var(id) => decimal(id),
        Term::Abs(id, body, parameter) => decimal(id) + seq!['('] + numbered(*body) + seq![')']
            + match parameter {
            Some(p) => seq!['.', '('] + numbered(*p) + seq![')'],
            None => Seq::empty(),
        },
        Term::App(id, args) => decimal(id) + numbered_arguments(args),
    }
}

/// The rendering of the arguments of an application with identities in
/// place of names.
pub open spec fn numbered_arguments(args: Seq<Term>) -> Seq<char>
    decreases args,
{
    if args.len() == 0 {
        Seq::empty()
    } else {
        numbered_arguments(args.drop_last()) + seq!['.', '('] + numbered(args.last()) + seq![')']
    }
}

/// The character of the decimal digit `value`.
fn digit_of(value: usize) -> (c: char)
    requires
        value < 10,
    ensures
        c == digit(value as nat),
{
    if value == 0 {
        '0'
    } else if value == 1 {
        '1'
    } else if value == 2 {
        '2'
    } else if value == 3 {
        '3'
    } else if value == 4 {
        '4'
    } else if value == 5 {
        '5'
    } else if value == 6 {
        '6'
    } else if value == 7 {
        '7'
    } else if value == 8 {
        '8'
    } else {
        '9'
    }
}

/// Appends the decimal numeral of `value` to `out`.
fn write_decimal(value: usize, out: &mut Vec<char>)
    ensures
        final(out)@ == old(out)@ + decimal(value as nat),
    decreases value,
{
    if value < 10 {
        out.push(digit_of(value));
        assert(out@ =~= old(out)@ + decimal(value as nat));
    } else {
        write_decimal(value / 10, out);
        out.push(digit_of(value % 10));
        assert(out@ =~= old(out)@ + decimal(value as nat));
    }
}

/// Appends the rendering of `lambda` with identities in place of names to
/// `out`.
fn render_numbered(lambda: &Lambda, out: &mut Vec<char>)
    ensures
        final(out)@ == old(out)@ + numbered(lambda@),
    decreases lambda,
{
    match lambda {
        Lambda::Variable(value) => {
            write_decimal(*value, out);
        },
        Lambda::Definition { name_index, body, parameter } => {
            write_decimal(*name_index, out);
            out.push('(');
            render_numbered(&**body, out);
            out.push(')');
            match parameter {
                Some(value) => {
                    out.push('.');
                    out.push('(');
                    render_numbered(&**value, out);
                    out.push(')');
                    assert(out@ =~= old(out)@ + numbered(lambda@));
                },
                None => {
                    assert(out@ =~= old(out)@ + numbered(lambda@));
                },
            }
        },
        Lambda::Call { name_index, parameters } => {
            proof {
                lemma_model_of_call(*name_index, *parameters);
            }
            write_decimal(*name_index, out);
            let ghost args = models(parameters@);
            let ghost start = out@;
            let mut i: usize = 0;
            assert(args.take(0) =~= Seq::<Term>::empty());
            while i < parameters.len()
                invariant
                    *lambda == (Lambda::Call { name_index: *name_index, parameters: *parameters }),
                    args == models(parameters@),
                    i <= parameters.len(),
                    out@ == start + numbered_arguments(args.take(i as int)),
                decreases parameters.len() - i,
            {
                assert(decreases_to!(*lambda => lambda->parameters));
                out.push('.');
                out.push('(');
                render_numbered(&parameters[i], out);
                out.push(')');
                proof {
                    assert(args.take(i + 1).drop_last() =~= args.take(i as int));
                    assert(args.take(i + 1).last() == args[i as int]);
                    assert(out@ =~= start + numbered_arguments(args.take(i + 1)));
                }
                i += 1;
            }
            assert(args.take(parameters.len() as int) =~= args);
            assert(out@ =~= old(out)@ + numbered(lambda@));
        },
    }
}

impl Lambda {
    /// The term as text, with identities in place of names.
    pub fn to_string(&self) -> (string: String)
        ensures
            string@ == numbered(self@),
    {
        let mut out: Vec<char> = Vec::new();
        render_numbered(self, &mut out);
        assert(Seq::<char>::empty() + numbered(self@) =~= numbered(self@));
        string_of(out.as_slice())
    }
}

} // verus!
