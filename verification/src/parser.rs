//! The recursive-descent parser: from whitespace-free text to a term whose
//! variables carry the identities of their binders.

use crate::binder::{lemma_scope_steps_keep_wf, Binder, Scope};
use crate::coverage::lemma_parsed_program_is_covered;
use crate::failure::Failure;
use crate::helpers::{block_end, covered, find_block_end, lemma_block_end_follows_opening};
use crate::identity::{distinct_binders, lemma_parsed_program_has_distinct_binders};
use crate::term::{models, Lambda, Term};
use crate::text::{
    chars_of, find, first_index, spellings, string_of, strip_whitespace, without_whitespace,
};
use std::collections::VecDeque;
use vstd::prelude::*;

verus! {

/// What a span of text is, judged by its first delimiter.
#[derive(Debug, Clone, Copy, PartialEq, Eq, Structural)]
pub enum ParseType {
    /// Neither `.` nor `(`: a bare variable.
    Value,
    /// A `(` before any `.`: an abstraction.
    Definition,
    /// A `.` first: an application.
    Call,
}

/// The kind of the span `text`.
pub open spec fn classify(text: Seq<char>) -> ParseType {
    match (first_index(text, '.'), first_index(text, '(')) {
        (None, None) => ParseType::Value,
        (None, Some(_)) => ParseType::Definition,
        (Some(_), None) => ParseType::Call,
        (Some(dot), Some(open)) => if open < dot {
            ParseType::Definition
        } else {
            ParseType::Call
        },
    }
}

/// Where the first argument of `rest` ends: behind its group when a `(`
/// comes before any `.`, else at the next `.`, else at the end. `None` when
/// the group is not closed.
pub open spec fn argument_end(rest: Seq<char>) -> Option<int> {
    match classify(rest) {
        ParseType::Definition => match block_end(rest) {
            Some(end) => Some(end + 1),
            None => None,
        },
        ParseType::Call => first_index(rest, '.'),
        ParseType::Value => Some(rest.len() as int),
    }
}

/// The result of parsing one span: the term, the arguments still waiting for
/// an abstraction to take them, and the scope afterwards.
pub struct Parsed {
    pub term: Term,
    pub pending: Seq<Term>,
    pub scope: Scope,
}

/// The arguments written in `text`, a run of `.argument` spans, parsed left
/// to right, each on its own: what an argument leaves pending is dropped.
pub open spec fn parsed_arguments(text: Seq<char>, scope: Scope) -> Result<
    (Seq<Term>, Scope),
    Failure,
>
    decreases text.len(), 0int,
{
    if text.len() == 0 {
        Ok((Seq::empty(), scope))
    } else if text[0] != '.' {
        Err(Failure::Syntax)
    } else {
        let rest = text.skip(1);
        match argument_end(rest) {
            None => Err(Failure::Syntax),
            Some(end) => {
                proof {
                    lemma_argument_end_in_range(rest);
                }
                match parsed(rest.take(end), Seq::empty(), scope) {
                    Err(e) => Err(e),
                    Ok(first) => match parsed_arguments(rest.skip(end), first.scope) {
                        Err(e) => Err(e),
                        Ok((others, last)) => Ok((seq![first.term] + others, last)),
                    },
                }
            },
        }
    }
}

/// The parameter that an abstraction takes and the arguments that stay
/// pending. Trailing arguments come first: the first of them is taken and the
/// others queue up behind what is pending. Without trailing arguments the
/// first pending one is taken.
pub open spec fn taken_parameter(has_trailing: bool, trailing: Seq<Term>, pending: Seq<Term>) -> (
    Option<Term>,
    Seq<Term>,
) {
    if has_trailing {
        if trailing.len() > 0 {
            (Some(trailing[0]), pending + trailing.drop_first())
        } else {
            (None, pending)
        }
    } else {
        if pending.len() > 0 {
            (Some(pending[0]), pending.drop_first())
        } else {
            (None, pending)
        }
    }
}

/// A term in a box, if there is one.
pub open spec fn boxed(term: Option<Term>) -> Option<Box<Term>> {
    match term {
        Some(t) => Some(Box::new(t)),
        None => None,
    }
}

/// The abstraction written in `text` as `name(body)` with optional trailing
/// arguments. The name must not be visible yet. The parameter is resolved in
/// the outer scope, before the name is bound; the body is parsed with the
/// name bound, and the innermost binding is dropped afterwards.
pub open spec fn parsed_definition(text: Seq<char>, pending: Seq<Term>, scope: Scope) -> Result<
    Parsed,
    Failure,
>
    decreases text.len(), 1int,
{
    match first_index(text, '(') {
        None => Err(Failure::Syntax),
        Some(name_end) => {
            let name = text.take(name_end);
            if scope.resolve(name) is Some {
                Err(Failure::Binding)
            } else {
                match block_end(text) {
                    None => Err(Failure::Syntax),
                    Some(body_end) => {
                        proof {
                            lemma_block_end_follows_opening(text);
                        }
                        let has_trailing = body_end + 1 < text.len();
                        let trailing = if has_trailing {
                            parsed_arguments(text.skip(body_end + 1), scope)
                        } else {
                            Ok((Seq::empty(), scope))
                        };
                        match trailing {
                            Err(e) => Err(e),
                            Ok((arguments, outer)) => {
                                let (parameter, waiting) = taken_parameter(
                                    has_trailing,
                                    arguments,
                                    pending,
                                );
                                match parsed(
                                    text.subrange(name_end + 1, body_end),
                                    waiting,
                                    outer.bind(name),
                                ) {
                                    Err(e) => Err(e),
                                    Ok(body) => Ok(
                                        Parsed {
                                            term: Term::Abs(
                                                outer.next_id(),
                                                Box::new(body.term),
                                                boxed(parameter),
                                            ),
                                            pending: body.pending,
                                            scope: body.scope.unbind(),
                                        },
                                    ),
                                }
                            },
                        }
                    },
                }
            }
        },
    }
}

/// The application written in `text` as `name.argument...`. Its own
/// arguments come first, then everything that is pending. The name is
/// resolved after the arguments were parsed and must be visible then.
pub open spec fn parsed_call(text: Seq<char>, pending: Seq<Term>, scope: Scope) -> Result<
    Parsed,
    Failure,
>
    decreases text.len(), 1int,
{
    match first_index(text, '.') {
        None => Err(Failure::Syntax),
        Some(name_end) => match parsed_arguments(text.skip(name_end), scope) {
            Err(e) => Err(e),
            Ok((arguments, last)) => match last.resolve(text.take(name_end)) {
                None => Err(Failure::Syntax),
                Some(id) => Ok(
                    Parsed {
                        term: Term::App(id, arguments + pending),
                        pending: Seq::empty(),
                        scope: last,
                    },
                ),
            },
        },
    }
}

/// The term written in `text`. A leading group is only grouping: what
/// follows it are arguments that queue up behind the pending ones, and the
/// inside of the group is parsed in their place.
pub open spec fn parsed(text: Seq<char>, pending: Seq<Term>, scope: Scope) -> Result<
    Parsed,
    Failure,
>
    decreases text.len(), 2int,
{
    if text.len() > 0 && text[0] == '(' {
        match block_end(text) {
            None => Err(Failure::Syntax),
            Some(end) => {
                proof {
                    lemma_block_end_follows_opening(text);
                }
                if end + 1 < text.len() {
                    if text[end + 1] != '.' {
                        Err(Failure::Syntax)
                    } else {
                        match parsed_arguments(text.skip(end + 1), scope) {
                            Err(e) => Err(e),
                            Ok((arguments, next)) => parsed(
                                text.subrange(1, end),
                                pending + arguments,
                                next,
                            ),
                        }
                    }
                } else {
                    parsed(text.subrange(1, end), pending, scope)
                }
            },
        }
    } else {
        match classify(text) {
            ParseType::Value => {
                let (id, next) = scope.refer(text);
                Ok(Parsed { term: Term::Var(id), pending, scope: next })
            },
            ParseType::Definition => parsed_definition(text, pending, scope),
            ParseType::Call => parsed_call(text, pending, scope),
        }
    }
}

/// The term written in `text` and the table of the names it binds, indexed
/// by identity. Whitespace is insignificant.
pub open spec fn parsed_program(text: Seq<char>) -> Result<(Term, Seq<Seq<char>>), Failure> {
    match parsed(without_whitespace(text), Seq::empty(), Scope::empty()) {
        Ok(whole) => Ok((whole.term, whole.scope.names)),
        Err(e) => Err(e),
    }
}

/// The end of an argument lies within the text.
pub proof fn lemma_argument_end_in_range(rest: Seq<char>)
    ensures
        argument_end(rest) matches Some(end) ==> 0 <= end <= rest.len(),
{
}

impl Lambda {
    /// A reference to `value`: to its innermost visible binding, or else to
    /// a fresh binding that stands for a free variable.
    pub fn new_var(value: &str, binder: &mut Binder) -> (term: Lambda)
        requires
            old(binder)@.wf(),
        ensures
            term@ == Term::Var(old(binder)@.refer(value@).0),
            final(binder)@ == old(binder)@.refer(value@).1,
            final(binder)@.wf(),
    {
        proof {
            lemma_scope_steps_keep_wf(binder@, value@);
        }
        let found = binder.find_index(value);
        let index = match found {
            Some(index) => index,
            None => binder.new_binding(value.to_owned()),
        };
        Lambda::Variable(index)
    }

    /// The application of `function_name` to `parameter`. The name must have
    /// a visible binding.
    pub fn new_call(function_name: &str, parameter: Vec<Lambda>, binder: &mut Binder) -> (result:
        Result<Lambda, Failure>)
        requires
            old(binder)@.wf(),
        ensures
            *final(binder) == *old(binder),
            match old(binder)@.resolve(function_name@) {
                Some(id) => result matches Ok(term) && term@ == Term::App(id, models(parameter@)),
                None => result matches Err(Failure::Syntax),
            },
    {
        match binder.find_index(function_name) {
            Some(name_index) => Ok(Lambda::call(name_index, parameter)),
            None => Err(Failure::Syntax),
        }
    }
}

/// The kind of the span `text`.
pub fn get_type(text: &[char]) -> (kind: ParseType)
    ensures
        kind == classify(text@),
{
    let call_start = find(text, '.');
    let definition_start = find(text, '(');
    match (call_start, definition_start) {
        (None, None) => ParseType::Value,
        (None, Some(_)) => ParseType::Definition,
        (Some(_), None) => ParseType::Call,
        (Some(dot), Some(open)) => if open < dot {
            ParseType::Definition
        } else {
            ParseType::Call
        },
    }
}

/// Where the first argument of `rest` ends.
pub fn find_argument_end(rest: &[char]) -> (end: Option<usize>)
    ensures
        match end {
            Some(i) => argument_end(rest@) == Some(i as int) && i <= rest.len(),
            None => argument_end(rest@) is None,
        },
{
    let length = rest.len();
    match get_type(rest) {
        ParseType::Definition => match find_block_end(rest) {
            Some(end) => Some(end + 1),
            None => None,
        },
        ParseType::Call => find(rest, '.'),
        ParseType::Value => Some(length),
    }
}

/// The items of a queue, in order.
fn into_vec(queue: VecDeque<Lambda>) -> (items: Vec<Lambda>)
    ensures
        items@ == queue@,
{
    let mut rest = queue;
    let mut items: Vec<Lambda> = Vec::new();
    while rest.len() > 0
        invariant
            items@ + rest@ == queue@,
        decreases rest@.len(),
    {
        let ghost before = rest@;
        match rest.pop_front() {
            Some(item) => {
                items.push(item);
                assert(items@ + rest@ =~= items@.drop_last() + before);
            },
            None => {},
        }
    }
    assert(items@ + rest@ =~= items@);
    items
}

/// Parses the application `name.argument...`.
pub fn parse_call(text: &[char], arguments: &mut VecDeque<Lambda>, binder: &mut Binder) -> (result:
    Result<Lambda, Failure>)
    requires
        old(binder)@.wf(),
    ensures
        final(binder)@.wf(),
        match parsed_call(text@, models(old(arguments)@), old(binder)@) {
            Ok(whole) => {
                &&& result matches Ok(term) && term@ == whole.term
                &&& models(final(arguments)@) == whole.pending
                &&& final(binder)@ == whole.scope
            },
            Err(e) => result matches Err(x) && x == e,
        },
    decreases text.len(), 1int,
{
    let name_end = match find(text, '.') {
        Some(name_end) => name_end,
        None => {
            return Err(Failure::Syntax);
        },
    };
    let name = string_of(vstd::slice::slice_subrange(text, 0, name_end));
    let mut args = match parse_arguments(
        vstd::slice::slice_subrange(text, name_end, text.len()),
        binder,
    ) {
        Ok(args) => args,
        Err(e) => {
            return Err(e);
        },
    };
    let ghost own = args@;
    args.append(arguments);
    assert(models(args@) =~= models(own) + models(old(arguments)@));
    assert(models(arguments@) =~= Seq::<Term>::empty());
    Lambda::new_call(name.as_str(), into_vec(args), binder)
}

/// Parses a run of `.argument` spans.
pub fn parse_arguments(text: &[char], binder: &mut Binder) -> (result: Result<
    VecDeque<Lambda>,
    Failure,
>)
    requires
        old(binder)@.wf(),
    ensures
        final(binder)@.wf(),
        match parsed_arguments(text@, old(binder)@) {
            Ok((terms, scope)) => {
                &&& result matches Ok(args) && models(args@) == terms
                &&& final(binder)@ == scope
            },
            Err(e) => result matches Err(x) && x == e,
        },
    decreases text.len(), 0int,
{
    let mut args: VecDeque<Lambda> = VecDeque::new();
    let mut rest: &[char] = text;
    assert(models(args@) =~= Seq::<Term>::empty());
    while rest.len() > 0
        invariant
            rest@.len() <= text@.len(),
            binder@.wf(),
            match parsed_arguments(rest@, binder@) {
                Ok((others, last)) => parsed_arguments(text@, old(binder)@) == Ok::<
                    (Seq<Term>, Scope),
                    Failure,
                >((models(args@) + others, last)),
                Err(e) => parsed_arguments(text@, old(binder)@) == Err::<
                    (Seq<Term>, Scope),
                    Failure,
                >(e),
            },
        decreases rest@.len(),
    {
        if rest[0] != '.' {
            return Err(Failure::Syntax);
        }
        let tail = vstd::slice::slice_subrange(rest, 1, rest.len());
        assert(tail@ =~= rest@.skip(1));
        let arg_end = match find_argument_end(tail) {
            Some(end) => end,
            None => {
                return Err(Failure::Syntax);
            },
        };
        assert(argument_end(tail@) == Some(arg_end as int));
        let arg_text = vstd::slice::slice_subrange(tail, 0, arg_end);
        assert(arg_text@ =~= tail@.take(arg_end as int));
        let mut fresh: VecDeque<Lambda> = VecDeque::new();
        assert(models(fresh@) =~= Seq::<Term>::empty());
        let ghost before = models(args@);
        let arg = match parse(arg_text, &mut fresh, binder) {
            Ok(arg) => arg,
            Err(e) => {
                return Err(e);
            },
        };
        args.push_back(arg);
        let next = vstd::slice::slice_subrange(tail, arg_end, tail.len());
        assert(next@ =~= tail@.skip(arg_end as int));
        proof {
            assert(models(args@) =~= before + seq![arg@]);
            match parsed_arguments(next@, binder@) {
                Ok((others, last)) => {
                    assert(models(args@) + others =~= before + (seq![arg@] + others));
                },
                Err(e) => {},
            }
        }
        rest = next;
    }
    assert(models(args@) + Seq::<Term>::empty() =~= models(args@));
    Ok(args)
}

/// Parses the abstraction `name(body)` with its trailing arguments.
pub fn parse_definition(
    text: &[char],
    arguments: &mut VecDeque<Lambda>,
    binder: &mut Binder,
) -> (result: Result<Lambda, Failure>)
    requires
        old(binder)@.wf(),
    ensures
        final(binder)@.wf(),
        match parsed_definition(text@, models(old(arguments)@), old(binder)@) {
            Ok(whole) => {
                &&& result matches Ok(term) && term@ == whole.term
                &&& models(final(arguments)@) == whole.pending
                &&& final(binder)@ == whole.scope
            },
            Err(e) => result matches Err(x) && x == e,
        },
    decreases text.len(), 1int,
{
    let name_end = match find(text, '(') {
        Some(name_end) => name_end,
        None => {
            return Err(Failure::Syntax);
        },
    };
    let name = string_of(vstd::slice::slice_subrange(text, 0, name_end));
    if binder.find_index(name.as_str()).is_some() {
        return Err(Failure::Binding);
    }
    let body_end = match find_block_end(text) {
        Some(body_end) => body_end,
        None => {
            return Err(Failure::Syntax);
        },
    };
    proof {
        lemma_block_end_follows_opening(text@);
    }
    let ghost pending = models(arguments@);
    let parameter = if body_end + 1 < text.len() {
        let mut trailing = match parse_arguments(
            vstd::slice::slice_subrange(text, body_end + 1, text.len()),
            binder,
        ) {
            Ok(trailing) => trailing,
            Err(e) => {
                return Err(e);
            },
        };
        let ghost all = models(trailing@);
        let argument = trailing.pop_front();
        assert(models(trailing@) =~= if all.len() > 0 {
            all.drop_first()
        } else {
            all
        });
        let ghost surplus = models(trailing@);
        arguments.append(&mut trailing);
        assert(models(arguments@) =~= pending + surplus);
        argument
    } else {
        let argument = arguments.pop_front();
        assert(models(arguments@) =~= if pending.len() > 0 {
            pending.drop_first()
        } else {
            pending
        });
        argument
    };
    proof {
        lemma_scope_steps_keep_wf(binder@, name@);
    }
    let name_index = binder.new_binding(name);
    let body = match parse(
        vstd::slice::slice_subrange(text, name_end + 1, body_end),
        arguments,
        binder,
    ) {
        Ok(body) => body,
        Err(e) => {
            return Err(e);
        },
    };
    binder.pop_binding();
    Ok(Lambda::def(name_index, body, parameter))
}

/// Parses the term written in `text`. `arguments` holds what is waiting for
/// an abstraction to take it.
pub fn parse(text: &[char], arguments: &mut VecDeque<Lambda>, binder: &mut Binder) -> (result:
    Result<Lambda, Failure>)
    requires
        old(binder)@.wf(),
    ensures
        final(binder)@.wf(),
        match parsed(text@, models(old(arguments)@), old(binder)@) {
            Ok(whole) => {
                &&& result matches Ok(term) && term@ == whole.term
                &&& models(final(arguments)@) == whole.pending
                &&& final(binder)@ == whole.scope
            },
            Err(e) => result matches Err(x) && x == e,
        },
    decreases text.len(), 2int,
{
    if text.len() > 0 && text[0] == '(' {
        let end = match find_block_end(text) {
            Some(end) => end,
            None => {
                return Err(Failure::Syntax);
            },
        };
        proof {
            lemma_block_end_follows_opening(text@);
        }
        if end < text.len() - 1 {
            if text[end + 1] != '.' {
                return Err(Failure::Syntax);
            }
            let ghost pending = models(arguments@);
            let mut args = match parse_arguments(
                vstd::slice::slice_subrange(text, end + 1, text.len()),
                binder,
            ) {
                Ok(args) => args,
                Err(e) => {
                    return Err(e);
                },
            };
            let ghost extra = models(args@);
            arguments.append(&mut args);
            assert(models(arguments@) =~= pending + extra);
        }
        return parse(vstd::slice::slice_subrange(text, 1, end), arguments, binder);
    }
    match get_type(text) {
        ParseType::Value => {
            let name = string_of(text);
            Ok(Lambda::new_var(name.as_str(), binder))
        },
        ParseType::Definition => parse_definition(text, arguments, binder),
        ParseType::Call => parse_call(text, arguments, binder),
    }
}

/// `text` without its whitespace.
pub fn remove_whitespace(text: &str) -> (stripped: String)
    ensures
        stripped@ == without_whitespace(text@),
{
    let chars = chars_of(text);
    let kept = strip_whitespace(chars.as_slice());
    string_of(kept.as_slice())
}

/// Parses a whole program. Gives the term and the table of the names it
/// binds, indexed by identity. No two abstractions of the term share an
/// identity, and the table has a name for every identity in the term.
pub fn parse_program(text: &str) -> (result: Result<(Lambda, Vec<String>), Failure>)
    ensures
        match parsed_program(text@) {
            Ok((term, names)) => result matches Ok((parsed_term, table)) && parsed_term@ == term
                && spellings(table@) == names,
            Err(e) => result matches Err(x) && x == e,
        },
        result matches Ok((parsed_term, table)) ==> {
            &&& distinct_binders(parsed_term@)
            &&& covered(parsed_term@, table@.len())
        },
{
    proof {
        lemma_parsed_program_has_distinct_binders(text@);
        lemma_parsed_program_is_covered(text@);
    }
    let mut arguments: VecDeque<Lambda> = VecDeque::new();
    let mut binder = Binder::new();
    let chars = chars_of(text);
    let kept = strip_whitespace(chars.as_slice());
    assert(models(arguments@) =~= Seq::<Term>::empty());
    match parse(kept.as_slice(), &mut arguments, &mut binder) {
        Ok(term) => {
            let ghost names = binder@.names;
            let table = binder.into_names();
            assert(spellings(table@) =~= names);
            Ok((term, table))
        },
        Err(e) => Err(e),
    }
}

} // verus!
