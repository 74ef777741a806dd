//! The table of names covers the terms: parsing mentions no identity without
//! an entry in the table, and reduction introduces none.

use crate::binder::{lemma_resolve_is_innermost, lemma_scope_steps_keep_wf, Scope};
use crate::helpers::covered;
use crate::helpers::lemma_block_end_follows_opening;
use crate::parser::{
    lemma_argument_end_in_range, parsed, parsed_arguments, parsed_call, parsed_definition,
    parsed_program, taken_parameter,
};
use crate::reducer::{
    after_each, fired, inserted, normal_form, replaced, replaced_each, step, step_each, Step,
    ARGUMENT_BUDGET,
};
use crate::term::Term;
use vstd::prelude::*;

verus! {

/// Whether a table of `count` names covers every term of `terms`.
pub open spec fn all_covered(terms: Seq<Term>, count: nat) -> bool {
    forall|i: int| 0 <= i < terms.len() ==> covered(#[trigger] terms[i], count)
}

/// A table that covers a term still covers it when it has grown.
pub proof fn lemma_covered_by_more(term: Term, count: nat, more: nat)
    requires
        covered(term, count),
        count <= more,
    ensures
        covered(term, more),
    decreases term,
{
    match term {
        Term::Var(_) => {},
        Term::Abs(_, body, parameter) => {
            lemma_covered_by_more(*body, count, more);
            match parameter {
                Some(p) => {
                    lemma_covered_by_more(*p, count, more);
                },
                None => {},
            }
        },
        Term::App(_, args) => {
            assert forall|i: int| 0 <= i < args.len() implies covered(#[trigger] args[i], more) by {
                lemma_covered_by_more(args[i], count, more);
            }
        },
    }
}

/// A table that covers terms still covers them when it has grown.
pub proof fn lemma_all_covered_by_more(terms: Seq<Term>, count: nat, more: nat)
    requires
        all_covered(terms, count),
        count <= more,
    ensures
        all_covered(terms, more),
{
    assert forall|i: int| 0 <= i < terms.len() implies covered(#[trigger] terms[i], more) by {
        lemma_covered_by_more(terms[i], count, more);
    }
}

/// What a well-formed scope resolves a name to has an entry in the table.
pub proof fn lemma_resolved_is_covered(scope: Scope, name: Seq<char>)
    requires
        scope.wf(),
    ensures
        scope.resolve(name) matches Some(id) ==> id < scope.next_id(),
        scope.refer(name).0 < scope.refer(name).1.next_id(),
        scope.next_id() <= scope.refer(name).1.next_id(),
{
    lemma_resolve_is_innermost(scope, name);
}

/// The table covers the arguments that were parsed.
pub proof fn lemma_parsed_arguments_covered(text: Seq<char>, scope: Scope)
    requires
        scope.wf(),
    ensures
        parsed_arguments(text, scope) matches Ok((terms, last)) ==> {
            &&& last.wf()
            &&& scope.next_id() <= last.next_id()
            &&& all_covered(terms, last.next_id())
        },
    decreases text.len(), 0int,
{
    if text.len() > 0 && text[0] == '.' {
        let rest = text.skip(1);
        if let Some(end) = crate::parser::argument_end(rest) {
            lemma_argument_end_in_range(rest);
            lemma_parsed_covered(rest.take(end), Seq::empty(), scope);
            if let Ok(first) = parsed(rest.take(end), Seq::empty(), scope) {
                lemma_parsed_arguments_covered(rest.skip(end), first.scope);
                if let Ok((others, last)) = parsed_arguments(rest.skip(end), first.scope) {
                    lemma_covered_by_more(first.term, first.scope.next_id(), last.next_id());
                }
            }
        }
    }
}

/// The table covers the abstraction that was parsed and what is still
/// pending.
pub proof fn lemma_parsed_definition_covered(text: Seq<char>, pending: Seq<Term>, scope: Scope)
    requires
        scope.wf(),
        all_covered(pending, scope.next_id()),
    ensures
        parsed_definition(text, pending, scope) matches Ok(whole) ==> {
            &&& whole.scope.wf()
            &&& scope.next_id() <= whole.scope.next_id()
            &&& covered(whole.term, whole.scope.next_id())
            &&& all_covered(whole.pending, whole.scope.next_id())
        },
    decreases text.len(), 1int,
{
    if let Some(name_end) = crate::text::first_index(text, '(') {
        let name = text.take(name_end);
        if scope.resolve(name) is None {
            if let Some(body_end) = crate::helpers::block_end(text) {
                lemma_block_end_follows_opening(text);
                let has_trailing = body_end + 1 < text.len();
                if has_trailing {
                    lemma_parsed_arguments_covered(text.skip(body_end + 1), scope);
                }
                let trailing = if has_trailing {
                    parsed_arguments(text.skip(body_end + 1), scope)
                } else {
                    Ok((Seq::empty(), scope))
                };
                if let Ok((arguments, outer)) = trailing {
                    let (parameter, waiting) = taken_parameter(has_trailing, arguments, pending);
                    let inner = outer.bind(name);
                    lemma_scope_steps_keep_wf(outer, name);
                    lemma_all_covered_by_more(pending, scope.next_id(), inner.next_id());
                    lemma_all_covered_by_more(arguments, outer.next_id(), inner.next_id());
                    assert(all_covered(waiting, inner.next_id()));
                    lemma_parsed_covered(text.subrange(name_end + 1, body_end), waiting, inner);
                    if let Ok(body) = parsed(
                        text.subrange(name_end + 1, body_end),
                        waiting,
                        inner,
                    ) {
                        lemma_scope_steps_keep_wf(body.scope, name);
                        match parameter {
                            Some(p) => {
                                assert(covered(p, inner.next_id()));
                                lemma_covered_by_more(p, inner.next_id(), body.scope.next_id());
                            },
                            None => {},
                        }
                    }
                }
            }
        }
    }
}

/// The table covers the application that was parsed.
pub proof fn lemma_parsed_call_covered(text: Seq<char>, pending: Seq<Term>, scope: Scope)
    requires
        scope.wf(),
        all_covered(pending, scope.next_id()),
    ensures
        parsed_call(text, pending, scope) matches Ok(whole) ==> {
            &&& whole.scope.wf()
            &&& scope.next_id() <= whole.scope.next_id()
            &&& covered(whole.term, whole.scope.next_id())
            &&& all_covered(whole.pending, whole.scope.next_id())
        },
    decreases text.len(), 1int,
{
    if let Some(name_end) = crate::text::first_index(text, '.') {
        lemma_parsed_arguments_covered(text.skip(name_end), scope);
        if let Ok((arguments, last)) = parsed_arguments(text.skip(name_end), scope) {
            lemma_all_covered_by_more(pending, scope.next_id(), last.next_id());
            lemma_resolved_is_covered(last, text.take(name_end));
        }
    }
}

/// The table covers the term that was parsed and what is still pending.
pub proof fn lemma_parsed_covered(text: Seq<char>, pending: Seq<Term>, scope: Scope)
    requires
        scope.wf(),
        all_covered(pending, scope.next_id()),
    ensures
        parsed(text, pending, scope) matches Ok(whole) ==> {
            &&& whole.scope.wf()
            &&& scope.next_id() <= whole.scope.next_id()
            &&& covered(whole.term, whole.scope.next_id())
            &&& all_covered(whole.pending, whole.scope.next_id())
        },
    decreases text.len(), 2int,
{
    if text.len() > 0 && text[0] == '(' {
        if let Some(end) = crate::helpers::block_end(text) {
            lemma_block_end_follows_opening(text);
            if end + 1 < text.len() {
                if text[end + 1] == '.' {
                    lemma_parsed_arguments_covered(text.skip(end + 1), scope);
                    if let Ok((arguments, next)) = parsed_arguments(text.skip(end + 1), scope) {
                        lemma_all_covered_by_more(pending, scope.next_id(), next.next_id());
                        lemma_parsed_covered(text.subrange(1, end), pending + arguments, next);
                    }
                }
            } else {
                lemma_parsed_covered(text.subrange(1, end), pending, scope);
            }
        }
    } else {
        match crate::parser::classify(text) {
            crate::parser::ParseType::Value => {
                lemma_resolved_is_covered(scope, text);
                lemma_scope_steps_keep_wf(scope, text);
                lemma_all_covered_by_more(
                    pending,
                    scope.next_id(),
                    scope.refer(text).1.next_id(),
                );
            },
            crate::parser::ParseType::Definition => {
                lemma_parsed_definition_covered(text, pending, scope);
            },
            crate::parser::ParseType::Call => {
                lemma_parsed_call_covered(text, pending, scope);
            },
        }
    }
}

/// The table of names of a parsed program covers its term.
pub proof fn lemma_parsed_program_is_covered(text: Seq<char>)
    ensures
        parsed_program(text) matches Ok((term, names)) ==> covered(term, names.len()),
{
    lemma_parsed_covered(crate::text::without_whitespace(text), Seq::empty(), Scope::empty());
}

/// Applying a covered term to covered arguments gives a covered term.
pub proof fn lemma_inserted_is_covered(root: Term, args: Seq<Term>, count: nat)
    requires
        covered(root, count),
        all_covered(args, count),
    ensures
        covered(inserted(root, args), count),
    decreases root,
{
    if args.len() > 0 {
        match root {
            Term::Var(_) => {},
            Term::Abs(_, body, parameter) => match parameter {
                None => {
                    assert(covered(args[0], count));
                    assert forall|i: int| 0 <= i < args.drop_first().len() implies covered(
                        #[trigger] args.drop_first()[i],
                        count,
                    ) by {
                        assert(covered(args[i + 1], count));
                    }
                    lemma_inserted_is_covered(*body, args.drop_first(), count);
                },
                Some(_) => {
                    lemma_inserted_is_covered(*body, args, count);
                },
            },
            Term::App(_, own) => {
                assert forall|i: int| 0 <= i < (own + args).len() implies covered(
                    #[trigger] (own + args)[i],
                    count,
                ) by {
                    if i < own.len() {
                        assert(covered(own[i], count));
                    } else {
                        assert(covered(args[i - own.len()], count));
                    }
                }
            },
        }
    }
}

/// Substituting a covered term into a covered term gives a covered term.
pub proof fn lemma_replaced_is_covered(name: nat, replacement: Term, body: Term, count: nat)
    requires
        covered(replacement, count),
        covered(body, count),
    ensures
        covered(replaced(name, replacement, body), count),
    decreases body,
{
    match body {
        Term::Var(_) => {},
        Term::Abs(id, inner, parameter) => {
            if id != name {
                lemma_replaced_is_covered(name, replacement, *inner, count);
                match parameter {
                    Some(p) => {
                        lemma_replaced_is_covered(name, replacement, *p, count);
                    },
                    None => {},
                }
            }
        },
        Term::App(id, args) => {
            let new_args = replaced_each(name, replacement, args);
            assert forall|i: int| 0 <= i < new_args.len() implies covered(
                #[trigger] new_args[i],
                count,
            ) by {
                assert(covered(args[i], count));
                lemma_replaced_is_covered(name, replacement, args[i], count);
            }
            if id == name {
                lemma_inserted_is_covered(replacement, new_args, count);
            }
        },
    }
}

/// Firing a covered redex gives a covered term.
pub proof fn lemma_fired_is_covered(term: Term, depth: nat, count: nat)
    requires
        covered(term, count),
    ensures
        fired(term, depth) matches Some(result) ==> covered(result, count),
    decreases depth, 0int, 0nat, term,
{
    match term {
        Term::Abs(id, body, Some(argument)) => {
            if depth > 0 {
                lemma_normal_form_is_covered(
                    *argument,
                    ARGUMENT_BUDGET as nat,
                    (depth - 1) as nat,
                    count,
                );
                match normal_form(*argument, ARGUMENT_BUDGET as nat, (depth - 1) as nat) {
                    Some(value) => {
                        lemma_replaced_is_covered(id, value, *body, count);
                    },
                    None => {},
                }
            }
        },
        _ => {},
    }
}

/// A rewrite step on a covered term gives a covered term.
pub proof fn lemma_step_is_covered(term: Term, depth: nat, count: nat)
    requires
        covered(term, count),
    ensures
        step(term, depth) matches Step::Reduced(next) ==> covered(next, count),
    decreases depth, 1int, 0nat, term,
{
    match term {
        Term::Var(_) => {},
        Term::Abs(id, body, parameter) => {
            lemma_step_is_covered(*body, depth, count);
            match step(*body, depth) {
                Step::Stuck => {
                    if parameter is Some {
                        lemma_fired_is_covered(term, depth, count);
                    }
                },
                _ => {},
            }
        },
        Term::App(id, args) => {
            let outcomes = step_each(args, depth);
            let next = after_each(args, outcomes);
            assert forall|i: int| 0 <= i < next.len() implies covered(
                #[trigger] next[i],
                count,
            ) by {
                assert(covered(args[i], count));
                lemma_step_is_covered(args[i], depth, count);
            }
        },
    }
}

/// Reduction introduces no identity: the normal form of a covered term is
/// covered.
pub proof fn lemma_normal_form_is_covered(term: Term, steps: nat, depth: nat, count: nat)
    requires
        covered(term, count),
    ensures
        normal_form(term, steps, depth) matches Some(result) ==> covered(result, count),
    decreases depth, 2int, steps, term,
{
    if steps > 0 {
        lemma_step_is_covered(term, depth, count);
        match step(term, depth) {
            Step::Reduced(next) => {
                lemma_normal_form_is_covered(next, (steps - 1) as nat, depth, count);
            },
            _ => {},
        }
    }
}

} // verus!
