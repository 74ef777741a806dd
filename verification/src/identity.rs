//! The identities of binders: every abstraction of a parsed program carries
//! an identity of its own.

use crate::binder::Scope;
use crate::helpers::lemma_block_end_follows_opening;
use crate::parser::{
    lemma_argument_end_in_range, parsed, parsed_arguments, parsed_call, parsed_definition,
    parsed_program, taken_parameter,
};
use crate::term::Term;
use vstd::prelude::*;

verus! {

/// How many abstractions in `term` carry the identity `id`.
pub open spec fn binder_count(term: Term, id: nat) -> nat
    decreases term,
{
    match term {
        Term::Var(_) => 0,
        Term::Abs(own, body, parameter) => (if own == id {
            1nat
        } else {
            0nat
        }) + binder_count(*body, id) + match parameter {
            Some(p) => binder_count(*p, id),
            None => 0,
        },
        Term::App(_, args) => binder_count_all(args, id),
    }
}

/// How many abstractions in the terms of `terms` carry the identity `id`.
pub open spec fn binder_count_all(terms: Seq<Term>, id: nat) -> nat
    decreases terms,
{
    if terms.len() == 0 {
        0
    } else {
        binder_count_all(terms.drop_last(), id) + binder_count(terms.last(), id)
    }
}

/// No two abstractions in `term` share an identity.
pub open spec fn distinct_binders(term: Term) -> bool {
    forall|id: nat| binder_count(term, id) <= 1
}

/// Counting over a concatenation adds up.
pub proof fn lemma_count_of_concatenation(left: Seq<Term>, right: Seq<Term>, id: nat)
    ensures
        binder_count_all(left + right, id) == binder_count_all(left, id) + binder_count_all(
            right,
            id,
        ),
    decreases right.len(),
{
    if right.len() == 0 {
        assert(left + right =~= left);
    } else {
        assert((left + right).drop_last() =~= left + right.drop_last());
        assert((left + right).last() == right.last());
        lemma_count_of_concatenation(left, right.drop_last(), id);
    }
}

/// Counting over a sequence splits into its first term and the others.
pub proof fn lemma_count_of_first(terms: Seq<Term>, id: nat)
    requires
        terms.len() > 0,
    ensures
        binder_count_all(terms, id) == binder_count(terms[0], id) + binder_count_all(
            terms.drop_first(),
            id,
        ),
{
    assert(terms =~= seq![terms[0]] + terms.drop_first());
    lemma_count_of_concatenation(seq![terms[0]], terms.drop_first(), id);
    assert(seq![terms[0]].drop_last() =~= Seq::<Term>::empty());
    assert(binder_count_all(Seq::<Term>::empty(), id) == 0);
    assert(seq![terms[0]].last() == terms[0]);
    assert(binder_count_all(seq![terms[0]], id) == binder_count(terms[0], id));
}

/// Whether `id` was handed out between the scopes `from` and `to`.
pub open spec fn handed_out(from: Scope, to: Scope, id: nat) -> nat {
    if from.next_id() <= id < to.next_id() {
        1
    } else {
        0
    }
}

/// Taking a parameter moves terms around and adds none.
pub proof fn lemma_taken_parameter_counts(
    has_trailing: bool,
    trailing: Seq<Term>,
    pending: Seq<Term>,
    id: nat,
)
    ensures
        ({
            let (parameter, waiting) = taken_parameter(has_trailing, trailing, pending);
            (match parameter {
                Some(p) => binder_count(p, id),
                None => 0,
            }) + binder_count_all(waiting, id) <= binder_count_all(pending, id) + binder_count_all(
                trailing,
                id,
            )
        }),
{
    if has_trailing {
        if trailing.len() > 0 {
            lemma_count_of_first(trailing, id);
            lemma_count_of_concatenation(pending, trailing.drop_first(), id);
        }
    } else {
        if pending.len() > 0 {
            lemma_count_of_first(pending, id);
        }
    }
}

/// Parsing arguments hands out a fresh identity to every abstraction it
/// builds.
pub proof fn lemma_parsed_arguments_count(text: Seq<char>, scope: Scope, id: nat)
    ensures
        parsed_arguments(text, scope) matches Ok((terms, last)) ==> {
            &&& scope.next_id() <= last.next_id()
            &&& binder_count_all(terms, id) <= handed_out(scope, last, id)
        },
    decreases text.len(), 0int,
{
    if text.len() > 0 && text[0] == '.' {
        let rest = text.skip(1);
        if let Some(end) = crate::parser::argument_end(rest) {
            lemma_argument_end_in_range(rest);
            lemma_parsed_count(rest.take(end), Seq::empty(), scope, id);
            if let Ok(first) = parsed(rest.take(end), Seq::empty(), scope) {
                lemma_parsed_arguments_count(rest.skip(end), first.scope, id);
                if let Ok((others, last)) = parsed_arguments(rest.skip(end), first.scope) {
                    lemma_count_of_concatenation(seq![first.term], others, id);
                    lemma_count_of_first(seq![first.term], id);
                }
            }
        }
    }
}

/// Parsing an abstraction hands out a fresh identity to it and to every
/// abstraction inside it; what was pending is passed on or used, never
/// doubled.
pub proof fn lemma_parsed_definition_count(
    text: Seq<char>,
    pending: Seq<Term>,
    scope: Scope,
    id: nat,
)
    requires
        binder_count_all(pending, id) > 0 ==> id < scope.next_id(),
    ensures
        parsed_definition(text, pending, scope) matches Ok(whole) ==> {
            &&& scope.next_id() <= whole.scope.next_id()
            &&& binder_count(whole.term, id) + binder_count_all(whole.pending, id)
                <= binder_count_all(pending, id) + handed_out(scope, whole.scope, id)
        },
    decreases text.len(), 1int,
{
    if let Some(name_end) = crate::text::first_index(text, '(') {
        let name = text.take(name_end);
        if scope.resolve(name) is None {
            if let Some(body_end) = crate::helpers::block_end(text) {
                lemma_block_end_follows_opening(text);
                let has_trailing = body_end + 1 < text.len();
                if has_trailing {
                    lemma_parsed_arguments_count(text.skip(body_end + 1), scope, id);
                }
                let trailing = if has_trailing {
                    parsed_arguments(text.skip(body_end + 1), scope)
                } else {
                    Ok((Seq::empty(), scope))
                };
                if let Ok((arguments, outer)) = trailing {
                    let (parameter, waiting) = taken_parameter(has_trailing, arguments, pending);
                    lemma_taken_parameter_counts(has_trailing, arguments, pending, id);
                    lemma_parsed_count(
                        text.subrange(name_end + 1, body_end),
                        waiting,
                        outer.bind(name),
                        id,
                    );
                }
            }
        }
    }
}

/// Parsing an application builds no abstraction of its own: it only gathers
/// its arguments and what was pending.
pub proof fn lemma_parsed_call_count(text: Seq<char>, pending: Seq<Term>, scope: Scope, id: nat)
    requires
        binder_count_all(pending, id) > 0 ==> id < scope.next_id(),
    ensures
        parsed_call(text, pending, scope) matches Ok(whole) ==> {
            &&& scope.next_id() <= whole.scope.next_id()
            &&& binder_count(whole.term, id) + binder_count_all(whole.pending, id)
                <= binder_count_all(pending, id) + handed_out(scope, whole.scope, id)
        },
    decreases text.len(), 1int,
{
    if let Some(name_end) = crate::text::first_index(text, '.') {
        lemma_parsed_arguments_count(text.skip(name_end), scope, id);
        if let Ok((arguments, last)) = parsed_arguments(text.skip(name_end), scope) {
            lemma_count_of_concatenation(arguments, pending, id);
        }
    }
}

/// Parsing hands out a fresh identity to every abstraction it builds; what
/// was pending is passed on or used, never doubled.
pub proof fn lemma_parsed_count(text: Seq<char>, pending: Seq<Term>, scope: Scope, id: nat)
    requires
        binder_count_all(pending, id) > 0 ==> id < scope.next_id(),
    ensures
        parsed(text, pending, scope) matches Ok(whole) ==> {
            &&& scope.next_id() <= whole.scope.next_id()
            &&& binder_count(whole.term, id) + binder_count_all(whole.pending, id)
                <= binder_count_all(pending, id) + handed_out(scope, whole.scope, id)
        },
    decreases text.len(), 2int,
{
    if text.len() > 0 && text[0] == '(' {
        if let Some(end) = crate::helpers::block_end(text) {
            lemma_block_end_follows_opening(text);
            if end + 1 < text.len() {
                if text[end + 1] == '.' {
                    lemma_parsed_arguments_count(text.skip(end + 1), scope, id);
                    if let Ok((arguments, next)) = parsed_arguments(text.skip(end + 1), scope) {
                        lemma_count_of_concatenation(pending, arguments, id);
                        lemma_parsed_count(text.subrange(1, end), pending + arguments, next, id);
                    }
                }
            } else {
                lemma_parsed_count(text.subrange(1, end), pending, scope, id);
            }
        }
    } else {
        match crate::parser::classify(text) {
            crate::parser::ParseType::Value => {},
            crate::parser::ParseType::Definition => {
                lemma_parsed_definition_count(text, pending, scope, id);
            },
            crate::parser::ParseType::Call => {
                lemma_parsed_call_count(text, pending, scope, id);
            },
        }
    }
}

/// Identity uniqueness: in the term of a parsed program no two abstractions
/// share an identity, whatever their names, and every identity of an
/// abstraction has its entry in the table of names.
pub proof fn lemma_parsed_program_has_distinct_binders(text: Seq<char>)
    ensures
        parsed_program(text) matches Ok((term, names)) ==> {
            &&& distinct_binders(term)
            &&& forall|id: nat| binder_count(term, id) > 0 ==> id < names.len()
        },
{
    if let Ok((term, names)) = parsed_program(text) {
        assert forall|id: nat| binder_count(term, id) <= 1 && (binder_count(term, id) > 0 ==> id
            < names.len()) by {
            lemma_parsed_count(
                crate::text::without_whitespace(text),
                Seq::empty(),
                Scope::empty(),
                id,
            );
        }
    }
}

} // verus!
