//! Capture-avoiding beta-reduction under a bounded search.

use crate::failure::Failure;
use crate::term::{lemma_model_of_call, models, Lambda, Term};
use std::collections::VecDeque;
use vstd::prelude::*;
use vstd::std_specs::vecdeque::VecDequeAdditionalSpecFns;

verus! {

/// How many rewrite steps the argument of a redex is given to reach its
/// normal form before it is substituted.
pub const ARGUMENT_BUDGET: usize = 10;

/// How deeply the normalisation of an argument may itself have to normalise
/// arguments. A run that needs more is reported as divergent.
pub const NESTING_LIMIT: usize = 1000;

/// `root` applied to `args`: each argument fills the first free parameter
/// slot on the way down the bodies; what is left over when a variable or an
/// application is reached becomes its arguments.
pub open spec fn inserted(root: Term, args: Seq<Term>) -> Term
    decreases root,
{
    if args.len() == 0 {
        root
    } else {
        match root {
            Term::Var(id) => Term::App(id, args),
            Term::Abs(id, body, parameter) => match parameter {
                None => Term::Abs(
                    id,
                    Box::new(inserted(*body, args.drop_first())),
                    Some(Box::new(args[0])),
                ),
                Some(p) => Term::Abs(id, Box::new(inserted(*body, args)), Some(p)),
            },
            Term::App(id, own) => Term::App(id, own + args),
        }
    }
}

/// `body` with `replacement` put in place of the binder `name`. A variable
/// `name` becomes the replacement; an application of `name` becomes the
/// replacement applied to the substituted arguments. A nested binder with the
/// same identity is opened: its body takes its place as it stands.
pub open spec fn replaced(name: nat, replacement: Term, body: Term) -> Term
    decreases body,
{
    match body {
        Term::Var(id) => if id == name {
            replacement
        } else {
            body
        },
        Term::Abs(id, inner, parameter) => if id == name {
            *inner
        } else {
            Term::Abs(
                id,
                Box::new(replaced(name, replacement, *inner)),
                match parameter {
                    Some(p) => Some(Box::new(replaced(name, replacement, *p))),
                    None => None,
                },
            )
        },
        Term::App(id, args) => if id == name {
            inserted(replacement, replaced_each(name, replacement, args))
        } else {
            Term::App(id, replaced_each(name, replacement, args))
        },
    }
}

/// Every term of `terms` with `replacement` put in place of the binder
/// `name`.
pub open spec fn replaced_each(name: nat, replacement: Term, terms: Seq<Term>) -> Seq<Term>
    decreases terms,
{
    Seq::new(
        terms.len(),
        |i: int|
            if 0 <= i < terms.len() {
                replaced(name, replacement, terms[i])
            } else {
                replacement
            },
    )
}

/// What one look for a rewrite step finds.
pub enum Step {
    /// A step was taken; the term after it.
    Reduced(Term),
    /// No step applies: the term is in normal form.
    Stuck,
    /// An argument did not reach its normal form within its budget.
    Exhausted,
}

/// Whether `term` is an abstraction that carries an argument.
pub open spec fn is_redex(term: Term) -> bool {
    term matches Term::Abs(_, _, Some(_))
}

/// The redex `term` fired: its argument is normalised within
/// `ARGUMENT_BUDGET` steps, one nesting level down, and then substituted into
/// the body. `None` when the argument does not get there.
pub open spec fn fired(term: Term, depth: nat) -> Option<Term>
    decreases depth, 0int, 0nat, term,
{
    match term {
        Term::Abs(id, body, Some(argument)) => if depth == 0 {
            None
        } else {
            match normal_form(*argument, ARGUMENT_BUDGET as nat, (depth - 1) as nat) {
                Some(value) => Some(replaced(id, value, *body)),
                None => None,
            }
        },
        _ => None,
    }
}

/// The outcome of looking for one rewrite step in `term`. An abstraction
/// first looks inside its body and fires itself only when the body is stuck;
/// an application takes one step in every argument that has one.
pub open spec fn step(term: Term, depth: nat) -> Step
    decreases depth, 1int, 0nat, term,
{
    match term {
        Term::Var(_) => Step::Stuck,
        Term::Abs(id, body, parameter) => match step(*body, depth) {
            Step::Exhausted => Step::Exhausted,
            Step::Reduced(new_body) => Step::Reduced(Term::Abs(id, Box::new(new_body), parameter)),
            Step::Stuck => match parameter {
                None => Step::Stuck,
                Some(_) => match fired(term, depth) {
                    Some(result) => Step::Reduced(result),
                    None => Step::Exhausted,
                },
            },
        },
        Term::App(id, args) => {
            let outcomes = step_each(args, depth);
            if exists|i: int| 0 <= i < outcomes.len() && #[trigger] outcomes[i] is Exhausted {
                Step::Exhausted
            } else if exists|i: int| 0 <= i < outcomes.len() && #[trigger] outcomes[i] is Reduced {
                Step::Reduced(Term::App(id, after_each(args, outcomes)))
            } else {
                Step::Stuck
            }
        },
    }
}

/// The outcome of looking for one rewrite step in each term of `terms`.
pub open spec fn step_each(terms: Seq<Term>, depth: nat) -> Seq<Step>
    decreases depth, 1int, 0nat, terms,
{
    Seq::new(
        terms.len(),
        |i: int|
            if 0 <= i < terms.len() {
                step(terms[i], depth)
            } else {
                Step::Stuck
            },
    )
}

/// The term that stands where `term` stood once `outcome` was found for it.
pub open spec fn after(term: Term, outcome: Step) -> Term {
    match outcome {
        Step::Reduced(next) => next,
        _ => term,
    }
}

/// The terms that stand where `terms` stood once `outcomes` were found for
/// them, one for one.
pub open spec fn after_each(terms: Seq<Term>, outcomes: Seq<Step>) -> Seq<Term> {
    Seq::new(terms.len(), |i: int| after(terms[i], outcomes[i]))
}

/// The normal form of `term`, if it is reached by fewer than `steps` rewrite
/// steps; the look that finds the term stuck counts against the budget too.
pub open spec fn normal_form(term: Term, steps: nat, depth: nat) -> Option<Term>
    decreases depth, 2int, steps, term,
{
    if steps == 0 {
        None
    } else {
        match step(term, depth) {
            Step::Stuck => Some(term),
            Step::Reduced(next) => normal_form(next, (steps - 1) as nat, depth),
            Step::Exhausted => None,
        }
    }
}

/// Applies `root` to `args` in place and leaves `args` empty.
pub fn insert_arguments(root: &mut Lambda, args: &mut VecDeque<Lambda>)
    ensures
        final(root)@ == inserted(old(root)@, models(old(args)@)),
        final(args)@.len() == 0,
    decreases *old(root),
{
    if args.len() == 0 {
        return ;
    }
    let name_index = match &*root {
        Lambda::Variable(name) => *name,
        Lambda::Definition { name_index, .. } => *name_index,
        Lambda::Call { name_index, .. } => *name_index,
    };
    match root {
        Lambda::Variable(_) => {
            let mut taken: VecDeque<Lambda> = VecDeque::new();
            taken.append(args);
            proof {
                lemma_model_of_call(name_index, taken);
                assert(taken@ =~= old(args)@);
            }
            *root = Lambda::Call { name_index, parameters: taken };
        },
        Lambda::Definition { name_index: _, body, parameter } => {
            if parameter.is_none() {
                let first = args.pop_front();
                match first {
                    Some(argument) => {
                        *parameter = Some(Box::new(argument));
                    },
                    None => {},
                }
                assert(models(args@) =~= models(old(args)@).drop_first());
                assert(parameter->0@ == models(old(args)@)[0]);
            } else {
                assert(models(args@) =~= models(old(args)@));
            }
            insert_arguments(body, args);
        },
        Lambda::Call { name_index: _, parameters } => {
            let ghost own = *parameters;
            parameters.append(args);
            proof {
                lemma_model_of_call(name_index, own);
                lemma_model_of_call(name_index, *parameters);
                assert(models(parameters@) =~= models(own@) + models(old(args)@));
            }
        },
    }
}

/// `body` with `replacement` in place of the binder `name`, as a new term.
pub fn replace(name: usize, replacement: &Lambda, body: &Lambda) -> (result: Lambda)
    ensures
        result@ == replaced(name as nat, replacement@, body@),
    decreases body,
{
    match body {
        Lambda::Variable(value) => {
            if *value == name {
                replacement.clone()
            } else {
                Lambda::var(*value)
            }
        },
        Lambda::Definition { name_index, body: inner, parameter } => {
            if name == *name_index {
                return (&**inner).clone();
            }
            let new_body = replace(name, replacement, &**inner);
            let new_parameter = match parameter {
                Some(p) => Some(Box::new(replace(name, replacement, &**p))),
                None => None,
            };
            Lambda::Definition {
                name_index: *name_index,
                body: Box::new(new_body),
                parameter: new_parameter,
            }
        },
        Lambda::Call { name_index, parameters } => {
            let mut new_parameter: VecDeque<Lambda> = VecDeque::new();
            let mut i: usize = 0;
            while i < parameters.len()
                invariant
                    *body == (Lambda::Call { name_index: *name_index, parameters: *parameters }),
                    i <= parameters.len(),
                    new_parameter@.len() == i,
                    forall|j: int|
                        0 <= j < i ==> (#[trigger] new_parameter@[j])@ == replaced(
                            name as nat,
                            replacement@,
                            parameters@[j]@,
                        ),
                decreases parameters.len() - i,
            {
                assert(decreases_to!(*body => body->parameters));
                new_parameter.push_back(replace(name, replacement, &parameters[i]));
                i += 1;
            }
            proof {
                lemma_model_of_call(*name_index, *parameters);
                assert(models(new_parameter@) =~= replaced_each(
                    name as nat,
                    replacement@,
                    models(parameters@),
                ));
            }
            if *name_index == name {
                let mut result = replacement.clone();
                insert_arguments(&mut result, &mut new_parameter);
                result
            } else {
                proof {
                    lemma_model_of_call(*name_index, new_parameter);
                }
                Lambda::Call { name_index: *name_index, parameters: new_parameter }
            }
        },
    }
}

/// A normal form that was reached is stuck.
pub proof fn lemma_normal_form_is_stuck(term: Term, steps: nat, depth: nat)
    ensures
        normal_form(term, steps, depth) matches Some(result) ==> step(result, depth) is Stuck,
    decreases steps,
{
    if steps > 0 {
        match step(term, depth) {
            Step::Reduced(next) => {
                lemma_normal_form_is_stuck(next, (steps - 1) as nat, depth);
            },
            _ => {},
        }
    }
}

/// Normalising is idempotent: a term that reaches its normal form within the
/// budget yields a term that normalises to itself under the same budget.
pub proof fn lemma_normal_form_idempotent(term: Term, steps: nat, depth: nat)
    requires
        normal_form(term, steps, depth) is Some,
    ensures
        normal_form(normal_form(term, steps, depth)->0, steps, depth) == normal_form(
            term,
            steps,
            depth,
        ),
{
    lemma_normal_form_is_stuck(term, steps, depth);
}

/// The binder `id` applied to itself, with itself as the argument: the
/// classic term that reduces to itself.
pub open spec fn self_application(id: nat) -> Term {
    Term::Abs(
        id,
        Box::new(Term::App(id, seq![Term::Var(id)])),
        Some(Box::new(Term::Abs(id, Box::new(Term::App(id, seq![Term::Var(id)])), None))),
    )
}

/// A rewrite step never gets the self-application anywhere else: at a nesting
/// level above zero it steps to itself, at level zero its argument cannot be
/// normalised at all.
pub proof fn lemma_self_application_steps_to_itself(id: nat, depth: nat)
    ensures
        depth > 0 ==> step(self_application(id), depth) == Step::Reduced(self_application(id)),
        depth == 0 ==> step(self_application(id), depth) is Exhausted,
{
    let body = Term::App(id, seq![Term::Var(id)]);
    let half = Term::Abs(id, Box::new(body), None);
    let whole = self_application(id);
    assert forall|d: nat| step(body, d) is Stuck by {
        let outcomes = step_each(seq![Term::Var(id)], d);
        assert(outcomes.len() == 1);
        assert(outcomes[0] == step(Term::Var(id), d));
        assert forall|i: int| 0 <= i < outcomes.len() implies #[trigger] outcomes[i] is Stuck by {}
    }
    assert forall|d: nat| step(half, d) is Stuck by {
        assert(step(body, d) is Stuck);
    }
    assert(step(body, depth) is Stuck);
    if depth > 0 {
        let below = (depth - 1) as nat;
        assert(step(half, below) is Stuck);
        assert(normal_form(half, ARGUMENT_BUDGET as nat, below) == Some(half));
        let substituted = replaced_each(id, half, seq![Term::Var(id)]);
        assert(substituted =~= seq![half]);
        assert(substituted.drop_first() =~= Seq::<Term>::empty());
        assert(inserted(body, Seq::<Term>::empty()) == body);
        assert(inserted(half, substituted) == whole);
        assert(replaced(id, half, body) == whole);
        assert(fired(whole, depth) == Some(whole));
    } else {
        assert(fired(whole, depth) is None);
    }
}

/// The self-application never reaches a normal form, whatever the budget.
pub proof fn lemma_self_application_diverges(id: nat, steps: nat, depth: nat)
    ensures
        normal_form(self_application(id), steps, depth) is None,
    decreases steps,
{
    lemma_self_application_steps_to_itself(id, depth);
    if steps > 0 {
        lemma_self_application_diverges(id, (steps - 1) as nat, depth);
    }
}

/// What one look for a rewrite step hands back.
#[derive(Debug, PartialEq, Eq)]
pub enum Reduction {
    /// A step was taken; the term after it.
    Reduced(Lambda),
    /// No step applies; the term as it was given.
    Stuck(Lambda),
}

/// Fires the redex `root`: normalises its argument within `ARGUMENT_BUDGET`
/// steps, one nesting level below `depth`, and substitutes it into the body.
pub fn reduce(root: Lambda, depth: usize) -> (result: Result<Lambda, Failure>)
    requires
        is_redex(root@),
    ensures
        match fired(root@, depth as nat) {
            Some(term) => result matches Ok(reduced) && reduced@ == term,
            None => result matches Err(Failure::Divergence),
        },
    decreases depth, 0int, 0nat, root,
{
    match root {
        Lambda::Definition { name_index, body, parameter: Some(argument) } => {
            if depth == 0 {
                return Err(Failure::Divergence);
            }
            match full_reduce_at(*argument, ARGUMENT_BUDGET, depth - 1) {
                Ok(value) => Ok(replace(name_index, &value, &*body)),
                Err(_) => Err(Failure::Divergence),
            }
        },
        _ => Err(Failure::Divergence),
    }
}

/// Looks for one rewrite step in `root` and takes it.
pub fn find_reducible(root: Lambda, depth: usize) -> (found: Result<Reduction, Failure>)
    ensures
        match step(root@, depth as nat) {
            Step::Reduced(next) => found matches Ok(Reduction::Reduced(term)) && term@ == next,
            Step::Stuck => found matches Ok(Reduction::Stuck(term)) && term@ == root@,
            Step::Exhausted => found matches Err(Failure::Divergence),
        },
    decreases depth, 1int, 0nat, root,
{
    match root {
        Lambda::Variable(id) => Ok(Reduction::Stuck(Lambda::Variable(id))),
        Lambda::Definition { name_index, body, parameter } => {
            match find_reducible(*body, depth) {
                Err(_) => Err(Failure::Divergence),
                Ok(Reduction::Reduced(new_body)) => Ok(
                    Reduction::Reduced(
                        Lambda::Definition { name_index, body: Box::new(new_body), parameter },
                    ),
                ),
                Ok(Reduction::Stuck(same_body)) => match parameter {
                    None => Ok(
                        Reduction::Stuck(
                            Lambda::Definition {
                                name_index,
                                body: Box::new(same_body),
                                parameter: None,
                            },
                        ),
                    ),
                    Some(argument) => {
                        let redex = Lambda::Definition {
                            name_index,
                            body: Box::new(same_body),
                            parameter: Some(argument),
                        };
                        match reduce(redex, depth) {
                            Ok(result) => Ok(Reduction::Reduced(result)),
                            Err(_) => Err(Failure::Divergence),
                        }
                    },
                },
            }
        },
        Lambda::Call { name_index, parameters } => {
            let ghost given = parameters;
            let ghost outcomes = step_each(models(given@), depth as nat);
            let mut rest = parameters;
            let mut new_parameters: VecDeque<Lambda> = VecDeque::new();
            let mut any_reduced = false;
            proof {
                lemma_model_of_call(name_index, given);
            }
            while rest.len() > 0
                invariant
                    root == (Lambda::Call { name_index, parameters: given }),
                    root@ == Term::App(name_index as nat, models(given@)),
                    outcomes == step_each(models(given@), depth as nat),
                    new_parameters@.len() + rest@.len() == given@.len(),
                    rest@ == given@.skip(new_parameters@.len() as int),
                    forall|j: int|
                        0 <= j < new_parameters@.len() ==> !(#[trigger] outcomes[j] is Exhausted),
                    forall|j: int|
                        0 <= j < new_parameters@.len() ==> (#[trigger] new_parameters@[j])@
                            == after(given@[j]@, outcomes[j]),
                    any_reduced <==> exists|j: int|
                        0 <= j < new_parameters@.len() && #[trigger] outcomes[j] is Reduced,
                decreases rest@.len(),
            {
                let ghost k = new_parameters@.len() as int;
                let next = rest.pop_front();
                match next {
                    Some(parameter) => {
                        assert(parameter == given@[k]);
                        assert(decreases_to!(root => root->parameters));
                        assert(decreases_to!(given => given[k]));
                        assert(outcomes[k] == step(parameter@, depth as nat));
                        match find_reducible(parameter, depth) {
                            Err(_) => {
                                assert(outcomes[k] is Exhausted);
                                return Err(Failure::Divergence);
                            },
                            Ok(Reduction::Reduced(term)) => {
                                any_reduced = true;
                                new_parameters.push_back(term);
                            },
                            Ok(Reduction::Stuck(term)) => {
                                new_parameters.push_back(term);
                                assert forall|j: int|
                                    0 <= j < new_parameters@.len() && #[trigger] outcomes[j]
                                        is Reduced implies j < k by {}
                            },
                        }
                    },
                    None => {},
                }
            }
            proof {
                lemma_model_of_call(name_index, new_parameters);
                assert(models(new_parameters@) =~= after_each(models(given@), outcomes));
            }
            let result = Lambda::Call { name_index, parameters: new_parameters };
            if any_reduced {
                Ok(Reduction::Reduced(result))
            } else {
                assert(models(new_parameters@) =~= models(given@));
                Ok(Reduction::Stuck(result))
            }
        },
    }
}

/// Rewrites `root` until it is stuck, with at most `iterations` looks for a
/// step, at the nesting level `depth`.
pub fn full_reduce_at(root: Lambda, iterations: usize, depth: usize) -> (result: Result<
    Lambda,
    Failure,
>)
    ensures
        match normal_form(root@, iterations as nat, depth as nat) {
            Some(term) => result matches Ok(reduced) && reduced@ == term,
            None => result matches Err(Failure::Divergence),
        },
    decreases depth, 2int, iterations, root,
{
    let mut current = root;
    let mut iteration: usize = 0;
    while iteration < iterations
        invariant
            iteration <= iterations,
            normal_form(root@, iterations as nat, depth as nat) == normal_form(
                current@,
                (iterations - iteration) as nat,
                depth as nat,
            ),
        decreases iterations - iteration,
    {
        match find_reducible(current, depth) {
            Err(_) => {
                return Err(Failure::Divergence);
            },
            Ok(Reduction::Stuck(term)) => {
                return Ok(term);
            },
            Ok(Reduction::Reduced(term)) => {
                current = term;
            },
        }
        iteration += 1;
    }
    Err(Failure::Divergence)
}

/// The normal form of `root`, or `Failure::Divergence` when it is not reached
/// with `iterations` looks for a rewrite step.
pub fn full_reduce(root: Lambda, iterations: usize) -> (result: Result<Lambda, Failure>)
    ensures
        match normal_form(root@, iterations as nat, NESTING_LIMIT as nat) {
            Some(term) => result matches Ok(reduced) && reduced@ == term,
            None => result matches Err(Failure::Divergence),
        },
{
    full_reduce_at(root, iterations, NESTING_LIMIT)
}

/// How many looks for a rewrite step `full_reduce_debug` takes.
pub const DEBUG_ITERATIONS: usize = 50;

/// As `full_reduce` with `DEBUG_ITERATIONS` looks, showing every term that
/// is looked at to `print` first.
pub fn full_reduce_debug<F>(root: Lambda, print: F) -> (result: Result<Lambda, Failure>) where
    F: FnOnce(&Lambda) + Copy,

    requires
        forall|term: &Lambda| call_requires(print, (term,)),
    ensures
        match normal_form(root@, DEBUG_ITERATIONS as nat, NESTING_LIMIT as nat) {
            Some(term) => result matches Ok(reduced) && reduced@ == term,
            None => result matches Err(Failure::Divergence),
        },
{
    let mut current = root;
    let mut iteration: usize = 0;
    while iteration < DEBUG_ITERATIONS
        invariant
            iteration <= DEBUG_ITERATIONS,
            forall|term: &Lambda| call_requires(print, (term,)),
            normal_form(root@, DEBUG_ITERATIONS as nat, NESTING_LIMIT as nat) == normal_form(
                current@,
                (DEBUG_ITERATIONS - iteration) as nat,
                NESTING_LIMIT as nat,
            ),
        decreases DEBUG_ITERATIONS - iteration,
    {
        print(&current);
        match find_reducible(current, NESTING_LIMIT) {
            Err(_) => {
                return Err(Failure::Divergence);
            },
            Ok(Reduction::Stuck(term)) => {
                return Ok(term);
            },
            Ok(Reduction::Reduced(term)) => {
                current = term;
            },
        }
        iteration += 1;
    }
    Err(Failure::Divergence)
}

} // verus!
