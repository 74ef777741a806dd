//! Terms of the calculus and their mathematical model.

use std::collections::VecDeque;
use vstd::std_specs::vecdeque::VecDequeAdditionalSpecFns;
use vstd::prelude::*;

verus! {

/// The mathematical model of a term.
pub enum Term {
    /// A reference to the binder with the given identity.
    Var(nat),
    /// A binder with its body and, when saturated, the argument applied to it.
    Abs(nat, Box<Term>, Option<Box<Term>>),
    /// A use of a bound name applied to arguments.
    App(nat, Seq<Term>),
}

/// A term as it is held at run time.
#[derive(Debug, PartialEq, Eq)]
pub enum Lambda {
    Variable(usize),
    Definition { name_index: usize, body: Box<Lambda>, parameter: Option<Box<Lambda>> },
    Call { name_index: usize, parameters: VecDeque<Lambda> },
}

/// The model of a run-time term.
pub open spec fn model(term: Lambda) -> Term
    decreases term,
{
    match term {
        Lambda::Variable(id) => Term::Var(id as nat),
        Lambda::Definition { name_index, body, parameter } => Term::Abs(
            name_index as nat,
            Box::new(model(*body)),
            match parameter {
                Some(p) => Some(Box::new(model(*p))),
                None => None,
            },
        ),
        Lambda::Call { name_index, parameters } => Term::App(
            name_index as nat,
            Seq::new(
                parameters@.len(),
                |i: int|
                    if 0 <= i < parameters.len() {
                        model(parameters[i])
                    } else {
                        Term::Var(0)
                    },
            ),
        ),
    }
}

impl View for Lambda {
    type V = Term;

    open spec fn view(&self) -> Term {
        model(*self)
    }
}

/// The models of a sequence of run-time terms, in order.
pub open spec fn models(terms: Seq<Lambda>) -> Seq<Term> {
    Seq::new(terms.len(), |i: int| terms[i]@)
}

/// The model of an application is the application of the models.
pub proof fn lemma_model_of_call(name_index: usize, parameters: VecDeque<Lambda>)
    ensures
        (Lambda::Call { name_index, parameters })@ == Term::App(
            name_index as nat,
            models(parameters@),
        ),
{
    let term = Lambda::Call { name_index, parameters };
    assert(term@->App_1 =~= models(parameters@));
}

impl Lambda {
    /// A reference to the binder `name_index`.
    pub fn var(name_index: usize) -> (term: Lambda)
        ensures
            term@ == Term::Var(name_index as nat),
    {
        Lambda::Variable(name_index)
    }

    /// The application of the name `name_index` to `parameters`, in order.
    pub fn call(name_index: usize, parameters: Vec<Lambda>) -> (term: Lambda)
        ensures
            term@ == Term::App(name_index as nat, models(parameters@)),
    {
        let mut rest = parameters;
        let mut queue: VecDeque<Lambda> = VecDeque::new();
        while rest.len() > 0
            invariant
                rest@.len() <= parameters@.len(),
                rest@ == parameters@.take(rest@.len() as int),
                queue@ == parameters@.skip(rest@.len() as int),
            decreases rest@.len(),
        {
            let last = rest.pop();
            match last {
                Some(item) => {
                    queue.push_front(item);
                },
                None => {},
            }
        }
        assert(queue@ =~= parameters@);
        proof {
            lemma_model_of_call(name_index, queue);
        }
        Lambda::Call { name_index, parameters: queue }
    }

    /// The binder `name_index` with its body and, when `parameter` is given,
    /// the argument applied to it.
    pub fn def(name_index: usize, body: Lambda, parameter: Option<Lambda>) -> (term: Lambda)
        ensures
            term@ == Term::Abs(
                name_index as nat,
                Box::new(body@),
                match parameter {
                    Some(p) => Some(Box::new(p@)),
                    None => None,
                },
            ),
    {
        let boxed = match parameter {
            Some(p) => Some(Box::new(p)),
            None => None,
        };
        Lambda::Definition { name_index, body: Box::new(body), parameter: boxed }
    }
}

impl Clone for Lambda {
    /// A copy with the same model.
    fn clone(&self) -> (copy: Lambda)
        ensures
            copy@ == self@,
        decreases self,
    {
        match self {
            Lambda::Variable(id) => Lambda::Variable(*id),
            Lambda::Definition { name_index, body, parameter } => {
                let inner = (&**body).clone();
                let applied = match parameter {
                    Some(p) => Some(Box::new((&**p).clone())),
                    None => None,
                };
                Lambda::Definition {
                    name_index: *name_index,
                    body: Box::new(inner),
                    parameter: applied,
                }
            },
            Lambda::Call { name_index, parameters } => {
                let mut copies: VecDeque<Lambda> = VecDeque::new();
                let mut i: usize = 0;
                while i < parameters.len()
                    invariant
                        *self == (Lambda::Call {
                            name_index: *name_index,
                            parameters: *parameters,
                        }),
                        i <= parameters.len(),
                        copies@.len() == i,
                        forall|j: int| 0 <= j < i ==> (#[trigger] copies@[j])@ == parameters@[j]@,
                    decreases parameters.len() - i,
                {
                    assert(decreases_to!(*self => self->parameters));
                    copies.push_back(parameters[i].clone());
                    i += 1;
                }
                proof {
                    lemma_model_of_call(*name_index, copies);
                    lemma_model_of_call(*name_index, *parameters);
                    assert(models(copies@) =~= models(parameters@));
                }
                Lambda::Call { name_index: *name_index, parameters: copies }
            },
        }
    }
}

} // verus!
