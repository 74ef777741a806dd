//! Evaluator for a small dotted notation of the untyped lambda calculus.
//!
//! A program is desugared into the base notation, parsed into a term whose
//! variables carry the identities of their binders, and rewritten to its
//! normal form by capture-avoiding beta-reduction under a step budget.

pub mod binder;
pub mod compiler;
pub mod coverage;
pub mod failure;
pub mod helpers;
pub mod identity;
pub mod parser;
pub mod pattern;
pub mod reducer;
pub mod term;
pub mod text;

pub use crate::failure::Failure;
pub use crate::term::Lambda;

use crate::compiler::{compile, compiled};
use crate::coverage::lemma_normal_form_is_covered;
use crate::helpers::covered;
use crate::parser::{parse_program, parsed_program};
use crate::reducer::{full_reduce, normal_form, NESTING_LIMIT};
use crate::term::Term;
use crate::text::spellings;
use vstd::prelude::*;

verus! {

/// How many looks for a rewrite step a program is given.
pub const PROGRAM_BUDGET: usize = 10000;

/// What a program evaluates to: the normal form of the term it stands for,
/// with the table of the names it binds.
pub open spec fn evaluated(text: Seq<char>) -> Result<(Term, Seq<Seq<char>>), Failure> {
    match compiled(text) {
        Err(e) => Err(e),
        Ok(base) => match parsed_program(base) {
            Err(e) => Err(e),
            Ok((term, names)) => match normal_form(
                term,
                PROGRAM_BUDGET as nat,
                NESTING_LIMIT as nat,
            ) {
                Some(result) => Ok((result, names)),
                None => Err(Failure::Divergence),
            },
        },
    }
}

/// Evaluates a program: desugars it, parses it and reduces it to normal
/// form within `PROGRAM_BUDGET` looks for a rewrite step. The table of names
/// that comes with the result has a name for every identity in it.
pub fn run_program(text: &str) -> (result: Result<(Lambda, Vec<String>), Failure>)
    ensures
        match evaluated(text@) {
            Ok((term, names)) => result matches Ok((reduced, bindings)) && reduced@ == term
                && spellings(bindings@) == names,
            Err(e) => result matches Err(x) && x == e,
        },
        result matches Ok((reduced, bindings)) ==> covered(reduced@, bindings@.len()),
{
    let compiled = match compile(text) {
        Ok(compiled) => compiled,
        Err(e) => {
            return Err(e);
        },
    };
    let (lambda, bindings) = match parse_program(compiled.as_str()) {
        Ok(parsed) => parsed,
        Err(e) => {
            return Err(e);
        },
    };
    proof {
        lemma_normal_form_is_covered(
            lambda@,
            PROGRAM_BUDGET as nat,
            NESTING_LIMIT as nat,
            bindings@.len(),
        );
    }
    match full_reduce(lambda, PROGRAM_BUDGET) {
        Ok(reduced) => Ok((reduced, bindings)),
        Err(e) => Err(e),
    }
}

} // verus!
