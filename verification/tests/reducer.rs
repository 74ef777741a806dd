use blis::reducer::{
    find_reducible, full_reduce, full_reduce_debug, insert_arguments, reduce, replace, Reduction,
};
use std::collections::VecDeque;
use blis::{Failure, Lambda};

#[test]
fn no_reduction() {
    // a(a)
    let lambda = Lambda::def(0, Lambda::var(0), None);
    let reduced = full_reduce(lambda.clone(), 50).unwrap();
    assert_eq!(lambda, reduced);
}

#[test]
fn reducer_simple_reduction() {
    let lambda = Lambda::def(
        0,
        Lambda::call(0, vec![Lambda::var(1)]),
        Some(Lambda::def(2, Lambda::var(2), None)),
    );
    let reduced = full_reduce(lambda, 50).unwrap();
    assert_eq!(reduced, Lambda::var(1))
}

#[test]
fn complex_reduction() {
    // a(b(a.b)).(c(d(d)).5).3
    let lambda = Lambda::def(
        0,
        Lambda::def(
            1,
            Lambda::call(0, vec![Lambda::var(1)]),
            Some(Lambda::var(2)),
        ),
        Some(Lambda::def(
            3,
            Lambda::def(4, Lambda::var(4), None),
            Some(Lambda::var(5)),
        )),
    );
    let reduced = full_reduce(lambda, 50).unwrap();
    assert_eq!(reduced, Lambda::var(2));
}

#[test]
fn name_collision() {
    // 0(2(0.2)).1(1) => 2(1(1).2) => 2(2)
    let lambda = Lambda::def(
        0,
        Lambda::def(2, Lambda::call(0, vec![Lambda::var(2)]), None),
        Some(Lambda::def(1, Lambda::var(1), None)),
    );
    let reduced = full_reduce(lambda, 50).unwrap();
    assert_eq!(reduced, Lambda::def(2, Lambda::var(2), None))
}

#[test]
fn complex_name_collisions() {
    // a(b(c(a.(b.(c.5))))).a(a).a(a).a(a)
    let lambda = Lambda::def(
        0,
        Lambda::def(
            1,
            Lambda::def(
                2,
                Lambda::call(
                    0,
                    vec![Lambda::call(1, vec![Lambda::call(0, vec![Lambda::var(3)])])],
                ),
                Some(Lambda::def(6, Lambda::var(6), None)),
            ),
            Some(Lambda::def(5, Lambda::var(5), None)),
        ),
        Some(Lambda::def(4, Lambda::var(4), None)),
    );
    let reduced = full_reduce(lambda, 50).unwrap();
    assert_eq!(reduced, Lambda::var(3))
}

#[test]
fn reducer_calling_with_itself() {
    let lambda = Lambda::def(
        0,
        Lambda::call(0, vec![Lambda::var(0)]),
        Some(Lambda::def(1, Lambda::var(1), None)),
    );
    let reduced = full_reduce(lambda, 50).unwrap();
    assert_eq!(reduced, Lambda::def(1, Lambda::var(1), None))
}

#[test]
fn self_application_exhausts_every_budget() {
    for budget in [0usize, 1, 10, 50, 1000] {
        let half = Lambda::def(0, Lambda::call(0, vec![Lambda::var(0)]), None);
        let omega = Lambda::def(0, Lambda::call(0, vec![Lambda::var(0)]), Some(half));
        assert_eq!(full_reduce(omega, budget), Err(Failure::Divergence));
    }
}

fn identity(id: usize) -> Lambda {
    Lambda::def(id, Lambda::var(id), None)
}

#[test]
fn arguments_fill_the_free_parameter_slots_in_order() {
    let mut root = Lambda::def(0, Lambda::def(1, Lambda::var(0), None), None);
    let mut args = VecDeque::from(vec![Lambda::var(5), Lambda::var(6), Lambda::var(7)]);
    insert_arguments(&mut root, &mut args);
    assert!(args.is_empty());
    assert_eq!(
        root,
        Lambda::def(
            0,
            Lambda::def(1, Lambda::call(0, vec![Lambda::var(7)]), Some(Lambda::var(6))),
            Some(Lambda::var(5))
        )
    );
}

#[test]
fn arguments_pass_a_filled_slot() {
    let mut root = Lambda::def(0, Lambda::call(1, vec![Lambda::var(2)]), Some(Lambda::var(3)));
    let mut args = VecDeque::from(vec![Lambda::var(5)]);
    insert_arguments(&mut root, &mut args);
    assert_eq!(
        root,
        Lambda::def(
            0,
            Lambda::call(1, vec![Lambda::var(2), Lambda::var(5)]),
            Some(Lambda::var(3))
        )
    );
}

#[test]
fn no_arguments_leave_a_term_as_it_is() {
    let mut root = Lambda::var(4);
    insert_arguments(&mut root, &mut VecDeque::new());
    assert_eq!(root, Lambda::var(4));
}

#[test]
fn substitution_replaces_variables_and_applications_of_the_binder() {
    let body = Lambda::def(
        1,
        Lambda::call(0, vec![Lambda::var(0), Lambda::var(2)]),
        Some(Lambda::var(0)),
    );
    assert_eq!(
        replace(0, &Lambda::var(9), &body),
        Lambda::def(
            1,
            Lambda::call(9, vec![Lambda::var(9), Lambda::var(2)]),
            Some(Lambda::var(9))
        )
    );
    assert_eq!(
        replace(0, &identity(7), &Lambda::call(0, vec![Lambda::var(3)])),
        Lambda::def(7, Lambda::var(7), Some(Lambda::var(3)))
    );
    assert_eq!(replace(0, &identity(7), &Lambda::var(1)), Lambda::var(1));
}

#[test]
fn substitution_opens_a_nested_binder_of_the_same_identity() {
    let body = Lambda::def(0, Lambda::var(3), Some(Lambda::var(4)));
    assert_eq!(replace(0, &Lambda::var(9), &body), Lambda::var(3));
}

#[test]
fn one_look_fires_the_innermost_redex_of_a_body_first() {
    let inner = Lambda::def(1, Lambda::var(1), Some(Lambda::var(2)));
    let outer = Lambda::def(0, inner, Some(Lambda::var(3)));
    assert_eq!(
        find_reducible(outer, 5),
        Ok(Reduction::Reduced(Lambda::def(
            0,
            Lambda::var(2),
            Some(Lambda::var(3))
        )))
    );
}

#[test]
fn one_look_steps_every_argument_of_an_application() {
    let term = Lambda::call(
        9,
        vec![
            Lambda::def(0, Lambda::var(0), Some(Lambda::var(1))),
            Lambda::var(2),
            Lambda::def(3, Lambda::var(4), Some(Lambda::var(5))),
        ],
    );
    assert_eq!(
        find_reducible(term, 5),
        Ok(Reduction::Reduced(Lambda::call(
            9,
            vec![Lambda::var(1), Lambda::var(2), Lambda::var(4)]
        )))
    );
}

#[test]
fn a_term_without_a_redex_is_stuck() {
    for term in [
        Lambda::var(0),
        identity(0),
        Lambda::call(0, vec![identity(1), Lambda::var(2)]),
    ] {
        assert_eq!(
            find_reducible(term.clone(), 5),
            Ok(Reduction::Stuck(term))
        );
    }
}

#[test]
fn firing_needs_a_nesting_level() {
    let redex = Lambda::def(0, Lambda::var(0), Some(Lambda::var(1)));
    assert_eq!(reduce(redex.clone(), 0), Err(Failure::Divergence));
    assert_eq!(reduce(redex.clone(), 1), Ok(Lambda::var(1)));
    assert_eq!(find_reducible(redex, 0), Err(Failure::Divergence));
}

#[test]
fn the_argument_of_a_redex_is_normalised_before_it_is_substituted() {
    let argument = Lambda::def(1, Lambda::var(1), Some(Lambda::var(2)));
    let redex = Lambda::def(0, Lambda::call(3, vec![Lambda::var(0)]), Some(argument));
    assert_eq!(
        reduce(redex, 2),
        Ok(Lambda::call(3, vec![Lambda::var(2)]))
    );
}

#[test]
fn an_argument_that_diverges_makes_the_redex_diverge() {
    let half = Lambda::def(0, Lambda::call(0, vec![Lambda::var(0)]), None);
    let omega = Lambda::def(0, Lambda::call(0, vec![Lambda::var(0)]), Some(half));
    let redex = Lambda::def(5, Lambda::var(6), Some(omega));
    assert_eq!(full_reduce(redex, 50), Err(Failure::Divergence));
}

#[test]
fn the_budget_counts_the_look_that_finds_the_term_stuck() {
    let redex = Lambda::def(0, Lambda::var(0), Some(Lambda::var(1)));
    assert_eq!(full_reduce(redex.clone(), 1), Err(Failure::Divergence));
    assert_eq!(full_reduce(redex, 2), Ok(Lambda::var(1)));
    assert_eq!(full_reduce(Lambda::var(1), 1), Ok(Lambda::var(1)));
}

#[test]
fn normal_forms_normalise_to_themselves() {
    let terms = [
        Lambda::def(
            0,
            Lambda::def(2, Lambda::call(0, vec![Lambda::var(2)]), None),
            Some(identity(1)),
        ),
        Lambda::def(
            0,
            Lambda::call(0, vec![Lambda::var(1)]),
            Some(identity(2)),
        ),
        Lambda::call(0, vec![Lambda::def(1, Lambda::var(1), Some(Lambda::var(2)))]),
    ];
    for term in terms {
        let once = full_reduce(term, 50).unwrap();
        let twice = full_reduce(once.clone(), 50).unwrap();
        assert_eq!(once, twice);
    }
}

#[test]
fn nesting_of_unfinished_arguments_ends_in_divergence() {
    // w.(w.w) with w = z(z.(z.z)): every nesting level starts another one.
    let body = || Lambda::call(0, vec![Lambda::call(0, vec![Lambda::var(0)])]);
    let w = || Lambda::def(0, body(), None);
    let inner = Lambda::def(0, body(), Some(w()));
    let term = Lambda::def(0, body(), Some(inner));
    assert_eq!(full_reduce(term, 50), Err(Failure::Divergence));
}

#[test]
fn the_debug_run_shows_every_term_it_looks_at() {
    let term = Lambda::def(
        0,
        Lambda::def(1, Lambda::var(1), Some(Lambda::var(0))),
        Some(Lambda::var(2)),
    );
    let seen = std::cell::RefCell::new(Vec::new());
    let seen_ref = &seen;
    let result = full_reduce_debug(term.clone(), |shown: &Lambda| {
        seen_ref.borrow_mut().push(shown.clone())
    });
    assert_eq!(result, Ok(Lambda::var(2)));
    assert_eq!(
        seen.into_inner(),
        vec![
            term,
            Lambda::def(0, Lambda::var(0), Some(Lambda::var(2))),
            Lambda::var(2)
        ]
    );
}
