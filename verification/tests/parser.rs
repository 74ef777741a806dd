use blis::binder::Binder;
use blis::parser::{get_type, parse, parse_arguments, parse_program, ParseType};
use std::collections::VecDeque;
use blis::{Failure, Lambda};

#[test]
fn parser_parse_value() {
    let text = "hi".to_string();
    let (result, _bindings) = parse_program(&text).unwrap();
    assert_eq!(result, Lambda::Variable(0))
}

#[test]
fn parser_parenthesis_around_value() {
    let text = "(hi)".to_string();
    let (result, _bindings) = parse_program(&text).unwrap();
    assert_eq!(result, Lambda::Variable(0))
}

#[test]
fn parser_function_definition() {
    let text = "a(a)".to_string();
    let (result, bindings) = parse_program(&text).unwrap();
    assert_eq!(result, Lambda::def(0, Lambda::var(0), None), "{bindings:?}");
}

#[test]
fn parser_nested_function_def() {
    let text = "a(b(c(a)))".to_string();
    let (result, _bindings) = parse_program(&text).unwrap();
    assert_eq!(
        result,
        Lambda::def(
            0,
            Lambda::def(1, Lambda::def(2, Lambda::var(0), None), None),
            None
        )
    )
}

#[test]
fn parser_immediate_call() {
    let text = "a(a).5".to_string();
    let (result, bindings) = parse_program(&text).unwrap();
    assert_eq!(bindings, vec!["5", "a"]);
    assert_eq!(result, Lambda::def(1, Lambda::var(1), Some(Lambda::var(0))));
}

#[test]
fn parser_double_call() {
    let text = "a(b(a)).5.3".to_string();
    let (result, bindings) = parse_program(&text).unwrap();
    assert_eq!(bindings, vec!["5", "3", "a", "b"]);
    assert_eq!(
        result,
        Lambda::def(
            2,
            Lambda::def(3, Lambda::var(2), Some(Lambda::var(1))),
            Some(Lambda::var(0))
        ),
        "{bindings:?}"
    )
}

#[test]
fn parser_calling_of_unresolved_function() {
    let text = "
        a(
            b(
                a.b
            )
        ).c(c).5
        "
    .to_string();
    let (result, bindings) = parse_program(&text).unwrap();
    assert_eq!(bindings, vec!["c", "5", "a", "b"]);
    assert_eq!(
        result,
        Lambda::def(
            2,
            Lambda::def(
                3,
                Lambda::call(2, vec![Lambda::var(3)]),
                Some(Lambda::var(1))
            ),
            Some(Lambda::def(0, Lambda::var(0), None))
        ),
        "{bindings:?}"
    )
}

#[test]
fn parser_nested_unresolved_call() {
    let text = "
        a(
            b(
                c(
                    a.b.c
                )
            )
        ).d(e(e)).5.3
        "
    .to_string();
    let (result, bindings) = parse_program(&text).unwrap();
    assert_eq!(bindings, vec!["d", "e", "5", "3", "a", "b", "c"]);
    assert_eq!(
        result,
        Lambda::def(
            4,
            Lambda::def(
                5,
                Lambda::def(
                    6,
                    Lambda::call(4, vec![Lambda::var(5), Lambda::var(6)]),
                    Some(Lambda::var(3))
                ),
                Some(Lambda::var(2))
            ),
            Some(Lambda::def(0, Lambda::def(1, Lambda::var(1), None), None))
        ),
        "{:?}",
        result
    )
}

#[test]
fn parser_parenthesises() {
    let text = "
        (a(
            b(
                c(
                    ((a.b).c)
                )
            )
        )).(d((e((e))))).((5)).3
        "
    .to_string();
    let (result, bindings) = parse_program(&text).unwrap();
    assert_eq!(bindings, vec!["d", "e", "5", "3", "a", "b", "c"]);
    assert_eq!(
        result,
        Lambda::def(
            4,
            Lambda::def(
                5,
                Lambda::def(
                    6,
                    Lambda::call(4, vec![Lambda::var(5), Lambda::var(6)]),
                    Some(Lambda::var(3))
                ),
                Some(Lambda::var(2))
            ),
            Some(Lambda::def(0, Lambda::def(1, Lambda::var(1), None), None))
        ),
        "{:?}",
        result
    )
}

#[test]
fn parser_double_late_call() {
    let text = "
        (
            a(
                b(
                    c(b).7
                )
            )
        ).5.3
        "
    .to_string();
    let (result, bindings) = parse_program(&text).unwrap();
    assert_eq!(bindings, vec!["5", "3", "a", "b", "7", "c"]);
    assert_eq!(
        result,
        Lambda::def(
            2,
            Lambda::def(
                3,
                Lambda::def(5, Lambda::var(3), Some(Lambda::var(4))),
                Some(Lambda::var(1))
            ),
            Some(Lambda::var(0))
        )
    )
}

#[test]
fn parser_naming_duplication() {
    let text = "a(a.5).a(a)";
    let (result, bindings) = parse_program(text).unwrap();
    assert_eq!(bindings, vec!["a", "a", "5"]);
    assert_eq!(
        result,
        Lambda::def(
            1,
            Lambda::call(1, vec![Lambda::var(2)]),
            Some(Lambda::def(0, Lambda::var(0), None))
        )
    )
}

#[test]
fn parser_calling_with_itself() {
    let text = "a(a.a).a(a)";
    let (result, bindings) = parse_program(text).unwrap();
    assert_eq!(bindings, vec!["a", "a"]);
    assert_eq!(
        result,
        Lambda::def(
            1,
            Lambda::call(1, vec![Lambda::var(1)]),
            Some(Lambda::def(0, Lambda::var(0), None))
        )
    )
}

#[test]
fn naming_collision_is_a_binding_error() {
    let text = "a(a(a))";
    assert_eq!(parse_program(text), Err(Failure::Binding));
}

fn chars(text: &str) -> Vec<char> {
    text.chars().collect()
}

fn abstraction_identities(term: &Lambda, found: &mut Vec<usize>) {
    match term {
        Lambda::Variable(_) => {}
        Lambda::Definition {
            name_index,
            body,
            parameter,
        } => {
            found.push(*name_index);
            abstraction_identities(body, found);
            if let Some(parameter) = parameter {
                abstraction_identities(parameter, found);
            }
        }
        Lambda::Call { parameters, .. } => {
            for parameter in parameters {
                abstraction_identities(parameter, found);
            }
        }
    }
}

#[test]
fn abstractions_of_one_name_get_identities_of_their_own() {
    for text in [
        "a(a).a(a)",
        "a(b(a.b)).a(a).b(b)",
        "x(x.(y(y)).(y(y))).(x(x).x(x))",
        "(a(a)).((a(a)).a(a))",
    ] {
        let (term, table) = parse_program(text).unwrap();
        let mut found = Vec::new();
        abstraction_identities(&term, &mut found);
        let count = found.len();
        found.sort();
        found.dedup();
        assert_eq!(found.len(), count, "{text}");
        assert!(found.iter().all(|identity| *identity < table.len()));
    }
}

#[test]
fn spans_are_classified_by_their_first_delimiter() {
    assert_eq!(get_type(&chars("")), ParseType::Value);
    assert_eq!(get_type(&chars("abc")), ParseType::Value);
    assert_eq!(get_type(&chars("a(b.c)")), ParseType::Definition);
    assert_eq!(get_type(&chars("a(b)")), ParseType::Definition);
    assert_eq!(get_type(&chars("a.b(c)")), ParseType::Call);
    assert_eq!(get_type(&chars("a.b")), ParseType::Call);
}

#[test]
fn unbalanced_delimiters_are_a_syntax_error() {
    for text in ["a(b", "(a", "a)b(c)", "a(b))c(", "a(b).c(d", "f.(a"] {
        assert_eq!(parse_program(text), Err(Failure::Syntax), "{text}");
    }
}

#[test]
fn text_behind_a_group_must_be_an_argument() {
    for text in ["(a)b", "a(b)c", "a(a).b(b)c"] {
        assert_eq!(parse_program(text), Err(Failure::Syntax), "{text}");
    }
}

#[test]
fn an_application_of_an_unknown_name_is_a_syntax_error() {
    assert_eq!(parse_program("f.x"), Err(Failure::Syntax));
    assert_eq!(parse_program("a(b.a)"), Err(Failure::Syntax));
    assert_eq!(parse_program("(b.c)"), Err(Failure::Syntax));
    assert_eq!(parse_program("a(a).b(c.b)"), Err(Failure::Syntax));
}

#[test]
fn a_visible_name_cannot_be_bound_again() {
    assert_eq!(parse_program("a(a(a))"), Err(Failure::Binding));
    assert_eq!(parse_program("a(b(a(b)))"), Err(Failure::Binding));
    assert_eq!(parse_program("x.(a(x(a)))"), Err(Failure::Syntax));
    assert_eq!(parse_program("a(x(a)).x"), Err(Failure::Binding));
}

#[test]
fn whitespace_is_insignificant() {
    let plain = parse_program("a(b(a.b)).c(c).5").unwrap();
    let spaced = parse_program(" a (\n b(\t a . b ) ) . c ( c ) . 5 ").unwrap();
    assert_eq!(plain, spaced);
}

#[test]
fn the_parameter_is_resolved_in_the_outer_scope() {
    let (term, table) = parse_program("x(y(y.x).x)").unwrap();
    assert_eq!(table, vec!["x", "y"]);
    assert_eq!(
        term,
        Lambda::def(
            0,
            Lambda::def(1, Lambda::call(1, vec![Lambda::var(0)]), Some(Lambda::var(0))),
            None
        )
    );
}

#[test]
fn surplus_arguments_wait_for_the_next_abstraction() {
    let (term, table) = parse_program("a(b(c(a.b.c))).1.2.3").unwrap();
    assert_eq!(table, vec!["1", "2", "3", "a", "b", "c"]);
    assert_eq!(
        term,
        Lambda::def(
            3,
            Lambda::def(
                4,
                Lambda::def(
                    5,
                    Lambda::call(3, vec![Lambda::var(4), Lambda::var(5)]),
                    Some(Lambda::var(2))
                ),
                Some(Lambda::var(1))
            ),
            Some(Lambda::var(0))
        )
    );
}

#[test]
fn pending_arguments_follow_the_arguments_of_an_application() {
    let mut binder = Binder::new();
    binder.new_binding("f".to_string());
    let mut pending = VecDeque::from(vec![Lambda::var(7), Lambda::var(8)]);
    let term = parse(&chars("f.x.(y)"), &mut pending, &mut binder).unwrap();
    assert!(pending.is_empty());
    assert_eq!(
        term,
        Lambda::call(
            0,
            vec![Lambda::var(1), Lambda::var(2), Lambda::var(7), Lambda::var(8)]
        )
    );
}

#[test]
fn arguments_are_split_at_dots_outside_groups() {
    let mut binder = Binder::new();
    let arguments = parse_arguments(&chars(".a.(b).c(c.d).e"), &mut binder).unwrap();
    assert_eq!(
        arguments,
        VecDeque::from(vec![
            Lambda::var(0),
            Lambda::var(1),
            Lambda::def(2, Lambda::call(2, vec![Lambda::var(3)]), None),
            Lambda::var(4),
        ])
    );
    assert_eq!(
        parse_arguments(&chars("a"), &mut Binder::new()),
        Err(Failure::Syntax)
    );
    assert_eq!(
        parse_arguments(&chars(""), &mut Binder::new()),
        Ok(VecDeque::new())
    );
}
