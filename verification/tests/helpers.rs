use blis::helpers::{find_block_end, format_lambda, format_lambda_indented, names_cover};
use blis::parser::parse_program;
use blis::Lambda;

fn chars(text: &str) -> Vec<char> {
    text.chars().collect()
}

fn names(list: &[&str]) -> Vec<String> {
    list.iter().map(|name| name.to_string()).collect()
}

#[test]
fn block_end_is_the_delimiter_that_closes_the_first_group() {
    assert_eq!(find_block_end(&chars("(a)")), Some(2));
    assert_eq!(find_block_end(&chars("a(b(c)).d(e)")), Some(6));
    assert_eq!(find_block_end(&chars("()()")), Some(1));
    assert_eq!(find_block_end(&chars("é(λ)")), Some(3));
}

#[test]
fn block_end_is_missing_without_a_closed_group() {
    assert_eq!(find_block_end(&chars("")), None);
    assert_eq!(find_block_end(&chars("abc")), None);
    assert_eq!(find_block_end(&chars("a(b(c)")), None);
}

#[test]
fn block_end_is_refused_when_a_delimiter_closes_nothing() {
    assert_eq!(find_block_end(&chars(")")), None);
    assert_eq!(find_block_end(&chars("a)b(c)")), None);
}

#[test]
fn flat_rendering_of_each_kind_of_term() {
    let table = names(&["f", "x", "y"]);
    assert_eq!(format_lambda(&Lambda::var(1), &table), "x");
    assert_eq!(
        format_lambda(&Lambda::def(0, Lambda::var(1), None), &table),
        "f(x)"
    );
    assert_eq!(
        format_lambda(&Lambda::def(0, Lambda::var(1), Some(Lambda::var(2))), &table),
        "f(x).y"
    );
    assert_eq!(format_lambda(&Lambda::call(0, vec![]), &table), "f");
    assert_eq!(
        format_lambda(
            &Lambda::call(0, vec![Lambda::var(1), Lambda::call(0, vec![Lambda::var(2)])]),
            &table
        ),
        "f.(x).(f.(y))"
    );
    assert_eq!(
        format_lambda(
            &Lambda::def(
                0,
                Lambda::call(0, vec![Lambda::var(1)]),
                Some(Lambda::def(1, Lambda::var(1), None))
            ),
            &table
        ),
        "f(f.(x)).x(x)"
    );
}

#[test]
fn indented_rendering_of_each_kind_of_term() {
    let table = names(&["f", "x", "y"]);
    assert_eq!(format_lambda_indented(&Lambda::var(1), &table, 3, true), "x");
    assert_eq!(
        format_lambda_indented(&Lambda::def(0, Lambda::var(1), None), &table, 0, true),
        "f(\nx)"
    );
    assert_eq!(
        format_lambda_indented(&Lambda::def(0, Lambda::var(1), None), &table, 2, true),
        "  f(  \nx)"
    );
    assert_eq!(
        format_lambda_indented(&Lambda::def(0, Lambda::var(1), None), &table, 2, false),
        "f(  \nx)"
    );
    assert_eq!(
        format_lambda_indented(
            &Lambda::def(
                0,
                Lambda::def(1, Lambda::var(1), None),
                Some(Lambda::def(2, Lambda::var(2), None))
            ),
            &table,
            1,
            true
        ),
        " f( \n  x(  \nx))\n .y(  \ny)"
    );
    assert_eq!(
        format_lambda_indented(
            &Lambda::call(0, vec![Lambda::var(1), Lambda::call(0, vec![Lambda::var(2)])]),
            &table,
            1,
            true
        ),
        " f\n .(x)\n .(f\n  .(y))"
    );
}

#[test]
fn rendering_with_identities_in_place_of_names() {
    assert_eq!(Lambda::var(0).to_string(), "0");
    assert_eq!(Lambda::var(1234567890).to_string(), "1234567890");
    assert_eq!(Lambda::def(10, Lambda::var(9), None).to_string(), "10(9)");
    assert_eq!(
        Lambda::def(10, Lambda::var(9), Some(Lambda::var(100))).to_string(),
        "10(9).(100)"
    );
    assert_eq!(
        Lambda::call(4, vec![Lambda::var(5), Lambda::call(6, vec![])]).to_string(),
        "4.(5).(6)"
    );
}

#[test]
fn a_table_covers_a_term_when_it_names_every_identity() {
    let term = Lambda::def(
        0,
        Lambda::call(3, vec![Lambda::var(1)]),
        Some(Lambda::var(2)),
    );
    assert!(names_cover(&term, 4));
    assert!(!names_cover(&term, 3));
    assert!(!names_cover(&Lambda::var(0), 0));
    assert!(names_cover(&Lambda::call(0, vec![]), 1));
    assert!(!names_cover(&Lambda::call(0, vec![Lambda::var(1)]), 1));
    assert!(!names_cover(&Lambda::def(0, Lambda::var(0), Some(Lambda::var(1))), 1));
}

#[test]
fn the_table_of_a_parsed_program_covers_its_term() {
    for text in ["x", "a(a).b", "a(b(a.b.c)).d(e(e)).5.3", "f(f.y).x(x)", ""] {
        let (term, table) = parse_program(text).unwrap();
        assert!(names_cover(&term, table.len()), "{text}");
    }
}
