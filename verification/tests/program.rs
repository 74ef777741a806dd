use blis::compiler::compile;
use blis::helpers::format_lambda;
use blis::parser::parse_program;
use blis::reducer::full_reduce;
use blis::{run_program, Failure, Lambda};

#[test]
fn main_simple_reduction() {
    let text = "f(f.y).x(x)";
    let (reduced, _bindings) = run_program(text).unwrap();
    assert_eq!(reduced, Lambda::var(2));
}

#[test]
fn main_not_true() {
    let text = "true(not(not.true).b(b.f.t)).c(d(c))";
    let (reduced, _bindings) = run_program(text).unwrap();
    assert_eq!(reduced, Lambda::var(4));
}

#[test]
fn main_not_false() {
    let text = "false(not(not.false).b(b.f.t)).c(d(d))";
    let (reduced, _bindings) = run_program(text).unwrap();
    assert_eq!(reduced, Lambda::var(5));
}

#[test]
fn main_and_false_false() {
    let text = "
        false(
            true(
                e(
                    g(
                        e.g.f
                    )
                ).false.(false.t.f)
            ).c(
                d(
                    c
                )
            )
        ).a(
            b(
                b
            )
        )
        ";
    let (reduced, _bindings) = run_program(text).unwrap();
    assert_eq!(reduced, Lambda::var(7));
}

#[test]
fn main_and_true_false() {
    let text = "
        false(
            true(
                e(
                    g(
                        e.g.f
                    )
                ).true.(false.t.f)
            ).c(
                d(
                    c
                )
            )
        ).a(
            b(
                b
            )
        )
        ";
    let (reduced, _bindings) = run_program(text).unwrap();
    assert_eq!(reduced, Lambda::var(7));
}

#[test]
fn main_and_false_true() {
    let text = "
        false(
            true(
                e(
                    g(
                        e.g.f
                    )
                ).false.(true.t.f)
            ).c(
                d(
                    c
                )
            )
        ).a(
            b(
                b
            )
        )
        ";
    let (reduced, _bindings) = run_program(text).unwrap();
    assert_eq!(reduced, Lambda::var(7));
}

#[test]
fn main_and_true_true() {
    let text = "
        false(
            true(
                e(
                    g(
                        e.g.f
                    )
                ).true.(true.t.f)
            ).c(
                d(
                    c
                )
            )
        ).a(
            b(
                b
            )
        )
        ";
    let (reduced, _bindings) = run_program(text).unwrap();
    assert_eq!(reduced, Lambda::var(6));
}

#[test]
fn main_church_numerals() {
    let text = "
        let zero f,x(x);
        let succ n,f,x(
            f.(n.f.x)
        );
        succ.(succ.zero)
        ";
    let (result, bindings) = run_program(text).unwrap();
    assert_eq!(
        result,
        Lambda::def(
            4,
            Lambda::def(
                5,
                Lambda::call(4, vec![Lambda::call(4, vec![Lambda::var(5)])]),
                None
            ),
            None
        )
    );
    println!("{}", format_lambda(&result, &bindings));
}

#[test]
fn main_adding() {
    let text = "
        let add m,n(
            f,x(
                (m.f).(n.f.x)
            )
        );
        let succ n,f,x(
                f.(n.f.x)
        );
        let zero f,x(x);
        let m succ.(succ.(succ.zero));
        let n succ.(succ.zero);
        add.m.n
        ";

    let (result, bindings) = run_program(text).unwrap();
    assert_eq!(
        format_lambda(&result, &bindings),
        "f(x(f.(f.(f.(f.(f.(x)))))))"
    );
}

#[test]
fn main_multiplying() {
    let text = "
        let zero f,x(x);
        let succ n,f,x(
                f.(n.f.x)
        );
        let mul n,m(
            f,x(m.(n.f).x)
        );
        let m succ.(succ.(succ.zero));
        let n succ.(succ.zero);
        mul.m.n
        ";

    let (result, bindings) = run_program(text).unwrap();
    assert_eq!(
        format_lambda(&result, &bindings),
        "f(x(f.(f.(f.(f.(f.(f.(x))))))))"
    );
}

#[test]
fn omega_diverges() {
    let text = "
        let omega x(x.x);
        omega.omega
        ";
    assert_eq!(run_program(text), Err(Failure::Divergence));
}

#[test]
fn not_true_is_the_variable_named_f() {
    let text = "true(not(not.true).b(b.f.t)).c(d(c))";
    let (reduced, bindings) = run_program(text).unwrap();
    assert_eq!(format_lambda(&reduced, &bindings), "f");
}

#[test]
fn an_applied_identity_yields_the_variable_bound_by_y() {
    let (reduced, bindings) = run_program("f(f.y).x(x)").unwrap();
    assert_eq!(bindings, vec!["x", "f", "y"]);
    assert_eq!(format_lambda(&reduced, &bindings), "y");
}

#[test]
fn substitution_does_not_capture() {
    let text = "name1(name2(name1.name2)).name3(name3)";
    let (reduced, bindings) = run_program(text).unwrap();
    assert_eq!(bindings, vec!["name3", "name1", "name2"]);
    assert_eq!(reduced, Lambda::def(2, Lambda::var(2), None));
    assert_eq!(format_lambda(&reduced, &bindings), "name2(name2)");
}

#[test]
fn two_successors_of_zero_are_the_numeral_two() {
    let text = "
        let zero f,x(x);
        let succ n,f,x(f.(n.f.x));
        succ.(succ.zero)
        ";
    let (reduced, bindings) = run_program(text).unwrap();
    assert_eq!(format_lambda(&reduced, &bindings), "f(x(f.(f.(x))))");
}

#[test]
fn every_failure_reaches_the_caller() {
    assert_eq!(run_program("a(a(a))"), Err(Failure::Binding));
    assert_eq!(run_program("f.x"), Err(Failure::Syntax));
    assert_eq!(run_program("a(b"), Err(Failure::Syntax));
    assert_eq!(run_program("let f x"), Err(Failure::Syntax));
    assert_eq!(run_program("a,b"), Err(Failure::Syntax));
    assert_eq!(run_program("x(x.x).x(x.x)"), Err(Failure::Divergence));
}

#[test]
fn the_table_of_a_result_names_every_identity_in_it() {
    for text in [
        "f(f.y).x(x)",
        "let zero f,x(x); let succ n,f,x(f.(n.f.x)); succ.(succ.zero)",
        "a(b(a.b.c)).d(e(e)).5.3",
        "x",
    ] {
        let (reduced, bindings) = run_program(text).unwrap();
        assert!(blis::helpers::names_cover(&reduced, bindings.len()), "{text}");
    }
}

#[test]
fn the_product_of_eleven_and_ten_has_a_hundred_and_ten_applications() {
    let text = "
    let zero f,x(x);
    let succ n,f,x(
            f.(n.f.x)
    );
    let mul n,m(
        f,x(m.(n.f).x)
    );
    let m succ.(succ.(succ.(succ.(succ.(succ.(succ.(succ.(succ.(succ.(succ.zero))))))))));
    let n succ.(succ.(succ.(succ.(succ.(succ.(succ.(succ.(succ.(succ.zero)))))))));
    mul.m.n
    ";
    let compiled = compile(text).unwrap();
    let (lambda, bindings) = parse_program(&compiled).unwrap();
    let result = full_reduce(lambda, 1000).unwrap();
    let shown = format_lambda(&result, &bindings);
    let expected = format!("f(x({}x{}))", "f.(".repeat(110), ")".repeat(110));
    assert_eq!(shown, expected);
}
