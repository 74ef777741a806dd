use blis::binder::Binder;
use blis::parser::parse_program;
use blis::Lambda;

#[test]
fn a_new_binder_has_bound_nothing() {
    let mut binder = Binder::new();
    assert_eq!(binder.get_index(), 0);
    assert_eq!(binder.find_index("a"), None);
    assert!(binder.get_stack().is_empty());
    assert!(binder.into_names().is_empty());
}

#[test]
fn bindings_receive_identities_in_order() {
    let mut binder = Binder::new();
    assert_eq!(binder.new_binding("a".to_string()), 0);
    assert_eq!(binder.new_binding("b".to_string()), 1);
    assert_eq!(binder.get_index(), 2);
    assert_eq!(binder.find_index("a"), Some(0));
    assert_eq!(binder.find_index("b"), Some(1));
    assert_eq!(binder.find_index("c"), None);
    assert_eq!(binder.get_stack(), vec!["a", "b"]);
}

#[test]
fn a_reference_resolves_to_the_innermost_visible_binding() {
    let mut binder = Binder::new();
    binder.new_binding("a".to_string());
    binder.new_binding("b".to_string());
    binder.new_binding("a".to_string());
    assert_eq!(binder.find_index("a"), Some(2));
    binder.pop_binding();
    assert_eq!(binder.find_index("a"), Some(0));
    assert_eq!(binder.get_stack(), vec!["a", "b"]);
}

#[test]
fn a_name_bound_again_after_its_scope_was_left_gets_a_new_identity() {
    let mut binder = Binder::new();
    let first = binder.new_binding("a".to_string());
    binder.pop_binding();
    assert_eq!(binder.find_index("a"), None);
    let second = binder.new_binding("a".to_string());
    assert_ne!(first, second);
    assert_eq!(binder.find_index("a"), Some(second));
    assert_eq!(binder.into_names(), vec!["a", "a"]);
}

#[test]
fn leaving_a_scope_keeps_the_table() {
    let mut binder = Binder::new();
    binder.new_binding("a".to_string());
    binder.pop_binding();
    binder.pop_binding();
    assert_eq!(binder.get_index(), 1);
    assert!(binder.get_stack().is_empty());
    assert_eq!(binder.into_names(), vec!["a"]);
}

#[test]
fn references_create_free_variables_once() {
    let mut binder = Binder::new();
    assert_eq!(Lambda::new_var("x", &mut binder), Lambda::var(0));
    assert_eq!(Lambda::new_var("y", &mut binder), Lambda::var(1));
    assert_eq!(Lambda::new_var("x", &mut binder), Lambda::var(0));
    assert_eq!(binder.get_stack(), vec!["x", "y"]);
}

#[test]
fn sibling_scopes_with_one_name_resolve_to_different_identities() {
    let (term, table) = parse_program("a(a).a(a)").unwrap();
    assert_eq!(table, vec!["a", "a"]);
    assert_eq!(
        term,
        Lambda::def(
            1,
            Lambda::var(1),
            Some(Lambda::def(0, Lambda::var(0), None))
        )
    );
}
