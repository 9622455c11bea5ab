use lino_transformer::matcher::{evaluate_guard, match_node, Bindings};
use lino_transformer::model::{Guard, Node};
use lino_transformer::parse_lino;

fn parse(source: &str) -> Node {
    let document = parse_lino(source).expect("valid lino");
    match document {
        Node::Link { values, .. } => values.into_iter().next().expect("one link"),
        other => other,
    }
}

fn matches(pattern: &str, data: &str) -> Option<Bindings> {
    let mut bindings = Bindings::new();
    if match_node(&parse(pattern), &parse(data), &mut bindings) {
        Some(bindings)
    } else {
        None
    }
}

fn var(name: &str) -> Node {
    Node::Ref(name.to_string())
}

#[test]
fn literal_reference_matches_equal_reference() {
    assert!(matches("(a b)", "(a b)").is_some());
    assert!(matches("(a b)", "(a c)").is_none());
}

#[test]
fn wildcard_matches_anything_without_binding() {
    let bindings = matches("(a _)", "(a (deep structure))").expect("match");
    assert!(bindings.is_empty());
}

#[test]
fn variable_binds_matched_subtree() {
    let bindings = matches("(a $x)", "(a (b c))").expect("match");
    assert_eq!(bindings.get("x"), Some(&parse("(b c)")));
}

#[test]
fn repeated_variable_must_unify() {
    assert!(matches("($x before $x)", "(p before p)").is_some());
    assert!(matches("($x before $x)", "(p before q)").is_none());
}

#[test]
fn different_arity_does_not_match() {
    assert!(matches("(a b)", "(a b c)").is_none());
}

#[test]
fn structural_match_ignores_formatting() {
    assert!(matches("($x before $y)", "(  a   before   b )").is_some());
}

#[test]
fn identifier_links_match_on_id() {
    assert!(matches("(loves: $x $y)", "(loves: a b)").is_some());
    assert!(matches("(loves: $x $y)", "(hates: a b)").is_none());
    assert!(matches("(_: $x $y)", "(hates: a b)").is_some());
}

#[test]
fn guard_equality_uses_bindings() {
    let mut bindings = Bindings::new();
    assert!(match_node(&parse("($x $y)"), &parse("(a a)"), &mut bindings));
    let eq = Guard::Equal(var("$x"), var("$y"));
    assert!(evaluate_guard(&eq, &bindings));
    let ne = Guard::NotEqual(var("$x"), var("$y"));
    assert!(!evaluate_guard(&ne, &bindings));
}

#[test]
fn failed_match_keeps_earlier_bindings() {
    // The first child binds $x before the second child fails to match.
    let mut bindings = Bindings::new();
    assert!(!match_node(&parse("($x b)"), &parse("(a c)"), &mut bindings));
    assert_eq!(bindings.get("x"), Some(&var("a")));
    assert_eq!(bindings.len(), 1);
}

#[test]
fn matching_extends_existing_bindings() {
    let mut bindings = Bindings::new();
    bindings.insert("x".to_string(), var("a"));
    assert!(match_node(&parse("($x $y)"), &parse("(a b)"), &mut bindings));
    assert_eq!(bindings.len(), 2);
    let mut other = Bindings::new();
    other.insert("x".to_string(), var("q"));
    assert!(!match_node(&parse("($x $y)"), &parse("(a b)"), &mut other));
}

#[test]
fn reference_pattern_does_not_match_link() {
    assert!(matches("(a b)", "((a b) c)").is_none());
    let mut bindings = Bindings::new();
    assert!(!match_node(&var("a"), &parse("(a b)"), &mut bindings));
    assert!(!match_node(&parse("(a b)"), &var("a"), &mut bindings));
}

#[test]
fn guard_with_unbound_or_wildcard_operand_fails() {
    let bindings = Bindings::new();
    assert!(!evaluate_guard(&Guard::Equal(var("$missing"), var("a")), &bindings));
    assert!(!evaluate_guard(&Guard::NotEqual(var("_"), var("a")), &bindings));
    assert!(evaluate_guard(&Guard::Equal(var("a"), var("a")), &bindings));
    assert!(evaluate_guard(&Guard::All(vec![]), &bindings));
    let all = Guard::All(vec![
        Guard::Equal(var("a"), var("a")),
        Guard::NotEqual(var("a"), var("b")),
    ]);
    assert!(evaluate_guard(&all, &bindings));
    let failing = Guard::All(vec![Guard::Equal(var("a"), var("a")), Guard::Equal(var("a"), var("b"))]);
    assert!(!evaluate_guard(&failing, &bindings));
}

#[test]
fn guard_resolves_nested_operands() {
    let mut bindings = Bindings::new();
    bindings.insert("x".to_string(), var("a"));
    let nested = Node::Link { id: None, values: vec![var("$x"), var("b")] };
    let expected = Node::Link { id: None, values: vec![var("a"), var("b")] };
    assert!(evaluate_guard(&Guard::Equal(nested, expected), &bindings));
}

#[test]
fn bindings_insert_replaces_a_name() {
    let mut bindings = Bindings::new();
    bindings.insert("x".to_string(), var("a"));
    bindings.insert("x".to_string(), var("b"));
    assert_eq!(bindings.len(), 1);
    assert_eq!(bindings.get("x"), Some(&var("b")));
    assert_eq!(bindings.get("y"), None);
}
