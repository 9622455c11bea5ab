use lino_transformer::matcher::{match_node, Bindings};
use lino_transformer::model::Node;
use lino_transformer::parse_lino;
use lino_transformer::replacer::{instantiate, replace_at, ReplaceError};

fn parse(source: &str) -> Node {
    let document = parse_lino(source).expect("valid lino");
    match document {
        Node::Link { values, .. } => values.into_iter().next().expect("one link"),
        other => other,
    }
}

fn bindings(pairs: &[(&str, &str)]) -> Bindings {
    let mut b = Bindings::new();
    for (k, v) in pairs {
        b.insert(k.to_string(), parse(v));
    }
    b
}

#[test]
fn substitutes_bound_variables() {
    let template = parse("($y before $x)");
    let bound = bindings(&[("x", "a"), ("y", "b")]);
    assert_eq!(instantiate(&template, &bound).unwrap(), parse("(b before a)"));
}

#[test]
fn reuses_matched_subgraphs() {
    let template = parse("(wrapped $x)");
    let bound = bindings(&[("x", "(deep (nested structure))")]);
    assert_eq!(
        instantiate(&template, &bound).unwrap(),
        parse("(wrapped (deep (nested structure)))")
    );
}

#[test]
fn unbound_variable_is_an_error() {
    let template = parse("($missing)");
    let err = instantiate(&template, &Bindings::new()).unwrap_err();
    assert_eq!(err, ReplaceError::UnboundVariable("missing".into()));
}

#[test]
fn replace_at_root_replaces_everything() {
    let root = parse("(a b)");
    assert_eq!(replace_at(&root, &[], parse("(c d)")), parse("(c d)"));
}

#[test]
fn replace_at_descends_into_path() {
    let root = parse("(outer (inner target) other)");
    let updated = replace_at(&root, &[1, 1], parse("replaced"));
    assert_eq!(updated, parse("(outer (inner replaced) other)"));
}

#[test]
fn wildcard_in_template_is_an_error() {
    let template = parse("(a _)");
    let err = instantiate(&template, &Bindings::new()).unwrap_err();
    assert_eq!(err, ReplaceError::WildcardInTemplate);
    assert_eq!(err.to_string(), "template contains the anonymous wildcard '_'");
    let unbound = ReplaceError::UnboundVariable("q".into());
    assert_eq!(unbound.to_string(), "template references unbound variable '$q'");
}

#[test]
fn first_problem_in_preorder_is_reported() {
    let template = parse("(($first) _ $second)");
    let err = instantiate(&template, &Bindings::new()).unwrap_err();
    assert_eq!(err, ReplaceError::UnboundVariable("first".into()));
}

#[test]
fn replace_at_out_of_range_path_changes_nothing() {
    let root = parse("(a b)");
    assert_eq!(replace_at(&root, &[5], parse("z")), root);
    assert_eq!(replace_at(&root, &[0, 0], parse("z")), root);
}

#[test]
fn match_then_instantiate_rebuilds_the_data() {
    let pattern = parse("(pair $x (inner $y) $x)");
    let data = parse("(pair (a b) (inner c) (a b))");
    let mut b = Bindings::new();
    assert!(match_node(&pattern, &data, &mut b));
    assert_eq!(instantiate(&pattern, &b).unwrap(), data);
}

#[test]
fn replacing_with_own_subtree_is_identity() {
    let root = parse("(outer (inner target) other)");
    let subtree = parse("(inner target)");
    assert_eq!(replace_at(&root, &[1], subtree), root);
}
