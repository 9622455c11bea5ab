use lino_transformer::model::{is_wildcard, variable_name, Node, Program, Rule};

fn reference(text: &str) -> Node {
    Node::Ref(text.to_string())
}

#[test]
fn detects_variables_and_wildcards() {
    assert_eq!(variable_name("$x"), Some("x"));
    assert_eq!(variable_name("$abc"), Some("abc"));
    assert_eq!(variable_name("$"), None);
    assert_eq!(variable_name("x"), None);
    assert!(is_wildcard("_"));
    assert!(!is_wildcard("_x"));
}

#[test]
fn variable_name_is_unicode_safe() {
    assert_eq!(variable_name("$переменная"), Some("переменная"));
    assert_eq!(variable_name("$café"), Some("café"));
}

#[test]
fn scheduling_orders_by_priority_then_declaration() {
    let mut low = Rule::new(reference("a"), reference("b"));
    low.order = 0;
    low.priority = 0;
    let mut high = Rule::new(reference("c"), reference("d"));
    high.order = 1;
    high.priority = 5;
    let mut mid = Rule::new(reference("e"), reference("f"));
    mid.order = 2;
    mid.priority = 5;
    let program = Program {
        version: Some(1),
        rules: vec![low, high, mid],
    };
    assert_eq!(program.scheduling_order(), vec![1, 2, 0]);
}

#[test]
fn scheduling_is_stable_for_equal_keys() {
    // Hand-built rules all share order 0 and priority 0, so the index breaks
    // the tie.
    let rules = vec![
        Rule::new(reference("a"), reference("b")),
        Rule::new(reference("c"), reference("d")),
        Rule::new(reference("e"), reference("f")),
    ];
    let program = Program { version: None, rules };
    assert_eq!(program.scheduling_order(), vec![0, 1, 2]);
}

#[test]
fn scheduling_puts_negative_priority_last() {
    let mut first = Rule::new(reference("a"), reference("b"));
    first.priority = -3;
    first.order = 0;
    let mut second = Rule::new(reference("c"), reference("d"));
    second.order = 1;
    let program = Program { version: None, rules: vec![first, second] };
    assert_eq!(program.scheduling_order(), vec![1, 0]);
}

#[test]
fn label_prefers_name_then_position() {
    let mut rule = Rule::new(reference("a"), reference("b"));
    rule.order = 4;
    assert_eq!(rule.label(), "rule#5");
    rule.name = Some("grow".to_string());
    assert_eq!(rule.label(), "grow");
}

#[test]
fn variable_name_rejects_other_prefixes() {
    assert_eq!(variable_name(""), None);
    assert_eq!(variable_name("x$y"), None);
    assert_eq!(variable_name("$$"), Some("$"));
    assert!(!is_wildcard(""));
    assert!(!is_wildcard("__"));
}

#[test]
fn clones_are_equal() {
    let node = Node::Link {
        id: Some("id".to_string()),
        values: vec![reference("a"), Node::Link { id: None, values: vec![reference("b")] }],
    };
    assert_eq!(node.clone(), node);
    let rule = Rule::new(node.clone(), reference("z"));
    assert_eq!(rule.clone(), rule);
}
