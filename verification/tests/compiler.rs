use lino_transformer::diagnostics::Location;
use lino_transformer::{compile_document, compile_program, parse_lino, Guard, Node};

#[test]
fn compiles_a_complete_rule() {
    let program = compile_program(
        "(programVersion: 1)\n\
         (rule: (name: swap) (priority: 2) (maxApplications: 3) (terminal: false) \
         (match: ($x before $y)) (replace: ($y before $x)) (guard: (notEqual $x $y)))",
    )
    .expect("compiles");
    assert_eq!(program.version, Some(1));
    assert_eq!(program.rules.len(), 1);
    let rule = &program.rules[0];
    assert_eq!(rule.name.as_deref(), Some("swap"));
    assert_eq!(rule.priority, 2);
    assert_eq!(rule.max_applications, Some(3));
    assert!(!rule.terminal);
    assert!(rule.guard.is_some());
}

#[test]
fn rejects_unbound_template_variable() {
    let error = compile_program("(rule: (match: ($x)) (replace: ($y)))").unwrap_err();
    assert!(error.to_string().contains("unbound variable '$y'"));
}

#[test]
fn rejects_wildcard_in_template() {
    let error = compile_program("(rule: (match: ($x)) (replace: (_)))").unwrap_err();
    assert!(error.to_string().contains("anonymous wildcard"));
}

#[test]
fn rejects_unknown_attribute() {
    let error = compile_program("(rule: (match: (a)) (replace: (b)) (color: red))").unwrap_err();
    assert!(error.to_string().contains("unknown rule attribute 'color'"));
}

#[test]
fn rejects_unknown_top_level_element() {
    let error = compile_program("(mystery: 1)").unwrap_err();
    assert!(error.to_string().contains("unknown top-level element 'mystery'"));
}

#[test]
fn rejects_missing_pattern() {
    let error = compile_program("(rule: (replace: (b)))").unwrap_err();
    assert!(error.to_string().contains("missing a match pattern"));
}

#[test]
fn rejects_empty_program() {
    let error = compile_program("(programVersion: 1)").unwrap_err();
    assert!(error.to_string().contains("at least one rule"));
}

#[test]
fn rejects_future_version() {
    let error = compile_program("(programVersion: 999)\n(rule: (match: (a)) (replace: (b)))")
        .unwrap_err();
    assert!(error.to_string().contains("newer than the supported version"));
}

#[test]
fn reports_multiple_diagnostics_at_once() {
    let error = compile_program("(rule: (match: ($x)) (replace: ($y)) (bad: attr))").unwrap_err();
    assert!(error.len() >= 2);
}

#[test]
fn rules_keep_declaration_order_and_defaults() {
    let program = compile_program(
        "(rule: (name: first) (match: (a)) (replace: (b)))\n\
         (rule: (match: (c $x)) (replace: (d $x)))",
    )
    .expect("compiles");
    assert_eq!(program.version, None);
    assert_eq!(program.rules.len(), 2);
    assert_eq!(program.rules[0].order, 0);
    assert_eq!(program.rules[1].order, 1);
    assert_eq!(program.rules[1].name, None);
    assert_eq!(program.rules[1].priority, 0);
    assert_eq!(program.rules[1].max_applications, None);
    assert!(!program.rules[1].terminal);
    assert!(program.rules[1].guard.is_none());
}

#[test]
fn guard_operands_compile_to_equal_and_not_equal() {
    let program = compile_program(
        "(rule: (match: (p $x $y)) (guard: (equal $x $y)) (replace: (same $x)))\n\
         (rule: (match: (p $x $y)) (guard: (notEqual $x b)) (replace: (other $y)))",
    )
    .expect("compiles");
    match &program.rules[0].guard {
        Some(Guard::Equal(Node::Ref(a), Node::Ref(b))) => {
            assert_eq!(a, "$x");
            assert_eq!(b, "$y");
        }
        other => panic!("unexpected guard {:?}", other),
    }
    assert!(matches!(program.rules[1].guard, Some(Guard::NotEqual(_, _))));
}

#[test]
fn guard_with_unbound_variable_is_rejected() {
    let error = compile_program("(rule: (match: ($x)) (guard: (equal $x $z)) (replace: ($x)))")
        .unwrap_err();
    assert!(error.to_string().contains("$z"));
}

#[test]
fn malformed_values_are_rejected() {
    assert!(compile_program("(rule: (priority: high) (match: (a)) (replace: (b)))").is_err());
    assert!(compile_program("(rule: (maxApplications: -1) (match: (a)) (replace: (b)))").is_err());
    assert!(compile_program("(rule: (terminal: maybe) (match: (a)) (replace: (b)))").is_err());
    assert!(compile_program("(programVersion: one)\n(rule: (match: (a)) (replace: (b)))").is_err());
}

#[test]
fn negative_priority_is_accepted() {
    let program = compile_program("(rule: (priority: -5) (match: (a)) (replace: (b)))")
        .expect("compiles");
    assert_eq!(program.rules[0].priority, -5);
}

#[test]
fn unparsable_source_is_one_program_diagnostic() {
    let error = compile_program("(rule: (match: (a)").unwrap_err();
    assert_eq!(error.len(), 1);
    assert_eq!(error.items[0].location, Location::Program);
    assert!(error.to_string().contains("failed to parse program"));
    let parser_text = links_notation::parse_lino("(rule: (match: (a)").unwrap_err().to_string();
    assert_eq!(error.items[0].message, format!("failed to parse program: {}", parser_text));
}

#[test]
fn compile_document_agrees_with_compile_program() {
    let source = "(rule: (name: r) (match: (a $x)) (replace: (b $x)))";
    let document = parse_lino(source).expect("parses");
    let from_document = compile_document(&document).expect("compiles");
    let from_source = compile_program(source).expect("compiles");
    assert_eq!(from_document, from_source);
}

#[test]
fn diagnostics_name_the_rule_location() {
    let error = compile_program(
        "(rule: (match: (a)) (replace: (b)))\n(rule: (name: bad) (match: ($x)) (replace: ($y)))",
    )
    .unwrap_err();
    let text = error.to_string();
    assert!(text.contains("bad"), "{}", text);
    assert!(matches!(error.items[0].location, Location::Rule { .. }));
}

#[test]
fn all_guard_compiles_its_operands() {
    let program = compile_program(
        "(rule: (match: (p $x $y)) (guard: (all (notEqual $x $y) (equal $x $x))) (replace: (q $y)))",
    )
    .expect("compiles");
    match &program.rules[0].guard {
        Some(Guard::All(guards)) => {
            assert_eq!(guards.len(), 2);
            assert!(matches!(guards[0], Guard::NotEqual(_, _)));
            assert!(matches!(guards[1], Guard::Equal(_, _)));
        }
        other => panic!("unexpected guard {:?}", other),
    }
}

#[test]
fn guard_errors_name_the_operator() {
    let error = compile_program("(rule: (match: ($x)) (guard: (equal $x)) (replace: ($x)))").unwrap_err();
    assert!(error.to_string().contains("guard 'equal' expects exactly two operands"));
    let error = compile_program("(rule: (match: ($x)) (guard: (similar $x $x)) (replace: ($x)))").unwrap_err();
    assert!(error.to_string().contains("unknown guard operator 'similar'"));
}
