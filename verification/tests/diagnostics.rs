use lino_transformer::trace::TraceEvent;
use lino_transformer::{Diagnostic, Diagnostics, Location};

#[test]
fn locations_are_numbered_from_one() {
    assert_eq!(Location::Program.to_string(), "program");
    assert_eq!(Location::TopLevel { index: 0 }.to_string(), "top-level element #1");
    assert_eq!(Location::Rule { index: 2, name: None }.to_string(), "rule #3");
    assert_eq!(
        Location::Rule { index: 0, name: Some("swap".to_string()) }.to_string(),
        "rule #1 ('swap')"
    );
}

#[test]
fn diagnostics_join_on_separate_lines() {
    let mut diagnostics = Diagnostics::new();
    assert!(diagnostics.is_empty());
    assert_eq!(diagnostics.to_string(), "");
    diagnostics.push(Diagnostic::new(Location::Program, "first".to_string()));
    diagnostics.push(Diagnostic::new(Location::TopLevel { index: 1 }, "second".to_string()));
    assert_eq!(diagnostics.len(), 2);
    assert!(!diagnostics.is_empty());
    assert_eq!(diagnostics.to_string(), "program: first\ntop-level element #2: second");
    assert_eq!(diagnostics.items[0].to_string(), "program: first");
    assert_eq!(Diagnostics::default(), Diagnostics::new());
}

#[test]
fn trace_events_describe_the_step() {
    let event = TraceEvent {
        step: 3,
        rule: "grow".to_string(),
        path: vec![0, 2, 1],
        nodes_before: 5,
        nodes_after: 7,
        terminal: false,
    };
    assert_eq!(event.to_string(), "step 3: applied grow at 0.2.1 (5 -> 7 nodes)");
    let root = TraceEvent {
        step: 1,
        rule: "done".to_string(),
        path: vec![],
        nodes_before: 2,
        nodes_after: 1,
        terminal: true,
    };
    assert_eq!(root.to_string(), "step 1: applied done at root (2 -> 1 nodes) [terminal]");
    assert_eq!(root.clone(), root);
}
