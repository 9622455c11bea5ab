use lino_transformer::{canonical, transform, Options, TransformError};

#[test]
fn transform_runs_end_to_end() {
    let program = "(rule: (name: swap) (maxApplications: 1) \
                   (match: ($x before $y)) (replace: ($y before $x)))";
    let result = transform(program, "(a before b)", Options::bounded()).unwrap();
    assert_eq!(canonical(&result.graph), "(b before a)");
    assert!(result.stop_reason.is_complete());
}

#[test]
fn transform_surfaces_compile_errors() {
    let error = transform("(rule: (match: ($x)) (replace: ($y)))", "(a)", Options::bounded())
        .unwrap_err();
    assert!(matches!(error, TransformError::Compile(_)));
}

#[test]
fn transform_surfaces_input_parse_errors() {
    let error = transform("(rule: (match: (a)) (replace: (b)))", "(a", Options::bounded())
        .unwrap_err();
    assert!(matches!(error, TransformError::Parse(_)));
    assert!(!error.to_string().is_empty());
}

#[test]
fn compile_error_text_lists_the_diagnostics() {
    let error = transform("(rule: (match: ($x)) (replace: ($y)))", "(a)", Options::bounded())
        .unwrap_err();
    assert!(error.to_string().contains("unbound variable '$y'"));
}
