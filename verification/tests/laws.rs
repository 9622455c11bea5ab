use lino_transformer::engine::count_nodes;
use lino_transformer::matcher::{evaluate_guard, match_node, Bindings};
use lino_transformer::Guard;
use lino_transformer::replacer::{instantiate, replace_at};
use lino_transformer::{
    canonical, compile_program, parse_lino, transform, Execution, Node, Options, StepOutcome, StopReason,
};

fn parse(source: &str) -> Node {
    match parse_lino(source).expect("valid lino") {
        Node::Link { values, .. } => values.into_iter().next().expect("one link"),
        other => other,
    }
}

#[test]
fn instantiating_a_pattern_with_its_match_rebuilds_the_data() {
    for (pattern, data) in [
        ("(pair $x ($y $x))", "(pair a (b a))"),
        ("(loves: $who (deep $what))", "(loves: ann (deep (x y)))"),
        ("(literal only)", "(literal only)"),
    ] {
        let pattern = parse(pattern);
        let data = parse(data);
        let mut bindings = Bindings::new();
        assert!(match_node(&pattern, &data, &mut bindings));
        assert_eq!(instantiate(&pattern, &bindings).unwrap(), data);
    }
}

#[test]
fn replacing_a_subtree_with_itself_changes_nothing() {
    let root = parse("(outer (inner target) other)");
    let same = replace_at(&root, &[1], parse("(inner target)"));
    assert_eq!(same, root);
}

#[test]
fn scheduling_order_is_the_same_every_time() {
    let program = compile_program(
        "(rule: (name: a) (match: (a)) (replace: (b)))\n\
         (rule: (name: b) (priority: 3) (match: (b)) (replace: (c)))\n\
         (rule: (name: c) (priority: -1) (match: (c)) (replace: (d)))\n\
         (rule: (name: d) (priority: 3) (match: (d)) (replace: (e)))",
    )
    .unwrap();
    let first = program.scheduling_order();
    assert_eq!(first, vec![1, 3, 0, 2]);
    assert_eq!(program.scheduling_order(), first);
    assert_eq!(program.clone().scheduling_order(), first);
}

#[test]
fn stepping_reaches_the_state_a_run_ends_in() {
    let source = "\
        (rule: (name: grow) (maxApplications: 2) (match: (n $x)) (replace: (n (n $x))))\n\
        (rule: (name: stop) (terminal: true) (match: (n (n (n z)))) (replace: done))";
    let program = compile_program(source).unwrap();
    let input = parse_lino("(n z)").unwrap();
    let options = Options {
        trace: true,
        ..Options::bounded()
    };
    let mut stepper = Execution::new(program.clone(), input.clone(), options.clone());
    let mut steps = 0;
    loop {
        match stepper.step() {
            StepOutcome::Applied { terminal: true, .. } | StepOutcome::NormalForm => break,
            StepOutcome::Applied { .. } => steps += 1,
        }
    }
    let result = Execution::new(program, input, options).run();
    assert_eq!(result.stop_reason, StopReason::TerminalRule);
    assert_eq!(stepper.graph(), &result.graph);
    assert_eq!(stepper.steps(), result.steps);
    assert_eq!(steps + 1, result.steps);
    assert_eq!(canonical(&result.graph), "done");
}

#[test]
fn a_run_never_passes_its_step_limit() {
    for limit in [0u64, 1, 4, 9] {
        let result = transform(
            "(rule: (match: (n $x)) (replace: (n (n $x))))",
            "(n z)",
            Options {
                max_steps: Some(limit),
                ..Options::default()
            },
        )
        .unwrap();
        assert_eq!(result.steps, limit);
        assert_eq!(result.stop_reason, StopReason::StepLimit);
    }
}

#[test]
fn a_rule_never_passes_its_cap() {
    let result = transform(
        "(rule: (name: grow) (maxApplications: 3) (match: (n $x)) (replace: (n (n $x))))",
        "(n z)",
        Options::bounded(),
    )
    .unwrap();
    assert_eq!(result.steps, 3);
    assert_eq!(result.stop_reason, StopReason::NormalForm);
}

#[test]
fn tracing_records_one_event_per_step() {
    let options = Options {
        trace: true,
        max_steps: Some(6),
        ..Options::default()
    };
    let result = transform("(rule: (match: (n $x)) (replace: (n (n $x))))", "(n z)", options).unwrap();
    assert_eq!(result.trace.len() as u64, result.steps);
    for (i, event) in result.trace.iter().enumerate() {
        assert_eq!(event.step, i as u64 + 1);
    }
}

#[test]
fn stop_reasons_tell_the_truth() {
    // a normal form is a graph where no rule applies any more
    let program = compile_program("(rule: (match: (a $x)) (replace: (b $x)))").unwrap();
    let mut execution = Execution::new(program, parse_lino("(a (a z))").unwrap(), Options::bounded());
    let result = execution.run();
    assert_eq!(result.stop_reason, StopReason::NormalForm);
    assert_eq!(execution.step(), StepOutcome::NormalForm);

    // the node limit only stops a graph larger than the limit
    let result = transform(
        "(rule: (match: (n $x)) (replace: (n (n $x))))",
        "(n z)",
        Options {
            max_nodes: Some(10),
            ..Options::bounded()
        },
    )
    .unwrap();
    assert_eq!(result.stop_reason, StopReason::NodeLimit);
    assert!(count_nodes(&result.graph) > 10);
}

#[test]
fn transforming_twice_gives_the_same_result() {
    let program = "(rule: (name: swap) (maxApplications: 1) (match: ($x before $y)) (replace: ($y before $x)))";
    let first = transform(program, "(a before b) (c before d)", Options::bounded()).unwrap();
    let second = transform(program, "(a before b) (c before d)", Options::bounded()).unwrap();
    assert_eq!(first.graph, second.graph);
    assert_eq!(first.steps, second.steps);
    assert_eq!(first.stop_reason, second.stop_reason);
    assert_eq!(first.last_rule, second.last_rule);
}

#[test]
fn compiled_programs_never_get_stuck() {
    let result = transform(
        "(rule: (match: (wrap $x $y)) (guard: (equal $x $y)) (replace: (same $y)))",
        "(wrap q q)",
        Options::bounded(),
    )
    .unwrap();
    assert_eq!(canonical(&result.graph), "(same q)");
    assert!(result.stop_reason.is_complete());
}

#[test]
fn a_match_keeps_earlier_bindings_and_adds_the_pattern_variables() {
    let mut bindings = Bindings::new();
    bindings.insert("z".to_string(), parse("(kept value)"));
    assert!(match_node(&parse("(a $x (b $y))"), &parse("(a q (b r))"), &mut bindings));
    assert_eq!(bindings.len(), 3);
    assert_eq!(bindings.get("z"), Some(&parse("(kept value)")));
    assert_eq!(bindings.get("x"), Some(&Node::Ref("q".to_string())));
    assert_eq!(bindings.get("y"), Some(&Node::Ref("r".to_string())));
}

#[test]
fn a_guard_operand_resolves_as_the_template_instantiates() {
    let mut bindings = Bindings::new();
    bindings.insert("x".to_string(), Node::Ref("q".to_string()));
    let operand = parse("(w $x)");
    let instantiated = instantiate(&operand, &bindings).unwrap();
    assert!(evaluate_guard(&Guard::Equal(operand, instantiated), &bindings));
    // an unbound variable neither instantiates nor resolves
    let unbound = parse("(w $u)");
    assert!(instantiate(&unbound, &bindings).is_err());
    assert!(!evaluate_guard(&Guard::Equal(parse("(w $u)"), parse("(w $u)")), &bindings));
}
