use std::sync::atomic::AtomicBool;
use std::sync::Arc;

use lino_transformer::engine::{clock_now, count_nodes, later_by_secs};
use lino_transformer::trace::TraceEvent;
use lino_transformer::{
    canonical, compile_program, parse_lino, Execution, Options, RunResult, StepOutcome, StopReason,
};

fn run_program(source: &str, input: &str, options: Options) -> RunResult {
    let program = compile_program(source).expect("program compiles");
    let graph = parse_lino(input).expect("valid input");
    Execution::new(program, graph, options).run()
}

#[test]
fn applies_a_single_swap_rule() {
    let program = "(rule: (name: swap) (maxApplications: 1) \
                   (match: ($x before $y)) (replace: ($y before $x)))";
    let result = run_program(program, "(a before b)", Options::bounded());
    assert_eq!(canonical(&result.graph), "(b before a)");
    assert_eq!(result.stop_reason, StopReason::NormalForm);
    assert_eq!(result.steps, 1);
    assert_eq!(result.last_rule.as_deref(), Some("swap"));
}

#[test]
fn symmetric_rule_without_cap_loops_until_step_limit() {
    let program = "(rule: (match: ($x before $y)) (replace: ($y before $x)))";
    let options = Options {
        max_steps: Some(10),
        ..Options::default()
    };
    let result = run_program(program, "(a before b)", options);
    assert_eq!(result.stop_reason, StopReason::StepLimit);
    assert_eq!(result.steps, 10);
}

#[test]
fn terminal_rule_reports_terminal_completion() {
    let program = "\
        (rule: (name: grow) (match: (seed)) (replace: (sprout)))\n\
        (rule: (name: done) (terminal: true) (match: (sprout)) (replace: (flower)))";
    let result = run_program(program, "(seed)", Options::bounded());
    assert_eq!(canonical(&result.graph), "flower");
    assert_eq!(result.stop_reason, StopReason::TerminalRule);
    assert_eq!(result.last_rule.as_deref(), Some("done"));
}

#[test]
fn step_limit_stops_infinite_program() {
    let program = "(rule: (name: grow) (match: (n $x)) (replace: (n (n $x))))";
    let options = Options {
        max_steps: Some(5),
        ..Options::default()
    };
    let result = run_program(program, "(n z)", options);
    assert_eq!(result.stop_reason, StopReason::StepLimit);
    assert_eq!(result.steps, 5);
}

#[test]
fn per_rule_application_cap_limits_a_rule() {
    let program = "(rule: (name: once) (maxApplications: 1) (match: (a $x)) (replace: (b $x)))";
    let result = run_program(program, "(a (a z))", Options::bounded());
    assert_eq!(result.steps, 1);
    assert_eq!(result.stop_reason, StopReason::NormalForm);
    assert_eq!(canonical(&result.graph), "(b (a z))");
}

#[test]
fn cycle_detection_reports_repeated_state() {
    let program = "\
        (rule: (name: flip) (match: (ping)) (replace: (pong)))\n\
        (rule: (name: flop) (match: (pong)) (replace: (ping)))";
    let options = Options {
        max_steps: Some(1000),
        detect_cycles: true,
        ..Options::default()
    };
    let result = run_program(program, "(ping)", options);
    assert_eq!(result.stop_reason, StopReason::CycleDetected);
}

#[test]
fn no_applicable_rule_leaves_graph_unchanged() {
    let program = "(rule: (match: (never)) (replace: (matches)))";
    let result = run_program(program, "(something else)", Options::bounded());
    assert_eq!(canonical(&result.graph), "(something else)");
    assert_eq!(result.stop_reason, StopReason::NormalForm);
    assert_eq!(result.steps, 0);
}

#[test]
fn priority_overrides_declaration_order() {
    let program = "\
        (rule: (name: low) (match: (x)) (replace: (low_ran)))\n\
        (rule: (name: high) (priority: 10) (match: (x)) (replace: (high_ran)))";
    let result = run_program(program, "(x)", Options::bounded());
    assert_eq!(canonical(&result.graph), "high_ran");
    assert_eq!(result.last_rule.as_deref(), Some("high"));
}

#[test]
fn guard_can_reject_a_structural_match() {
    let program = "\
        (rule: (name: distinct) (match: (pair $x $y)) (guard: (notEqual $x $y)) (replace: (ok)))";
    let equal = run_program(program, "(pair a a)", Options::bounded());
    assert_eq!(canonical(&equal.graph), "(pair a a)");
    assert_eq!(equal.steps, 0);
    let distinct = run_program(program, "(pair a b)", Options::bounded());
    assert_eq!(canonical(&distinct.graph), "ok");
}

#[test]
fn step_and_run_reach_the_same_result() {
    let program_source =
        "(rule: (name: grow) (maxApplications: 3) (match: (n $x)) (replace: (n (n $x))))";
    let program = compile_program(program_source).expect("compiles");
    let input = parse_lino("(n z)").unwrap();

    let mut stepper = Execution::new(program.clone(), input.clone(), Options::bounded());
    loop {
        match stepper.step() {
            StepOutcome::Applied { terminal, .. } if terminal => break,
            StepOutcome::Applied { .. } => continue,
            StepOutcome::NormalForm => break,
        }
    }

    let mut runner = Execution::new(program, input, Options::bounded());
    let run_result = runner.run();
    assert_eq!(canonical(stepper.graph()), canonical(&run_result.graph));
}

#[test]
fn cancellation_stops_a_run() {
    let program = compile_program("(rule: (match: (n $x)) (replace: (n (n $x))))").unwrap();
    let graph = parse_lino("(n z)").unwrap();
    let flag = Arc::new(AtomicBool::new(true));
    let options = Options {
        cancel: Some(flag),
        ..Options::bounded()
    };
    let result = Execution::new(program, graph, options).run();
    assert_eq!(result.stop_reason, StopReason::Cancelled);
    assert_eq!(result.steps, 0);
}

#[test]
fn unset_cancel_flag_lets_the_run_finish() {
    let program = compile_program("(rule: (match: (a)) (replace: (b)))").unwrap();
    let graph = parse_lino("(a)").unwrap();
    let options = Options {
        cancel: Some(Arc::new(AtomicBool::new(false))),
        ..Options::bounded()
    };
    let result = Execution::new(program, graph, options).run();
    assert_eq!(result.stop_reason, StopReason::NormalForm);
    assert_eq!(result.steps, 1);
}

#[test]
fn bounded_options_have_default_limits() {
    let bounded = Options::bounded();
    assert_eq!(bounded.max_steps, Some(100_000));
    assert_eq!(Options::DEFAULT_MAX_STEPS, 100_000);
    assert_eq!(bounded.max_nodes, Some(Options::DEFAULT_MAX_NODES));
    assert_eq!(Options::DEFAULT_MAX_NODES, 1_000_000);
    assert!(bounded.deadline.is_some());
    assert_eq!(Options::DEFAULT_DEADLINE_SECS, 60);
    assert!(!bounded.detect_cycles);
    let unbounded = Options::unbounded();
    assert_eq!(unbounded.max_steps, None);
    assert_eq!(unbounded.max_nodes, None);
    assert!(unbounded.deadline.is_none());
    let default = Options::default();
    assert_eq!(default.max_steps, None);
    assert!(default.cancel.is_none());
}

#[test]
fn node_limit_stops_a_growing_graph() {
    let program = "(rule: (match: (n $x)) (replace: (n (n $x))))";
    let options = Options {
        max_nodes: Some(6),
        ..Options::bounded()
    };
    let result = run_program(program, "(n z)", options);
    assert_eq!(result.stop_reason, StopReason::NodeLimit);
    assert!(count_nodes(&result.graph) > 6);
    assert!(!result.stop_reason.is_complete());
}

#[test]
fn count_nodes_counts_references_and_links() {
    let graph = parse_lino("(a (b c) d)").unwrap();
    // document link + outer link + a + inner link + b + c + d
    assert_eq!(count_nodes(&graph), 7);
}

#[test]
fn trace_records_each_applied_step() {
    let program = "(rule: (name: grow) (maxApplications: 2) (match: (n $x)) (replace: (n (n $x))))";
    let options = Options {
        trace: true,
        ..Options::bounded()
    };
    let result = run_program(program, "(n z)", options);
    assert_eq!(result.steps, 2);
    assert_eq!(result.trace.len(), 2);
    let first: &TraceEvent = &result.trace[0];
    assert_eq!(first.step, 1);
    assert_eq!(first.rule, "grow");
    assert!(!first.terminal);
    assert!(first.nodes_after > first.nodes_before);
    assert_eq!(result.trace[1].step, 2);
}

#[test]
fn trace_is_empty_when_disabled() {
    let program = "(rule: (match: (a)) (replace: (b)))";
    let result = run_program(program, "(a)", Options::bounded());
    assert_eq!(result.steps, 1);
    assert!(result.trace.is_empty());
}

#[test]
fn unnamed_rule_is_labelled_by_position() {
    let program = "(rule: (match: (a)) (replace: (b)))\n(rule: (match: (b)) (replace: (c)))";
    let result = run_program(program, "(a)", Options::bounded());
    assert_eq!(result.steps, 2);
    assert_eq!(result.last_rule.as_deref(), Some("rule#2"));
}

#[test]
fn step_reports_rule_and_path_and_reset_restarts() {
    let program = compile_program("(rule: (name: inner) (match: (a $x)) (replace: (b $x)))").unwrap();
    let graph = parse_lino("(wrap (a z))").unwrap();
    let mut execution = Execution::new(program, graph, Options::bounded());
    match execution.step() {
        StepOutcome::Applied { rule_index, rule_label, path, terminal } => {
            assert_eq!(rule_index, 0);
            assert_eq!(rule_label, "inner");
            assert_eq!(path, vec![0, 1]);
            assert!(!terminal);
        }
        StepOutcome::NormalForm => panic!("expected a step"),
    }
    assert_eq!(execution.steps(), 1);
    assert_eq!(canonical(execution.graph()), "(wrap (b z))");
    assert_eq!(execution.step(), StepOutcome::NormalForm);
    execution.reset(parse_lino("(a q)").unwrap());
    assert_eq!(execution.steps(), 0);
    assert!(matches!(execution.step(), StepOutcome::Applied { .. }));
    assert_eq!(canonical(execution.graph()), "(b q)");
}

#[test]
fn stop_reasons_describe_themselves() {
    assert!(StopReason::NormalForm.is_complete());
    assert!(StopReason::TerminalRule.is_complete());
    assert!(!StopReason::StepLimit.is_complete());
    assert!(!StopReason::Cancelled.is_complete());
    assert_eq!(StopReason::NormalForm.to_string(), "normal form (no rule applies)");
    assert_eq!(StopReason::StepLimit.to_string(), "step limit reached");
    assert_eq!(StopReason::CycleDetected.to_string(), "cycle detected");
}

#[test]
fn all_guard_needs_every_operand_to_pass() {
    let program = "(rule: (name: r) (match: (pair $x $y)) (guard: (all (notEqual $x $y) (notEqual $y c))) (replace: (ok)))";
    let passes = run_program(program, "(pair a b)", Options::bounded());
    assert_eq!(canonical(&passes.graph), "ok");
    let blocked = run_program(program, "(pair a c)", Options::bounded());
    assert_eq!(blocked.steps, 0);
    assert_eq!(canonical(&blocked.graph), "(pair a c)");
}

#[test]
fn passed_deadline_stops_a_run() {
    let program = compile_program("(rule: (match: (n $x)) (replace: (n (n $x))))").unwrap();
    let graph = parse_lino("(n z)").unwrap();
    let options = Options {
        deadline: Some(clock_now()),
        ..Options::bounded()
    };
    let result = Execution::new(program, graph, options).run();
    assert_eq!(result.stop_reason, StopReason::Deadline);
    assert_eq!(result.steps, 0);
}

#[test]
fn cycle_detection_finds_a_longer_cycle() {
    let program = "\
        (rule: (name: one) (match: (s1)) (replace: (s2)))\n\
        (rule: (name: two) (match: (s2)) (replace: (s3)))\n\
        (rule: (name: three) (match: (s3)) (replace: (s1)))";
    let options = Options {
        detect_cycles: true,
        ..Options::bounded()
    };
    let result = run_program(program, "(s1)", options);
    assert_eq!(result.stop_reason, StopReason::CycleDetected);
    assert_eq!(result.steps, 3);
    assert_eq!(canonical(&result.graph), "s1");
}

#[test]
fn far_deadline_lets_the_run_finish() {
    let program = compile_program("(rule: (match: (a)) (replace: (b)))").unwrap();
    let options = Options {
        deadline: Some(later_by_secs(clock_now(), 3600)),
        ..Options::default()
    };
    let result = Execution::new(program, parse_lino("(a)").unwrap(), options).run();
    assert_eq!(result.stop_reason, StopReason::NormalForm);
}

#[test]
fn a_round_is_late_from_the_deadline_on() {
    let program = compile_program("(rule: (match: (n $x)) (replace: (n (n $x))))").unwrap();
    let options = Options {
        deadline: Some(1_000),
        ..Options::default()
    };
    let mut execution = Execution::new(program, parse_lino("(n z)").unwrap(), options);
    assert_eq!(execution.advance(false, 999), None);
    assert_eq!(execution.steps(), 1);
    assert_eq!(execution.advance(false, 1_000), Some(StopReason::Deadline));
    assert_eq!(execution.advance(false, 5_000), Some(StopReason::Deadline));
    assert_eq!(execution.steps(), 1);
}

#[test]
fn a_round_stops_on_a_set_cancel_flag() {
    let program = compile_program("(rule: (match: (n $x)) (replace: (n (n $x))))").unwrap();
    let options = Options {
        cancel: Some(Arc::new(AtomicBool::new(false))),
        ..Options::default()
    };
    let mut execution = Execution::new(program, parse_lino("(n z)").unwrap(), options);
    assert_eq!(execution.advance(false, 0), None);
    assert_eq!(execution.advance(true, 0), Some(StopReason::Cancelled));
    assert_eq!(execution.steps(), 1);
}

#[test]
fn later_by_secs_counts_nanoseconds_and_saturates() {
    assert_eq!(later_by_secs(5, 2), 2_000_000_005);
    assert_eq!(later_by_secs(u128::MAX - 1, 1), u128::MAX);
}
