use lino_transformer::cli::{
    build_options, check_summary, dispatch, exit_for, parse_args, step_summary, stop_summary, Invocation, EXIT_BOUND,
    EXIT_ERROR, EXIT_SUCCESS, USAGE, VERSION_LINE,
};
use lino_transformer::{compile_program, parse_lino, Execution, Options, StepOutcome, StopReason};

fn args(items: &[&str]) -> Vec<String> {
    items.iter().map(|s| s.to_string()).collect()
}

#[test]
fn no_arguments_ask_for_usage() {
    assert!(matches!(dispatch(&args(&[])), Ok(Invocation::Usage)));
}

#[test]
fn help_and_version_come_before_the_command() {
    assert!(matches!(dispatch(&args(&["--help"])), Ok(Invocation::Help)));
    assert!(matches!(dispatch(&args(&["run", "-h"])), Ok(Invocation::Help)));
    assert!(matches!(dispatch(&args(&["--version"])), Ok(Invocation::Version)));
    assert!(matches!(dispatch(&args(&["bogus", "-V", "--nope"])), Ok(Invocation::Version)));
    // help wins over version
    assert!(matches!(dispatch(&args(&["-V", "--help"])), Ok(Invocation::Help)));
}

#[test]
fn run_command_collects_its_options() {
    let invocation = dispatch(&args(&[
        "run",
        "--program",
        "swap.lino",
        "-i",
        "data.lino",
        "--max-steps",
        "5",
        "--max-nodes",
        "40",
        "--detect-cycles",
        "--trace",
    ]))
    .expect("parses");
    match invocation {
        Invocation::Run(cli) => {
            assert_eq!(cli.command, "run");
            assert_eq!(cli.program.as_deref(), Some("swap.lino"));
            assert_eq!(cli.input.as_deref(), Some("data.lino"));
            assert_eq!(cli.max_steps, Some(5));
            assert_eq!(cli.max_nodes, Some(40));
            assert!(cli.detect_cycles);
            assert!(cli.trace);
            assert!(!cli.unbounded);
        }
        _ => panic!("expected run"),
    }
}

#[test]
fn check_and_step_commands_are_recognised() {
    assert!(matches!(dispatch(&args(&["check", "-p", "x.lino"])), Ok(Invocation::Check(_))));
    assert!(matches!(dispatch(&args(&["step", "-p", "x.lino"])), Ok(Invocation::Step(_))));
}

#[test]
fn unknown_command_is_an_error() {
    let error = dispatch(&args(&["explode"])).err().expect("error");
    assert_eq!(error, "unknown command 'explode' (expected check, run, or step)");
}

#[test]
fn option_errors_are_reported() {
    assert_eq!(
        parse_args(&args(&["run", "--program"])).err().unwrap(),
        "option '--program' requires a value"
    );
    assert_eq!(
        parse_args(&args(&["run", "--max-steps", "lots"])).err().unwrap(),
        "--max-steps expects a non-negative integer, found 'lots'"
    );
    assert_eq!(
        parse_args(&args(&["run", "--max-nodes", "-3"])).err().unwrap(),
        "--max-nodes expects a non-negative integer, found '-3'"
    );
    assert_eq!(parse_args(&args(&["run", "--fast"])).err().unwrap(), "unknown option '--fast'");
}

#[test]
fn options_follow_the_command_line() {
    let cli = parse_args(&args(&["run"])).unwrap();
    let options = build_options(&cli);
    assert_eq!(options.max_steps, Some(Options::bounded().max_steps.unwrap()));
    assert_eq!(options.max_nodes, None);
    assert!(options.deadline.is_none());
    assert!(!options.detect_cycles);
    assert!(options.cancel.is_none());

    let cli = parse_args(&args(&["run", "--unbounded"])).unwrap();
    let options = build_options(&cli);
    assert_eq!(options.max_steps, None);
    assert_eq!(options.max_nodes, None);
    assert!(options.deadline.is_none());

    let cli = parse_args(&args(&["run", "--unbounded", "--max-nodes", "12"])).unwrap();
    assert_eq!(build_options(&cli).max_nodes, Some(12));

    let cli = parse_args(&args(&["run", "--max-steps", "7", "--unbounded"])).unwrap();
    assert_eq!(build_options(&cli).max_steps, None);

    let cli = parse_args(&args(&["run", "--max-steps", "7"])).unwrap();
    assert_eq!(build_options(&cli).max_steps, Some(7));
}

#[test]
fn exit_codes_separate_completion_from_bounds() {
    assert_eq!(exit_for(&StopReason::NormalForm), 0);
    assert_eq!(EXIT_SUCCESS, 0);
    assert_eq!(exit_for(&StopReason::TerminalRule), 0);
    assert_eq!(exit_for(&StopReason::StepLimit), 3);
    assert_eq!(exit_for(&StopReason::NodeLimit), 3);
    assert_eq!(exit_for(&StopReason::Deadline), 3);
    assert_eq!(exit_for(&StopReason::CycleDetected), 3);
    assert_eq!(exit_for(&StopReason::Cancelled), 3);
}

#[test]
fn summaries_count_with_plurals() {
    assert_eq!(check_summary(8), "ok: 8 rules");
    assert_eq!(check_summary(1), "ok: 1 rule");
    assert_eq!(check_summary(0), "ok: 0 rules");
}

#[test]
fn run_summary_names_the_stop_reason() {
    let program = compile_program(
        "(rule: (name: right) (match: (tm $l R $x e)) (replace: (tm (c $x $l) R 0 e)))",
    )
    .unwrap();
    let options = Options {
        max_steps: Some(5),
        ..Options::default()
    };
    let result = Execution::new(program, parse_lino("(tm e R 0 e)").unwrap(), options).run();
    assert_eq!(stop_summary(&result), "stopped: step limit reached after 5 steps");

    let program = compile_program("(rule: (match: (a)) (replace: (b)))").unwrap();
    let result = Execution::new(program, parse_lino("(a)").unwrap(), Options::bounded()).run();
    assert_eq!(stop_summary(&result), "stopped: normal form (no rule applies) after 1 step");
}

#[test]
fn step_summary_names_the_rule() {
    let program = compile_program(
        "(rule: (name: add-zero) (match: (add z $b)) (replace: $b))\n\
         (rule: (name: add-succ) (match: (add (s $a) $b)) (replace: (s (add $a $b))))",
    )
    .unwrap();
    let mut execution =
        Execution::new(program, parse_lino("(add (s z) (s z))").unwrap(), Options::bounded());
    let outcome = execution.step();
    assert_eq!(step_summary(&outcome), "applied: add-succ");
    assert_eq!(lino_transformer::canonical(execution.graph()), "(s (add z (s z)))");
    assert_eq!(step_summary(&StepOutcome::NormalForm), "normal form: no rule applied");
    let terminal = StepOutcome::Applied {
        rule_index: 0,
        rule_label: "done".to_string(),
        path: vec![],
        terminal: true,
    };
    assert_eq!(step_summary(&terminal), "applied: done [terminal]");
}

const SWAP: &str =
    "(rule: (name: swap) (maxApplications: 1) (match: ($x before $y)) (replace: ($y before $x)))";

const PEANO_ADD: &str = "\
(rule: (name: add-zero) (match: (add z $b)) (replace: $b))
(rule: (name: add-succ) (match: (add (s $a) $b)) (replace: (s (add $a $b))))";

const TURING_BB2: &str = "\
(rule: (name: a0-blank) (match: (tm $l A 0 e)) (replace: (tm (c 1 $l) B 0 e)))
(rule: (name: a0-cell) (match: (tm $l A 0 (c $h $r))) (replace: (tm (c 1 $l) B $h $r)))
(rule: (name: a1-blank) (match: (tm e A 1 $r)) (replace: (tm e B 0 (c 1 $r))))
(rule: (name: a1-cell) (match: (tm (c $h $l) A 1 $r)) (replace: (tm $l B $h (c 1 $r))))
(rule: (name: b0-blank) (match: (tm e B 0 $r)) (replace: (tm e A 0 (c 1 $r))))
(rule: (name: b0-cell) (match: (tm (c $h $l) B 0 $r)) (replace: (tm $l A $h (c 1 $r))))
(rule: (name: b1-blank) (match: (tm $l B 1 e)) (replace: (tm (c 1 $l) H 0 e)))
(rule: (name: b1-cell) (match: (tm $l B 1 (c $h $r))) (replace: (tm (c 1 $l) H $h $r)))";

const TURING_RUNAWAY: &str = "\
(rule: (name: right-blank) (match: (tm $l R $x e)) (replace: (tm (c $x $l) R 0 e)))
(rule: (name: right-cell) (match: (tm $l R $x (c $h $r))) (replace: (tm (c $x $l) R $h $r)))";

/// What the `run` command decides for a program, an input and its options:
/// the printed graph, the summary line and the exit code.
fn run_command(program: &str, input: &str, command_line: &[&str]) -> (String, String, u8) {
    let cli = match dispatch(&args(command_line)).expect("parses") {
        Invocation::Run(cli) => cli,
        _ => panic!("expected run"),
    };
    let program = compile_program(program).expect("compiles");
    let graph = parse_lino(input).expect("parses");
    let result = Execution::new(program, graph, build_options(&cli)).run();
    (
        lino_transformer::canonical(&result.graph),
        stop_summary(&result),
        exit_for(&result.stop_reason),
    )
}

#[test]
fn run_swap_prints_result_and_succeeds() {
    let (graph, summary, code) =
        run_command(SWAP, "(a before b)", &["run", "--program", "swap.lino"]);
    assert_eq!(graph, "(b before a)");
    assert_eq!(code, 0);
    assert!(summary.contains("normal form"));
}

#[test]
fn check_reports_rule_count() {
    let cli = match dispatch(&args(&["check", "--program", "turing-bb2.lino"])).unwrap() {
        Invocation::Check(cli) => cli,
        _ => panic!("expected check"),
    };
    assert_eq!(cli.program.as_deref(), Some("turing-bb2.lino"));
    let program = compile_program(TURING_BB2).expect("compiles");
    assert!(check_summary(program.rules.len()).contains("8 rules"));
}

#[test]
fn bounded_stop_uses_exit_code_three() {
    let (_, summary, code) = run_command(
        TURING_RUNAWAY,
        "(tm e R 0 e)",
        &["run", "--program", "turing-runaway.lino", "--max-steps", "3"],
    );
    assert_eq!(code, 3);
    assert_eq!(code, EXIT_BOUND);
    assert!(summary.contains("after 3 steps"));
    assert!(summary.contains("step limit"));
}

#[test]
fn compile_error_uses_exit_code_two() {
    let error = lino_transformer::transform(
        "(rule: (match: ($x)) (replace: ($y)))",
        "(a)",
        Options::bounded(),
    )
    .unwrap_err();
    assert!(error.to_string().contains("did not compile"));
    assert!(matches!(error, lino_transformer::TransformError::Compile(_)));
    assert_eq!(EXIT_ERROR, 2);
}

#[test]
fn step_applies_a_single_rule() {
    let cli = match dispatch(&args(&["step", "--program", "peano-add.lino"])).unwrap() {
        Invocation::Step(cli) => cli,
        _ => panic!("expected step"),
    };
    let program = compile_program(PEANO_ADD).unwrap();
    let mut execution =
        Execution::new(program, parse_lino("(add (s z) (s z))").unwrap(), build_options(&cli));
    let outcome = execution.step();
    assert_eq!(lino_transformer::canonical(execution.graph()), "(s (add z (s z)))");
    assert!(step_summary(&outcome).contains("applied: add-succ"));
    assert_eq!(execution.steps(), 1);
}

#[test]
fn help_and_version_short_circuit() {
    assert!(USAGE.contains("USAGE"));
    assert!(VERSION_LINE.contains("lino-transformer"));
    assert!(matches!(dispatch(&args(&["--help"])), Ok(Invocation::Help)));
    assert!(matches!(dispatch(&args(&["run", "--help"])), Ok(Invocation::Help)));
    assert!(matches!(dispatch(&args(&["--version"])), Ok(Invocation::Version)));
    assert!(matches!(dispatch(&args(&["-V"])), Ok(Invocation::Version)));
}
