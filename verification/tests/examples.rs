//! Runs the example programs described in the project documentation end to
//! end and checks their canonical results.

use lino_transformer::{canonical, transform, Options, StopReason};

const SWAP: &str =
    "(rule: (name: swap) (maxApplications: 1) (match: ($x before $y)) (replace: ($y before $x)))";

const PEANO_ADD: &str = "\
(rule: (name: add-zero) (match: (add z $b)) (replace: $b))
(rule: (name: add-succ) (match: (add (s $a) $b)) (replace: (s (add $a $b))))";

const PEANO_MUL: &str = "\
(rule: (name: add-zero) (match: (add z $b)) (replace: $b))
(rule: (name: add-succ) (match: (add (s $a) $b)) (replace: (s (add $a $b))))
(rule: (name: mul-zero) (match: (mul z $b)) (replace: z))
(rule: (name: mul-succ) (match: (mul (s $a) $b)) (replace: (add $b (mul $a $b))))";

const LIST_REVERSE: &str = "\
(rule: (name: start) (match: (reverse $list)) (replace: (rev $list e)))
(rule: (name: move) (match: (rev (c $head $tail) $acc)) (replace: (rev $tail (c $head $acc))))
(rule: (name: finish) (match: (rev e $acc)) (replace: $acc))";

const TURING_BB2: &str = "\
(rule: (name: a0-blank) (match: (tm $l A 0 e)) (replace: (tm (c 1 $l) B 0 e)))
(rule: (name: a0-cell) (match: (tm $l A 0 (c $h $r))) (replace: (tm (c 1 $l) B $h $r)))
(rule: (name: a1-blank) (match: (tm e A 1 $r)) (replace: (tm e B 0 (c 1 $r))))
(rule: (name: a1-cell) (match: (tm (c $h $l) A 1 $r)) (replace: (tm $l B $h (c 1 $r))))
(rule: (name: b0-blank) (match: (tm e B 0 $r)) (replace: (tm e A 0 (c 1 $r))))
(rule: (name: b0-cell) (match: (tm (c $h $l) B 0 $r)) (replace: (tm $l A $h (c 1 $r))))
(rule: (name: b1-blank) (match: (tm $l B 1 e)) (replace: (tm (c 1 $l) H 0 e)))
(rule: (name: b1-cell) (match: (tm $l B 1 (c $h $r))) (replace: (tm (c 1 $l) H $h $r)))";

const TURING_RUNAWAY: &str = "\
(rule: (name: right-blank) (match: (tm $l R $x e)) (replace: (tm (c $x $l) R 0 e)))
(rule: (name: right-cell) (match: (tm $l R $x (c $h $r))) (replace: (tm (c $x $l) R $h $r)))";

fn example(name: &str) -> &'static str {
    match name {
        "swap.lino" => SWAP,
        "peano-add.lino" => PEANO_ADD,
        "peano-mul.lino" => PEANO_MUL,
        "list-reverse.lino" => LIST_REVERSE,
        "turing-bb2.lino" => TURING_BB2,
        "turing-runaway.lino" => TURING_RUNAWAY,
        other => panic!("no example named {}", other),
    }
}

fn run(program_file: &str, input: &str, options: Options) -> (String, StopReason, u64) {
    let program = example(program_file);
    let result = transform(program, input, options).expect("example runs");
    (canonical(&result.graph), result.stop_reason, result.steps)
}

#[test]
fn swap_reorders_once() {
    let (graph, stop, steps) = run("swap.lino", "(a before b)", Options::bounded());
    assert_eq!(graph, "(b before a)");
    assert_eq!(stop, StopReason::NormalForm);
    assert_eq!(steps, 1);
}

#[test]
fn peano_addition_computes_two_plus_one() {
    let (graph, stop, steps) = run("peano-add.lino", "(add (s (s z)) (s z))", Options::bounded());
    assert_eq!(graph, "(s (s (s z)))");
    assert_eq!(stop, StopReason::NormalForm);
    assert_eq!(steps, 3);
}

#[test]
fn peano_multiplication_computes_two_times_three() {
    let (graph, stop, _) = run(
        "peano-mul.lino",
        "(mul (s (s z)) (s (s (s z))))",
        Options::bounded(),
    );
    assert_eq!(graph, "(s (s (s (s (s (s z))))))");
    assert_eq!(stop, StopReason::NormalForm);
}

#[test]
fn list_reverse_reverses_three_elements() {
    let (graph, stop, steps) = run(
        "list-reverse.lino",
        "(reverse (c a (c b (c c e))))",
        Options::bounded(),
    );
    assert_eq!(graph, "(c c (c b (c a e)))");
    assert_eq!(stop, StopReason::NormalForm);
    assert_eq!(steps, 5);
}

#[test]
fn busy_beaver_two_state_halts_with_four_ones() {
    let (graph, stop, steps) = run("turing-bb2.lino", "(tm e A 0 e)", Options::bounded());
    assert_eq!(graph, "(tm (c 1 (c 1 e)) H 1 (c 1 e))");
    assert_eq!(stop, StopReason::NormalForm);
    assert_eq!(steps, 6);
}

#[test]
fn runaway_machine_stops_at_the_step_limit() {
    let options = Options {
        max_steps: Some(5),
        ..Options::default()
    };
    let (_, stop, steps) = run("turing-runaway.lino", "(tm e R 0 e)", options);
    assert_eq!(stop, StopReason::StepLimit);
    assert_eq!(steps, 5);
}

#[test]
fn busy_beaver_program_has_eight_rules() {
    let program = lino_transformer::compile_program(example("turing-bb2.lino")).expect("compiles");
    assert_eq!(program.rules.len(), 8);
}
