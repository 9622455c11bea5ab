//! The decisions of the command-line front end: reading the arguments,
//! choosing what to do, the run options, the exit code and the summary lines.
//! Reading files and printing stay with the program that calls these.

use vstd::prelude::*;
use crate::engine::{Options, OptionsV, RunResult, StepOutcome, StopReason, stop_reason_text};
use crate::text::{decimal, decimal_string, parse_u64, spec_parse_u64, str_eq, string_views};

verus! {

/// The help text.
pub const USAGE: &'static str = "\
lino-transformer — a rule-based transformer for Links Notation

USAGE:
    lino-transformer <COMMAND> --program <FILE> [OPTIONS]

COMMANDS:
    check    Compile a program and report diagnostics
    run      Apply a program to input and print the resulting graph
    step     Apply a single rewrite step and print the resulting graph

OPTIONS:
    -p, --program <FILE>   Program file written in Links Notation (required)
    -i, --input <FILE>     Input data file (default: standard input)
        --max-steps <N>    Step limit for run (default: 100000)
        --max-nodes <N>    Node-count limit for run
        --unbounded        Remove the step limit (trusted programs only)
        --detect-cycles    Stop run when a graph state repeats
        --trace            Print structured trace events to stderr
    -h, --help             Print this help
    -V, --version          Print version

EXIT CODES:
    0  success            2  usage/compile/parse error            3  stopped at a bound
";

/// The line that `--version` prints.
pub const VERSION_LINE: &'static str = "lino-transformer 0.1.0";

/// The exit code of success: a check that compiled, a step, or a run that
/// completed.
pub const EXIT_SUCCESS: u8 = 0;

/// The exit code of a usage, compile or parse error.
pub const EXIT_ERROR: u8 = 2;

/// The exit code of a run stopped at a bound.
pub const EXIT_BOUND: u8 = 3;

/// The parsed command line.
pub struct Cli {
    pub command: String,
    pub program: Option<String>,
    pub input: Option<String>,
    pub max_steps: Option<u64>,
    pub max_nodes: Option<usize>,
    pub unbounded: bool,
    pub detect_cycles: bool,
    pub trace: bool,
}

/// The mathematical value of a [`Cli`].
pub struct CliV {
    pub command: Seq<char>,
    pub program: Option<Seq<char>>,
    pub input: Option<Seq<char>>,
    pub max_steps: Option<u64>,
    pub max_nodes: Option<usize>,
    pub unbounded: bool,
    pub detect_cycles: bool,
    pub trace: bool,
}

pub open spec fn opt_text(o: Option<String>) -> Option<Seq<char>> {
    match o {
        Some(s) => Some(s@),
        None => None,
    }
}

impl View for Cli {
    type V = CliV;

    open spec fn view(&self) -> CliV {
        CliV {
            command: self.command@,
            program: opt_text(self.program),
            input: opt_text(self.input),
            max_steps: self.max_steps,
            max_nodes: self.max_nodes,
            unbounded: self.unbounded,
            detect_cycles: self.detect_cycles,
            trace: self.trace,
        }
    }
}

/// What `str::parse::<usize>` accepts.
pub open spec fn spec_parse_usize(t: Seq<char>) -> Option<usize> {
    match spec_parse_u64(t) {
        Some(v) => if v <= usize::MAX {
            Some(v as usize)
        } else {
            None
        },
        None => None,
    }
}

fn parse_usize(text: &str) -> (r: Option<usize>)
    ensures
        r == spec_parse_usize(text@),
{
    match parse_u64(text) {
        Some(v) => if v <= usize::MAX as u64 {
            Some(v as usize)
        } else {
            None
        },
        None => None,
    }
}

/// The message for an option whose value is missing.
pub open spec fn missing_value_text(flag: Seq<char>) -> Seq<char> {
    "option '"@ + flag + "' requires a value"@
}

/// Reads the options from argument `i` on into `cli`.
pub open spec fn spec_parse_options(args: Seq<Seq<char>>, i: int, cli: CliV) -> Result<CliV, Seq<char>>
    decreases args.len() - i,
{
    if i < 0 || i >= args.len() {
        Ok(cli)
    } else {
        let arg = args[i];
        let has_value = i + 1 < args.len();
        if arg == "-p"@ || arg == "--program"@ {
            if has_value {
                spec_parse_options(args, i + 2, CliV { program: Some(args[i + 1]), ..cli })
            } else {
                Err(missing_value_text(arg))
            }
        } else if arg == "-i"@ || arg == "--input"@ {
            if has_value {
                spec_parse_options(args, i + 2, CliV { input: Some(args[i + 1]), ..cli })
            } else {
                Err(missing_value_text(arg))
            }
        } else if arg == "--max-steps"@ {
            if has_value {
                match spec_parse_u64(args[i + 1]) {
                    Some(v) => spec_parse_options(args, i + 2, CliV { max_steps: Some(v), ..cli }),
                    None => Err("--max-steps expects a non-negative integer, found '"@ + args[i + 1] + "'"@),
                }
            } else {
                Err(missing_value_text(arg))
            }
        } else if arg == "--max-nodes"@ {
            if has_value {
                match spec_parse_usize(args[i + 1]) {
                    Some(v) => spec_parse_options(args, i + 2, CliV { max_nodes: Some(v), ..cli }),
                    None => Err("--max-nodes expects a non-negative integer, found '"@ + args[i + 1] + "'"@),
                }
            } else {
                Err(missing_value_text(arg))
            }
        } else if arg == "--unbounded"@ {
            spec_parse_options(args, i + 1, CliV { unbounded: true, ..cli })
        } else if arg == "--detect-cycles"@ {
            spec_parse_options(args, i + 1, CliV { detect_cycles: true, ..cli })
        } else if arg == "--trace"@ {
            spec_parse_options(args, i + 1, CliV { trace: true, ..cli })
        } else {
            Err("unknown option '"@ + arg + "'"@)
        }
    }
}

/// The command line with the command `command` and no options given.
pub open spec fn default_cli(command: Seq<char>) -> CliV {
    CliV {
        command,
        program: None,
        input: None,
        max_steps: None,
        max_nodes: None,
        unbounded: false,
        detect_cycles: false,
        trace: false,
    }
}

/// Reads a command line whose first argument is the command.
pub open spec fn spec_parse_args(args: Seq<Seq<char>>) -> Result<CliV, Seq<char>> {
    spec_parse_options(args, 1, default_cli(args[0]))
}

/// Takes the value that follows the flag at `*i`, moving `*i` onto it.
fn take_value(args: &Vec<String>, i: &mut usize, flag: &str) -> (r: Result<String, String>)
    requires
        *old(i) < usize::MAX,
    ensures
        *final(i) == *old(i) + 1,
        *old(i) + 1 < args.len() ==> (r matches Ok(v) && v@ == args@[*old(i) + 1]@),
        *old(i) + 1 >= args.len() ==> (r matches Err(m) && m@ == missing_value_text(flag@)),
{
    *i = *i + 1;
    if *i < args.len() {
        Ok(args[*i].clone())
    } else {
        let mut m = String::from_str("option '");
        m.append(flag);
        m.append("' requires a value");
        Err(m)
    }
}

fn text_with(prefix: &str, middle: &str, suffix: &str) -> (r: String)
    ensures
        r@ == prefix@ + middle@ + suffix@,
{
    let mut s = String::from_str(prefix);
    s.append(middle);
    s.append(suffix);
    s
}

/// Reads a command line whose first argument is the command.
pub fn parse_args(args: &Vec<String>) -> (r: Result<Cli, String>)
    requires
        args.len() > 0,
    ensures
        r matches Ok(cli) ==> spec_parse_args(string_views(args@)) == Ok::<CliV, Seq<char>>(cli@),
        r matches Err(m) ==> spec_parse_args(string_views(args@)) == Err::<CliV, Seq<char>>(m@),
{
    let ghost all = string_views(args@);
    let mut cli = Cli {
        command: args[0].clone(),
        program: None,
        input: None,
        max_steps: None,
        max_nodes: None,
        unbounded: false,
        detect_cycles: false,
        trace: false,
    };
    let mut i: usize = 1;
    while i < args.len()
        invariant
            1 <= i <= args.len(),
            all == string_views(args@),
            spec_parse_args(all) == spec_parse_options(all, i as int, cli@),
        decreases args.len() - i,
    {
        let arg = args[i].as_str();
        assert(all[i as int] == arg@);
        let start = i;
        if str_eq(arg, "-p") || str_eq(arg, "--program") {
            let v = take_value(args, &mut i, arg)?;
            assert(all[start + 1] == v@);
            cli.program = Some(v);
        } else if str_eq(arg, "-i") || str_eq(arg, "--input") {
            let v = take_value(args, &mut i, arg)?;
            assert(all[start + 1] == v@);
            cli.input = Some(v);
        } else if str_eq(arg, "--max-steps") {
            let v = take_value(args, &mut i, arg)?;
            assert(all[start + 1] == v@);
            match parse_u64(v.as_str()) {
                Some(n) => cli.max_steps = Some(n),
                None => {
                    return Err(text_with("--max-steps expects a non-negative integer, found '", v.as_str(), "'"));
                },
            }
        } else if str_eq(arg, "--max-nodes") {
            let v = take_value(args, &mut i, arg)?;
            assert(all[start + 1] == v@);
            match parse_usize(v.as_str()) {
                Some(n) => cli.max_nodes = Some(n),
                None => {
                    return Err(text_with("--max-nodes expects a non-negative integer, found '", v.as_str(), "'"));
                },
            }
        } else if str_eq(arg, "--unbounded") {
            cli.unbounded = true;
        } else if str_eq(arg, "--detect-cycles") {
            cli.detect_cycles = true;
        } else if str_eq(arg, "--trace") {
            cli.trace = true;
        } else {
            return Err(text_with("unknown option '", arg, "'"));
        }
        i = i + 1;
    }
    Ok(cli)
}

/// What the command line asks for.
pub enum Invocation {
    /// No arguments: print the usage text and exit with code 2.
    Usage,
    /// `-h` or `--help` anywhere: print the usage text and succeed.
    Help,
    /// `-V` or `--version` anywhere: print the version and succeed.
    Version,
    /// `check`: compile a program and report diagnostics.
    Check(Cli),
    /// `run`: apply a program to input and print the resulting graph.
    Run(Cli),
    /// `step`: apply a single rewrite step and print the resulting graph.
    Step(Cli),
}

/// Whether an argument is one of two spellings.
pub open spec fn has_arg(args: Seq<Seq<char>>, a: Seq<char>, b: Seq<char>) -> bool {
    exists|k: int| 0 <= k < args.len() && (args[k] == a || args[k] == b)
}

/// What a command line asks for, in the order the checks are made.
pub open spec fn spec_dispatch(args: Seq<Seq<char>>) -> Result<InvocationV, Seq<char>> {
    if args.len() == 0 {
        Ok(InvocationV::Usage)
    } else if has_arg(args, "-h"@, "--help"@) {
        Ok(InvocationV::Help)
    } else if has_arg(args, "-V"@, "--version"@) {
        Ok(InvocationV::Version)
    } else {
        match spec_parse_args(args) {
            Err(m) => Err(m),
            Ok(cli) => if cli.command == "check"@ {
                Ok(InvocationV::Check(cli))
            } else if cli.command == "run"@ {
                Ok(InvocationV::Run(cli))
            } else if cli.command == "step"@ {
                Ok(InvocationV::Step(cli))
            } else {
                Err("unknown command '"@ + cli.command + "' (expected check, run, or step)"@)
            },
        }
    }
}

/// The mathematical value of an [`Invocation`].
pub enum InvocationV {
    Usage,
    Help,
    Version,
    Check(CliV),
    Run(CliV),
    Step(CliV),
}

impl View for Invocation {
    type V = InvocationV;

    open spec fn view(&self) -> InvocationV {
        match self {
            Invocation::Usage => InvocationV::Usage,
            Invocation::Help => InvocationV::Help,
            Invocation::Version => InvocationV::Version,
            Invocation::Check(c) => InvocationV::Check(c@),
            Invocation::Run(c) => InvocationV::Run(c@),
            Invocation::Step(c) => InvocationV::Step(c@),
        }
    }
}

fn find_arg(args: &Vec<String>, a: &str, b: &str) -> (r: bool)
    ensures
        r == has_arg(string_views(args@), a@, b@),
{
    let mut k: usize = 0;
    while k < args.len()
        invariant
            0 <= k <= args.len(),
            forall|j: int| 0 <= j < k ==> (#[trigger] args@[j])@ != a@ && args@[j]@ != b@,
        decreases args.len() - k,
    {
        if str_eq(args[k].as_str(), a) || str_eq(args[k].as_str(), b) {
            assert(string_views(args@)[k as int] == args@[k as int]@);
            return true;
        }
        k = k + 1;
    }
    proof {
        if has_arg(string_views(args@), a@, b@) {
            let j = choose|j: int| 0 <= j < args.len() && (string_views(args@)[j] == a@ || string_views(args@)[j] == b@);
            assert(string_views(args@)[j] == args@[j]@);
        }
    }
    false
}

/// Decides what the command line asks for.
pub fn dispatch(args: &Vec<String>) -> (r: Result<Invocation, String>)
    ensures
        r matches Ok(inv) ==> spec_dispatch(string_views(args@)) == Ok::<InvocationV, Seq<char>>(inv@),
        r matches Err(m) ==> spec_dispatch(string_views(args@)) == Err::<InvocationV, Seq<char>>(m@),
{
    if args.len() == 0 {
        return Ok(Invocation::Usage);
    }
    if find_arg(args, "-h", "--help") {
        return Ok(Invocation::Help);
    }
    if find_arg(args, "-V", "--version") {
        return Ok(Invocation::Version);
    }
    let cli = parse_args(args)?;
    let command = cli.command.as_str();
    if str_eq(command, "check") {
        Ok(Invocation::Check(cli))
    } else if str_eq(command, "run") {
        Ok(Invocation::Run(cli))
    } else if str_eq(command, "step") {
        Ok(Invocation::Step(cli))
    } else {
        Err(text_with("unknown command '", command, "' (expected check, run, or step)"))
    }
}

/// The run options that a command line asks for: the step limit unless
/// `--unbounded` (the default limit when none is given), the node limit, cycle
/// detection and tracing; no deadline and no cancellation flag.
pub open spec fn spec_build_options(cli: CliV) -> OptionsV {
    OptionsV {
        max_steps: if cli.unbounded {
            None
        } else {
            Some(
                match cli.max_steps {
                    Some(m) => m,
                    None => Options::DEFAULT_MAX_STEPS,
                },
            )
        },
        max_nodes: cli.max_nodes,
        deadline: None,
        detect_cycles: cli.detect_cycles,
        trace: cli.trace,
        has_cancel: false,
    }
}

/// Builds the run options that a command line asks for.
pub fn build_options(cli: &Cli) -> (r: Options)
    ensures
        r@ == spec_build_options(cli@),
{
    let max_steps = if cli.unbounded {
        None
    } else {
        Some(
            match cli.max_steps {
                Some(m) => m,
                None => Options::DEFAULT_MAX_STEPS,
            },
        )
    };
    Options {
        max_steps,
        max_nodes: cli.max_nodes,
        deadline: None,
        detect_cycles: cli.detect_cycles,
        trace: cli.trace,
        cancel: None,
    }
}

/// The exit code for a run that stopped for `stop_reason`:
/// [`EXIT_SUCCESS`] on completion, [`EXIT_BOUND`] at a bound.
pub fn exit_for(stop_reason: &StopReason) -> (r: u8)
    ensures
        r == (if *stop_reason is NormalForm || *stop_reason is TerminalRule {
            EXIT_SUCCESS
        } else {
            EXIT_BOUND
        }),
{
    if stop_reason.is_complete() {
        EXIT_SUCCESS
    } else {
        EXIT_BOUND
    }
}

/// `s` when `n` is not one.
pub open spec fn plural(n: nat) -> Seq<char> {
    if n == 1 {
        Seq::empty()
    } else {
        "s"@
    }
}

fn plural_suffix(n: u64) -> (r: &'static str)
    ensures
        r@ == plural(n as nat),
{
    if n == 1 {
        proof {
            reveal_strlit("");
        }
        assert(""@ =~= Seq::<char>::empty());
        ""
    } else {
        "s"
    }
}

/// The line `check` prints for a program that compiles, such as `ok: 8 rules`.
pub fn check_summary(rule_count: usize) -> (r: String)
    ensures
        r@ == "ok: "@ + decimal(rule_count as nat) + " rule"@ + plural(rule_count as nat),
{
    let mut s = String::from_str("ok: ");
    s.append(decimal_string(rule_count as u64).as_str());
    s.append(" rule");
    s.append(plural_suffix(rule_count as u64));
    s
}

/// The line `run` prints after a run, such as
/// `stopped: normal form (no rule applies) after 3 steps`.
pub fn stop_summary(result: &RunResult) -> (r: String)
    ensures
        r@ == "stopped: "@ + stop_reason_text(result.stop_reason) + " after "@ + decimal(result.steps as nat)
            + " step"@ + plural(result.steps as nat),
{
    let mut s = String::from_str("stopped: ");
    s.append(result.stop_reason.to_string().as_str());
    s.append(" after ");
    s.append(decimal_string(result.steps).as_str());
    s.append(" step");
    s.append(plural_suffix(result.steps));
    s
}

/// The line `step` prints, such as `applied: add-succ` or
/// `normal form: no rule applied`.
pub fn step_summary(outcome: &StepOutcome) -> (r: String)
    ensures
        outcome matches StepOutcome::Applied { rule_label, terminal, .. } ==> r@ == "applied: "@ + rule_label@ + (
        if *terminal {
            " [terminal]"@
        } else {
            Seq::empty()
        }),
        outcome is NormalForm ==> r@ == "normal form: no rule applied"@,
{
    match outcome {
        StepOutcome::Applied { rule_label, terminal, .. } => {
            let mut s = String::from_str("applied: ");
            s.append(rule_label.as_str());
            if *terminal {
                s.append(" [terminal]");
            }
            s
        },
        StepOutcome::NormalForm => String::from_str("normal form: no rule applied"),
    }
}

} // verus!
