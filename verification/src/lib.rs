//! # lino_transformer
//!
//! A rule-based, Turing-complete structural transformer for Links Notation
//! (LiNo).
//!
//! The transformer rewrites link structures through ordered
//! pattern/replacement rules. Both the data and the rule programs are written
//! in LiNo. Matching is structural and identity-aware rather than textual, so
//! equivalent formatting yields identical matches.
//!
//! ## Layers
//!
//! - [`compiler`] turns LiNo source into an immutable [`model::Program`].
//! - [`matcher`] performs structural matching with variable binding.
//! - [`replacer`] instantiates replacement templates and edits the graph.
//! - [`engine`] schedules rules under the ordered-first strategy with bounds
//!   and typed stop reasons.
//! - [`trace`] carries optional structured trace events.
//! - [`format`] writes graphs back out canonically.
//! - [`lino`] reads and writes Links Notation text through `links_notation`.
//! - [`cli`] holds the decisions of the command-line front end.
//! - [`laws`] relates the layers to one another.

pub mod cli;
pub mod compiler;
pub mod diagnostics;
pub mod engine;
pub mod format;
pub mod laws;
pub mod lino;
pub mod matcher;
pub mod model;
pub mod replacer;
pub mod run_laws;
pub mod text;
pub mod trace;

pub use compiler::{compile_document, compile_program};
pub use diagnostics::{Diagnostic, Diagnostics, Location};
pub use engine::{Execution, Options, RunResult, StepOutcome, StopReason};
pub use format::canonical;
pub use lino::parse_lino;
pub use links_notation::ParseError;
pub use model::{Guard, Node, Program, Rule};

use vstd::prelude::*;
use crate::compiler::{compile_result_view, is_parse_failure, spec_compile_document};
use crate::diagnostics::{diagnostics_text, location_printable};
use crate::engine::{ExecutionV, OptionsV, initial_state, spec_run};
use crate::laws::{lemma_compiled_program_valid, lemma_run_defined};
use crate::lino::lino_document;
use crate::model::{NodeV, ProgramV, is_scheduling_order};
use crate::trace::TraceEvent;

verus! {

/// Errors that can arise from the [`transform`] convenience entry point.
#[derive(Debug)]
pub enum TransformError {
    /// The program failed to compile.
    Compile(Diagnostics),
    /// The input data failed to parse as LiNo.
    Parse(ParseError),
}

impl TransformError {
    /// The message of the error: `program did not compile:` followed by the
    /// diagnostics on their own lines, or `input did not parse: ` followed by
    /// the parser's message.
    pub fn to_string(&self) -> (r: String)
        requires
            self matches TransformError::Compile(ds) ==> forall|i: int|
                0 <= i < ds@.len() ==> location_printable(#[trigger] ds@[i].location),
        ensures
            self matches TransformError::Compile(ds) ==> r@ == "program did not compile:\n"@ + diagnostics_text(ds@),
            self matches TransformError::Parse(_) ==> r@.len() >= "input did not parse: "@.len() && r@.take(
                "input did not parse: "@.len() as int,
            ) == "input did not parse: "@,
    {
        match self {
            TransformError::Compile(diagnostics) => {
                let mut s = String::from_str("program did not compile:\n");
                s.append(diagnostics.to_string().as_str());
                s
            },
            TransformError::Parse(error) => {
                let mut s = String::from_str("input did not parse: ");
                let ghost prefix = s@;
                s.append(error.to_string().as_str());
                assert(s@.take(prefix.len() as int) =~= prefix);
                s
            },
        }
    }
}

/// The result of a run holds the final state of the execution.
pub open spec fn result_holds(r: RunResult, f: ExecutionV) -> bool {
    &&& r.graph@ == f.graph
    &&& r.steps == f.steps
    &&& r.last_rule matches Some(l) ==> f.last_rule == Some(l@)
    &&& r.last_rule is None ==> f.last_rule is None
    &&& r.trace@.map_values(|e: TraceEvent| e@) == f.trace
}

/// What running compiled program `p` over graph `g` with options `o` gives:
/// a run from the fresh state, under some report of the clock and the
/// cancellation flag (none is needed without either).
pub open spec fn is_transform_outcome(p: ProgramV, g: NodeV, o: OptionsV, r: RunResult) -> bool {
    exists|scheduling: Seq<usize>, interrupts: Seq<(bool, u128)>, f: ExecutionV|
        #![trigger spec_run(initial_state(p, g, o, scheduling), interrupts, 0), result_holds(r, f)]
        {
            &&& is_scheduling_order(p.rules, scheduling)
            &&& spec_run(initial_state(p, g, o, scheduling), interrupts, 0) == Some((f, r.stop_reason))
            &&& result_holds(r, f)
            &&& !o.has_cancel && o.deadline is None ==> spec_run(initial_state(p, g, o, scheduling), Seq::empty(), 0)
                == Some((f, r.stop_reason))
        }
}

/// Compiles `program`, parses `input`, and runs to completion or to a bound.
///
/// This is the one-call convenience over [`compile_program`], [`parse_lino`],
/// and [`Execution`].
pub fn transform(program: &str, input: &str, options: Options) -> (r: Result<RunResult, TransformError>)
    ensures
        lino_document(program@) is None ==> (r matches Err(TransformError::Compile(ds)) && is_parse_failure(ds@, program@)),
        lino_document(program@) matches Some(document) ==> match spec_compile_document(document) {
            Err(ds) => (r matches Err(TransformError::Compile(d)) && d@ == ds),
            Ok(p) => match lino_document(input@) {
                None => (r matches Err(TransformError::Parse(_))),
                Some(g) => (r matches Ok(result) && is_transform_outcome(p, g, options@, result)),
            },
        },
{
    let ghost o = options@;
    let compiled = match compile_program(program) {
        Ok(p) => p,
        Err(d) => {
            return Err(TransformError::Compile(d));
        },
    };
    let graph = match parse_lino(input) {
        Ok(g) => g,
        Err(e) => {
            return Err(TransformError::Parse(e));
        },
    };
    proof {
        let document = lino_document(program@)->0;
        assert(compile_result_view(Ok::<Program, Diagnostics>(compiled)) == spec_compile_document(document));
        lemma_compiled_program_valid(document);
        assert forall|i: int| 0 <= i < compiled@.rules.len() implies crate::model::rule_labelable(
            #[trigger] compiled@.rules[i],
        ) by {
            assert(compiled@.rules.len() == compiled.rules.len());
            assert(compiled@.rules[i].order == i as usize);
        }
    }
    let mut execution = Execution::new(compiled, graph, options);
    proof {
        assert forall|e: Seq<(bool, u128)>| #[trigger] spec_run(execution@, e, 0) is Some by {
            lemma_run_defined(execution@, e, 0);
        }
    }
    let ghost start = execution@;
    let result = execution.run();
    proof {
        let f = execution@;
        let e = choose|e: Seq<(bool, u128)>| #[trigger] spec_run(start, e, 0) == Some((f, result.stop_reason));
        assert(result_holds(result, f));
        assert(spec_run(initial_state(compiled@, graph@, o, start.scheduling), e, 0) == Some((f, result.stop_reason)));
    }
    Ok(result)
}

} // verus!
