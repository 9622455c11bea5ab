//! Properties of runs: what a run agrees with, what bounds it keeps, and why
//! it stops.

use vstd::prelude::*;
use crate::engine::{
    ExecutionV, OptionsV, RunResult, StepOutcomeV, StopReason, count_usize, execution_wf, initial_state, interrupt_at, past_deadline,
    spec_applies_here, spec_find_in_values, spec_find_match, spec_eligible, spec_record_seen, spec_run, spec_select,
    spec_step, spec_step_defined,
};
use crate::lino::lino_text;
use crate::laws::law_scheduling_order_unique;
use crate::{is_transform_outcome, result_holds};
use crate::trace::TraceEvent;
use crate::model::{NodeV, ProgramV, RuleV, is_scheduling_order};
use crate::replacer::{law_subtree_after_replace, spec_instantiate, spec_subtree_at};

verus! {

/// Two states that agree on everything but the texts seen by cycle
/// detection.
pub open spec fn same_progress(a: ExecutionV, b: ExecutionV) -> bool {
    &&& a.program == b.program
    &&& a.graph == b.graph
    &&& a.options == b.options
    &&& a.scheduling == b.scheduling
    &&& a.applications == b.applications
    &&& a.steps == b.steps
    &&& a.last_rule == b.last_rule
    &&& a.trace == b.trace
}

/// Whether round `j` of a run goes on to a step: no check before the step
/// stops it.
pub open spec fn run_goes_on(s: ExecutionV, interrupts: Seq<(bool, u128)>, j: int) -> bool {
    let (cancelled, now) = interrupt_at(interrupts, j);
    &&& !(s.options.has_cancel && cancelled)
    &&& !(s.options.max_steps matches Some(m) && s.steps >= m)
    &&& s.steps != u64::MAX
    &&& !(s.options.max_nodes matches Some(m) && count_usize(s.graph) > m)
    &&& !past_deadline(s.options, now)
    &&& !(s.options.detect_cycles && s.seen.contains(lino_text(s.graph)))
}

/// The state a run ends in, where it is defined.
pub open spec fn run_end(s: ExecutionV, interrupts: Seq<(bool, u128)>, j: int) -> ExecutionV {
    match spec_run(s, interrupts, j) {
        Some((f, _)) => f,
        None => s,
    }
}

/// Why a run stops, where it is defined.
pub open spec fn run_reason(s: ExecutionV, interrupts: Seq<(bool, u128)>, j: int) -> StopReason {
    match spec_run(s, interrupts, j) {
        Some((_, r)) => r,
        None => StopReason::NormalForm,
    }
}

/// Driving [`spec_step`] by hand: step until a step reports a normal form or
/// applies a terminal rule. `None` when some step is not defined.
pub open spec fn spec_drive(s: ExecutionV) -> Option<ExecutionV>
    decreases u64::MAX - s.steps,
{
    if !spec_step_defined(s) {
        None
    } else {
        match spec_step(s).1 {
            StepOutcomeV::NormalForm => Some(spec_step(s).0),
            StepOutcomeV::Applied { terminal, .. } => if terminal {
                Some(spec_step(s).0)
            } else {
                spec_drive(spec_step(s).0)
            },
        }
    }
}

proof fn lemma_select_same(a: ExecutionV, b: ExecutionV, k: int)
    requires
        same_progress(a, b),
    ensures
        spec_select(a, k) == spec_select(b, k),
    decreases a.scheduling.len() - k,
{
    if 0 <= k < a.scheduling.len() {
        lemma_select_same(a, b, k + 1);
    }
}

/// States with the same progress step alike.
proof fn lemma_step_same(a: ExecutionV, b: ExecutionV)
    requires
        same_progress(a, b),
    ensures
        spec_step_defined(a) == spec_step_defined(b),
        same_progress(spec_step(a).0, spec_step(b).0),
        spec_step(a).1 == spec_step(b).1,
{
    lemma_select_same(a, b, 0);
}

proof fn lemma_drive_same(a: ExecutionV, b: ExecutionV)
    requires
        same_progress(a, b),
    ensures
        spec_drive(a) is Some == spec_drive(b) is Some,
        spec_drive(a) is Some ==> same_progress(spec_drive(a)->0, spec_drive(b)->0),
    decreases u64::MAX - a.steps,
{
    lemma_step_same(a, b);
    if spec_step_defined(a) {
        if let StepOutcomeV::Applied { terminal, .. } = spec_step(a).1 {
            if !terminal {
                lemma_drive_same(spec_step(a).0, spec_step(b).0);
            }
        }
    }
}

/// Where a rule is found to apply, the path leads to a node where it applies,
/// with the bindings found.
proof fn lemma_found_at_path(node: NodeV, rule: RuleV)
    ensures
        spec_find_match(node, rule) matches Some((path, b)) ==> (spec_subtree_at(node, path) matches Some(x)
            && spec_applies_here(x, rule) == Some(b)),
    decreases node, 0int,
{
    if spec_applies_here(node, rule) is None {
        if let NodeV::Link { values, .. } = node {
            lemma_found_in_values_at(values, rule, 0);
            if let Some((path, b)) = spec_find_in_values(values, rule, 0) {
                assert(spec_subtree_at(node, path) == spec_subtree_at(values[path[0] as int], path.skip(1)));
            }
        }
    }
}

proof fn lemma_found_in_values_at(values: Seq<NodeV>, rule: RuleV, i: int)
    ensures
        spec_find_in_values(values, rule, i) matches Some((path, b)) ==> path.len() > 0 && path[0] < values.len(),
        spec_find_in_values(values, rule, i) matches Some((path, b)) ==> (spec_subtree_at(
            values[path[0] as int],
            path.skip(1),
        ) matches Some(x) && spec_applies_here(x, rule) == Some(b)),
    decreases values, values.len() - i,
{
    if 0 <= i < values.len() && i <= usize::MAX {
        lemma_found_at_path(values[i], rule);
        lemma_found_in_values_at(values, rule, i + 1);
        if let Some((p, b)) = spec_find_match(values[i], rule) {
            let path = seq![i as usize] + p;
            assert(path[0] == i as usize);
            assert(path.skip(1) =~= p);
            assert(spec_subtree_at(values[path[0] as int], path.skip(1)) == spec_subtree_at(values[i], p));
        }
    }
}

/// A step rewrites where the chosen rule matches: when a rule is selected,
/// it is eligible, its pattern and guard accept the node at the selected path
/// with the selected bindings, and after the step that node is the rule's
/// template instantiated with those bindings; when none is selected, the step
/// reports a normal form and changes nothing.
pub proof fn law_step_rewrites_where_the_rule_matches(s: ExecutionV)
    requires
        is_scheduling_order(s.program.rules, s.scheduling),
        spec_step_defined(s),
    ensures
        match spec_select(s, 0) {
            None => spec_step(s).0 == s && spec_step(s).1 is NormalForm,
            Some((r, path, b)) => {
                &&& r < s.program.rules.len()
                &&& spec_eligible(s, r as int)
                &&& spec_subtree_at(s.graph, path) matches Some(x) && spec_applies_here(
                    x,
                    s.program.rules[r as int],
                ) == Some(b)
                &&& spec_instantiate(s.program.rules[r as int].template, b) matches Ok(t) && spec_subtree_at(
                    spec_step(s).0.graph,
                    path,
                ) == Some(t)
                &&& spec_step(s).0.steps == s.steps + 1
            },
        },
{
    lemma_select_in_range(s, 0);
    lemma_select_eligible(s, 0);
    lemma_select_finds(s, 0);
    if let Some((r, path, b)) = spec_select(s, 0) {
        let rule = s.program.rules[r as int];
        lemma_found_at_path(s.graph, rule);
        let t = spec_instantiate(rule.template, b)->Ok_0;
        law_subtree_after_replace(s.graph, path, t);
    }
}

/// Stepping a graph in normal form changes nothing, so stepping it again
/// reports a normal form again.
pub proof fn law_normal_form_is_stable(s: ExecutionV)
    requires
        spec_step(s).1 is NormalForm,
    ensures
        spec_step(s).0 == s,
        spec_step(spec_step(s).0).1 is NormalForm,
{
}

/// Stepping by hand reaches the state that a run ends in: when a run
/// finishes with a normal form or a terminal rule, calling `step` until it
/// reports either reaches the same graph, step count, rule counts, last rule
/// and trace, and without cycle detection the very same state.
pub proof fn law_run_agrees_with_stepping(s: ExecutionV, interrupts: Seq<(bool, u128)>, j: int)
    requires
        spec_run(s, interrupts, j) matches Some((f, r)) && (r == StopReason::NormalForm || r
            == StopReason::TerminalRule),
    ensures
        spec_drive(s) matches Some(d) && same_progress(d, run_end(s, interrupts, j)),
        !s.options.detect_cycles ==> spec_drive(s) == Some(run_end(s, interrupts, j)),
    decreases u64::MAX - s.steps,
{
    let s1 = if s.options.detect_cycles {
        spec_record_seen(s)
    } else {
        s
    };
    lemma_step_same(s, s1);
    let (s2, outcome) = spec_step(s1);
    if let StepOutcomeV::Applied { terminal, .. } = outcome {
        if !terminal {
            law_run_agrees_with_stepping(s2, interrupts, j + 1);
            lemma_drive_same(spec_step(s).0, s2);
        }
    }
}

/// A run that starts within its step limit ends within it, and a run stopped
/// by the step limit has taken exactly that many steps; without a limit, the
/// step limit only stops a run whose counter reached `u64::MAX`. A run never
/// takes steps back.
pub proof fn law_run_respects_step_limit(s: ExecutionV, interrupts: Seq<(bool, u128)>, j: int)
    requires
        spec_run(s, interrupts, j) is Some,
        s.options.max_steps matches Some(m) ==> s.steps <= m,
    ensures
        s.steps <= run_end(s, interrupts, j).steps,
        s.options.max_steps matches Some(m) ==> run_end(s, interrupts, j).steps <= m,
        run_reason(s, interrupts, j) == StopReason::StepLimit ==> match s.options.max_steps {
            Some(m) => run_end(s, interrupts, j).steps == m,
            None => run_end(s, interrupts, j).steps == u64::MAX,
        },
    decreases u64::MAX - s.steps,
{
    let s1 = if s.options.detect_cycles {
        spec_record_seen(s)
    } else {
        s
    };
    let (s2, outcome) = spec_step(s1);
    if let StepOutcomeV::Applied { terminal, .. } = outcome {
        if !terminal && run_goes_on(s, interrupts, j) && spec_step_defined(s1) {
            law_run_respects_step_limit(s2, interrupts, j + 1);
        }
    }
}

/// A run never takes steps back.
proof fn lemma_run_steps_grow(s: ExecutionV, interrupts: Seq<(bool, u128)>, j: int)
    ensures
        s.steps <= run_end(s, interrupts, j).steps,
    decreases u64::MAX - s.steps,
{
    let s1 = if s.options.detect_cycles {
        spec_record_seen(s)
    } else {
        s
    };
    let (s2, outcome) = spec_step(s1);
    if let StepOutcomeV::Applied { terminal, .. } = outcome {
        if !terminal && run_goes_on(s, interrupts, j) && spec_step_defined(s1) {
            lemma_run_steps_grow(s2, interrupts, j + 1);
        }
    }
}

proof fn lemma_select_finds(s: ExecutionV, k: int)
    ensures
        spec_select(s, k) matches Some((r, path, b)) ==> spec_find_match(s.graph, s.program.rules[r as int]) == Some(
            (path, b),
        ),
    decreases s.scheduling.len() - k,
{
    if 0 <= k < s.scheduling.len() {
        lemma_select_finds(s, k + 1);
    }
}

proof fn lemma_select_eligible(s: ExecutionV, k: int)
    ensures
        spec_select(s, k) matches Some((r, path, b)) ==> spec_eligible(s, r as int),
    decreases s.scheduling.len() - k,
{
    if 0 <= k < s.scheduling.len() {
        lemma_select_eligible(s, k + 1);
    }
}

proof fn lemma_select_in_range(s: ExecutionV, k: int)
    requires
        is_scheduling_order(s.program.rules, s.scheduling),
    ensures
        spec_select(s, k) matches Some((r, path, b)) ==> r < s.program.rules.len(),
    decreases s.scheduling.len() - k,
{
    if 0 <= k < s.scheduling.len() {
        assert(s.scheduling[k] < s.program.rules.len());
        lemma_select_in_range(s, k + 1);
    }
}

/// Every rule's application count stays within the rule's cap.
pub open spec fn within_caps(s: ExecutionV) -> bool {
    forall|i: int|
        0 <= i < s.applications.len() && i < s.program.rules.len() ==> match (#[trigger] s.program.rules[i]).max_applications {
            Some(c) => s.applications[i] <= c,
            None => true,
        }
}

/// A rule never applies more often than its `maxApplications` allows: a run
/// that starts within every rule's cap ends within it.
pub proof fn law_run_respects_caps(s: ExecutionV, interrupts: Seq<(bool, u128)>, j: int)
    requires
        spec_run(s, interrupts, j) is Some,
        execution_wf(s),
        within_caps(s),
    ensures
        within_caps(run_end(s, interrupts, j)),
    decreases u64::MAX - s.steps,
{
    let s1 = if s.options.detect_cycles {
        spec_record_seen(s)
    } else {
        s
    };
    lemma_select_eligible(s1, 0);
    lemma_select_in_range(s1, 0);
    let (s2, outcome) = spec_step(s1);
    if let Some((r, path, b)) = spec_select(s1, 0) {
        assert(within_caps(s2)) by {
            assert forall|i: int|
                0 <= i < s2.applications.len() && i < s2.program.rules.len() implies match (
                #[trigger] s2.program.rules[i]).max_applications {
                Some(c) => s2.applications[i] <= c,
                None => true,
            } by {
                assert(s2.applications == s1.applications.update(r as int, (s1.applications[r as int] + 1) as u64));
                if i != r {
                    assert(s2.applications[i] == s1.applications[i]);
                }
            }
        }
    }
    if let StepOutcomeV::Applied { terminal, .. } = outcome {
        if !terminal && run_goes_on(s, interrupts, j) && spec_step_defined(s1) {
            assert(execution_wf(s2)) by {
                assert forall|i: int| 0 <= i < s2.applications.len() implies #[trigger] s2.applications[i]
                    <= s2.steps by {
                    assert(s1.applications[i] <= s1.steps);
                }
            }
            law_run_respects_caps(s2, interrupts, j + 1);
        }
    }
}

/// With tracing on, a run records one trace event per step it applies, after
/// the events already recorded; with tracing off, it records none.
pub proof fn law_run_traces_each_step(s: ExecutionV, interrupts: Seq<(bool, u128)>, j: int)
    requires
        spec_run(s, interrupts, j) is Some,
    ensures
        ({
            let f = run_end(s, interrupts, j);
            &&& s.options.trace ==> f.trace.len() == s.trace.len() + (f.steps - s.steps) && f.trace.take(
                s.trace.len() as int,
            ) == s.trace
            &&& !s.options.trace ==> f.trace == s.trace
        }),
    decreases u64::MAX - s.steps,
{
    let s1 = if s.options.detect_cycles {
        spec_record_seen(s)
    } else {
        s
    };
    let (s2, outcome) = spec_step(s1);
    if let StepOutcomeV::Applied { terminal, .. } = outcome {
        if spec_step_defined(s1) && s.steps < u64::MAX {
            assert(s2.trace.take(s.trace.len() as int) =~= s.trace);
            if !terminal && run_goes_on(s, interrupts, j) {
                law_run_traces_each_step(s2, interrupts, j + 1);
                lemma_run_steps_grow(s2, interrupts, j + 1);
                let f = run_end(s2, interrupts, j + 1);
                if s.options.trace {
                    assert(f.trace.take(s.trace.len() as int) =~= f.trace.take(s2.trace.len() as int).take(
                        s.trace.len() as int,
                    ));
                }
            }
        }
    }
}

/// Each stop reason is truthful: a normal form is a graph where no eligible
/// rule matches; a terminal stop follows the application of a terminal rule;
/// the node limit stops only a graph larger than the limit; a detected cycle
/// is a graph whose text was seen before; cancellation stops only a run
/// whose flag was read set, and the deadline only a run whose clock read, in
/// some round, at or after the deadline.
pub proof fn law_stop_reasons_are_truthful(s: ExecutionV, interrupts: Seq<(bool, u128)>, j: int)
    requires
        spec_run(s, interrupts, j) is Some,
        is_scheduling_order(s.program.rules, s.scheduling),
    ensures
        ({
            let f = run_end(s, interrupts, j);
            let r = run_reason(s, interrupts, j);
            &&& r == StopReason::NormalForm ==> spec_select(f, 0) is None
            &&& r == StopReason::TerminalRule ==> f.steps > s.steps && exists|i: int|
                0 <= i < f.program.rules.len() && (#[trigger] f.program.rules[i]).terminal && f.last_rule == Some(
                    crate::model::spec_label(f.program.rules[i]),
                )
            &&& r == StopReason::NodeLimit ==> (f.options.max_nodes matches Some(m) && count_usize(f.graph) > m)
            &&& r == StopReason::CycleDetected ==> f.options.detect_cycles && f.seen.contains(lino_text(f.graph))
            &&& r == StopReason::Cancelled ==> f.options.has_cancel && exists|k: int|
                j <= k && #[trigger] interrupt_at(interrupts, k).0
            &&& r == StopReason::Deadline ==> exists|k: int|
                j <= k && past_deadline(f.options, #[trigger] interrupt_at(interrupts, k).1)
        }),
    decreases u64::MAX - s.steps,
{
    let s1 = if s.options.detect_cycles {
        spec_record_seen(s)
    } else {
        s
    };
    let (s2, outcome) = spec_step(s1);
    lemma_select_in_range(s1, 0);
    let (cancelled, now) = interrupt_at(interrupts, j);
    if s.options.has_cancel && cancelled {
        assert(interrupt_at(interrupts, j).0);
    }
    if past_deadline(s.options, now) {
        assert(past_deadline(s.options, interrupt_at(interrupts, j).1));
    }
    if spec_step_defined(s1) && s.steps < u64::MAX {
        if let Some((r, path, b)) = spec_select(s1, 0) {
            if s1.program.rules[r as int].terminal {
                assert(s1.program.rules[r as int].terminal && s2.last_rule == Some(
                    crate::model::spec_label(s2.program.rules[r as int]),
                ));
            }
        }
        if let StepOutcomeV::Applied { terminal, .. } = outcome {
            if !terminal && run_goes_on(s, interrupts, j) {
                law_stop_reasons_are_truthful(s2, interrupts, j + 1);
            }
        }
    }
}

/// Transforming is deterministic: without a cancellation flag or a deadline,
/// running a compiled program over a graph with given options has one
/// outcome, whatever run produced it: the same graph, stop reason, step count,
/// last rule and trace.
pub proof fn law_transform_is_deterministic(p: ProgramV, g: NodeV, o: OptionsV, r1: RunResult, r2: RunResult)
    requires
        is_transform_outcome(p, g, o, r1),
        is_transform_outcome(p, g, o, r2),
        !o.has_cancel,
        o.deadline is None,
    ensures
        r1.graph@ == r2.graph@,
        r1.stop_reason == r2.stop_reason,
        r1.steps == r2.steps,
        r1.last_rule is None <==> r2.last_rule is None,
        r1.last_rule matches Some(a) ==> (r2.last_rule matches Some(b) && a@ == b@),
        r1.trace@.map_values(|e: TraceEvent| e@) == r2.trace@.map_values(|e: TraceEvent| e@),
{
    let (o1, e1, f1) = choose|scheduling: Seq<usize>, interrupts: Seq<(bool, u128)>, f: ExecutionV|
        #![trigger spec_run(initial_state(p, g, o, scheduling), interrupts, 0), result_holds(r1, f)]
        {
            &&& is_scheduling_order(p.rules, scheduling)
            &&& spec_run(initial_state(p, g, o, scheduling), interrupts, 0) == Some((f, r1.stop_reason))
            &&& result_holds(r1, f)
            &&& !o.has_cancel && o.deadline is None ==> spec_run(initial_state(p, g, o, scheduling), Seq::empty(), 0)
                == Some((f, r1.stop_reason))
        };
    let (o2, e2, f2) = choose|scheduling: Seq<usize>, interrupts: Seq<(bool, u128)>, f: ExecutionV|
        #![trigger spec_run(initial_state(p, g, o, scheduling), interrupts, 0), result_holds(r2, f)]
        {
            &&& is_scheduling_order(p.rules, scheduling)
            &&& spec_run(initial_state(p, g, o, scheduling), interrupts, 0) == Some((f, r2.stop_reason))
            &&& result_holds(r2, f)
            &&& !o.has_cancel && o.deadline is None ==> spec_run(initial_state(p, g, o, scheduling), Seq::empty(), 0)
                == Some((f, r2.stop_reason))
        };
    law_scheduling_order_unique(p.rules, o1, o2);
    assert(f1 == f2);
    if let Some(a) = r1.last_rule {
        let b = r2.last_rule->0;
        assert(a@ == b@);
    }
}

/// Whether path `p` comes before path `q` in pre-order: `p` is a proper
/// prefix of `q`, or at the first index where they differ `p` takes the
/// smaller child.
pub open spec fn pre_order_before(p: Seq<usize>, q: Seq<usize>) -> bool
    decreases p.len(),
{
    q.len() > 0 && (p.len() == 0 || p[0] < q[0] || (p[0] == q[0] && pre_order_before(p.skip(1), q.skip(1))))
}

/// The first match inside `values[i..]` lies in the child its path names,
/// and no child before it, from `i` on, holds a match.
proof fn lemma_found_in_values_first(values: Seq<NodeV>, rule: RuleV, i: int)
    ensures
        spec_find_in_values(values, rule, i) matches Some((path, b)) ==> {
            &&& path.len() > 0
            &&& i <= path[0] < values.len()
            &&& spec_find_match(values[path[0] as int], rule) == Some((path.skip(1), b))
            &&& forall|k: int| i <= k < path[0] ==> #[trigger] spec_find_match(values[k], rule) is None
        },
    decreases values.len() - i,
{
    if 0 <= i < values.len() && i <= usize::MAX {
        lemma_found_in_values_first(values, rule, i + 1);
        if let Some((p, b)) = spec_find_match(values[i], rule) {
            let path = seq![i as usize] + p;
            assert(path[0] == i as usize);
            assert(path.skip(1) =~= p);
        }
    }
}

/// Some match inside `values[i..]` is found there.
proof fn lemma_found_in_values_complete(values: Seq<NodeV>, rule: RuleV, i: int, k: int)
    requires
        0 <= i <= k < values.len(),
        k <= usize::MAX,
        spec_find_match(values[k], rule) is Some,
    ensures
        spec_find_in_values(values, rule, i) is Some,
    decreases k - i,
{
    if i < k && spec_find_match(values[i], rule) is None {
        lemma_found_in_values_complete(values, rule, i + 1, k);
    }
}

/// Searching finds a match wherever the rule applies somewhere in the graph:
/// if the rule's pattern and guard accept the node at some path, the search
/// finds a match.
pub proof fn law_find_match_is_complete(node: NodeV, rule: RuleV, at: Seq<usize>)
    requires
        spec_subtree_at(node, at) matches Some(x) && spec_applies_here(x, rule) is Some,
    ensures
        spec_find_match(node, rule) is Some,
    decreases at.len(),
{
    if spec_applies_here(node, rule) is None {
        if at.len() > 0 {
            let values = node->values;
            let k = at[0] as int;
            law_find_match_is_complete(values[k], rule, at.skip(1));
            lemma_found_in_values_complete(values, rule, 0, k);
        }
    }
}

/// The search finds the first match in pre-order: at every path that comes
/// before the found one, the rule's pattern and guard reject the node.
pub proof fn law_find_match_is_first(node: NodeV, rule: RuleV, earlier: Seq<usize>)
    requires
        spec_find_match(node, rule) matches Some((path, b)) && pre_order_before(earlier, path),
        spec_subtree_at(node, earlier) is Some,
    ensures
        spec_applies_here(spec_subtree_at(node, earlier)->0, rule) is None,
    decreases earlier.len(),
{
    if spec_applies_here(node, rule) is None && earlier.len() > 0 {
        let values = node->values;
        lemma_found_in_values_first(values, rule, 0);
        let path = (spec_find_match(node, rule)->0).0;
        let k = earlier[0] as int;
        if k < path[0] {
            if spec_applies_here(spec_subtree_at(node, earlier)->0, rule) is Some {
                law_find_match_is_complete(values[k], rule, earlier.skip(1));
            }
        } else {
            law_find_match_is_first(values[k], rule, earlier.skip(1));
        }
    }
}

/// Where the search finds a match, the rule's pattern and guard accept the
/// node at the found path, with the bindings found.
pub proof fn law_find_match_applies(node: NodeV, rule: RuleV)
    ensures
        spec_find_match(node, rule) matches Some((path, b)) ==> (spec_subtree_at(node, path) matches Some(x)
            && spec_applies_here(x, rule) == Some(b)),
{
    lemma_found_at_path(node, rule);
}

} // verus!
