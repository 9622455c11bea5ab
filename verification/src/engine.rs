//! The ordered-first execution engine: matching, replacement, scheduling,
//! limits, and stop reasons.
//!
//! Each step considers rules by priority then declaration order, applies
//! exactly one replacement at the first matching node found in a stable
//! pre-order traversal, and then restarts rule selection.

use vstd::prelude::*;
use std::sync::Arc;
use std::sync::atomic::{AtomicBool, Ordering};
use std::time::{SystemTime, UNIX_EPOCH};
use crate::lino::{lino_display, lino_text};
use crate::matcher::{Bindings, BindingsV, evaluate_guard, match_node, spec_guard_passes, spec_match};
use crate::model::{
    Node, NodeV, Program, ProgramV, Rule, RuleV, clone_node, clone_program, is_scheduling_order, lemma_nodes_view,
    nodes_view, rule_labelable, spec_label,
};
use crate::replacer::{ReplaceErrorV, instantiate, replace_at, spec_instantiate, spec_replace_at};
use crate::text::{insert_name, name_set, sorted_contains, str_eq, string_views, strictly_sorted};
use crate::trace::{TraceEvent, TraceEventV, clone_event};

verus! {

#[verifier::external_type_specification]
#[verifier::external_body]
pub struct ExSystemTime(SystemTime);

/// Reads the wall clock with `std::time::SystemTime::now`. Trusted: nothing is
/// stated of the time it returns.
#[verifier::external_body]
fn system_now() -> SystemTime {
    SystemTime::now()
}

/// The nanoseconds from the Unix epoch to `t`, from
/// `SystemTime::duration_since(UNIX_EPOCH)`; `None` when `t` lies before the
/// epoch. Trusted: nothing is stated of the number, which depends on the time
/// read.
#[verifier::external_body]
fn nanos_since_epoch(t: &SystemTime) -> Option<u128> {
    match t.duration_since(UNIX_EPOCH) {
        Ok(elapsed) => Some(elapsed.as_nanos()),
        Err(_) => None,
    }
}

/// The wall clock now, in nanoseconds since the Unix epoch (0 for a clock set
/// before the epoch). Deadlines are written on this scale.
pub fn clock_now() -> u128 {
    match nanos_since_epoch(&system_now()) {
        Some(n) => n,
        None => 0,
    }
}

/// Whether the cooperative cancellation flag is set.
fn cancel_requested(flag: &Arc<AtomicBool>) -> bool {
    flag.load(Ordering::Relaxed)
}

/// Bounds and toggles that keep bounded-mode execution safe.
pub struct Options {
    /// Maximum number of rewrite steps. `None` means unbounded (use only for
    /// trusted programs); the default is a finite bound.
    pub max_steps: Option<u64>,
    /// Maximum number of nodes permitted in the working graph.
    pub max_nodes: Option<usize>,
    /// Wall-clock deadline, in nanoseconds since the Unix epoch (see
    /// [`clock_now`]).
    pub deadline: Option<u128>,
    /// When true, a repeated graph state stops the run.
    pub detect_cycles: bool,
    /// When true, record a [`TraceEvent`] per applied rewrite.
    pub trace: bool,
    /// Optional cooperative cancellation flag.
    pub cancel: Option<Arc<AtomicBool>>,
}

/// The mathematical value of [`Options`]: the clock and the cancellation flag
/// are only known to be present or absent.
pub struct OptionsV {
    pub max_steps: Option<u64>,
    pub max_nodes: Option<usize>,
    pub deadline: Option<u128>,
    pub detect_cycles: bool,
    pub trace: bool,
    pub has_cancel: bool,
}

impl View for Options {
    type V = OptionsV;

    open spec fn view(&self) -> OptionsV {
        OptionsV {
            max_steps: self.max_steps,
            max_nodes: self.max_nodes,
            deadline: self.deadline,
            detect_cycles: self.detect_cycles,
            trace: self.trace,
            has_cancel: self.cancel is Some,
        }
    }
}

impl Clone for Options {
    fn clone(&self) -> (r: Self)
        ensures
            r@ == self@,
    {
        Options {
            max_steps: self.max_steps,
            max_nodes: self.max_nodes,
            deadline: self.deadline,
            detect_cycles: self.detect_cycles,
            trace: self.trace,
            cancel: match &self.cancel {
                Some(flag) => Some(flag.clone()),
                None => None,
            },
        }
    }
}

impl Default for Options {
    fn default() -> (r: Self)
        ensures
            r@ == (OptionsV {
                max_steps: None,
                max_nodes: None,
                deadline: None,
                detect_cycles: false,
                trace: false,
                has_cancel: false,
            }),
    {
        Options { max_steps: None, max_nodes: None, deadline: None, detect_cycles: false, trace: false, cancel: None }
    }
}

/// The instant `secs` seconds after `now`, in nanoseconds, held at
/// `u128::MAX` where it would pass it.
pub open spec fn deadline_after(now: u128, secs: u64) -> u128 {
    if now + secs * 1_000_000_000 <= u128::MAX {
        (now + secs * 1_000_000_000) as u128
    } else {
        u128::MAX
    }
}

/// The instant `secs` seconds after `now`, as [`deadline_after`] says.
pub fn later_by_secs(now: u128, secs: u64) -> (r: u128)
    ensures
        r == deadline_after(now, secs),
{
    let span: u128 = (secs as u128) * 1_000_000_000;
    now.saturating_add(span)
}

impl Options {
    /// The default bounded-mode step limit.
    pub const DEFAULT_MAX_STEPS: u64 = 100_000;

    /// The default bounded-mode node limit.
    pub const DEFAULT_MAX_NODES: usize = 1_000_000;

    /// The default bounded-mode time budget, in seconds from the moment the
    /// options are made.
    pub const DEFAULT_DEADLINE_SECS: u64 = 60;

    /// Bounded defaults suitable for untrusted programs: the default step
    /// limit, the default node limit, and a deadline
    /// [`Options::DEFAULT_DEADLINE_SECS`] seconds after the clock reads now
    /// (the largest instant, where that would pass it).
    ///
    /// The documentation of bounded mode asks for caps on steps, node count
    /// and wall-clock time without giving values for the last two; a million
    /// nodes and a minute leave room for every example program many times
    /// over while still stopping a runaway program.
    pub fn bounded() -> (r: Self)
        ensures
            r@.max_steps == Some(Options::DEFAULT_MAX_STEPS),
            r@.max_nodes == Some(Options::DEFAULT_MAX_NODES),
            r@.deadline matches Some(d) && exists|now: u128| d == deadline_after(now, Options::DEFAULT_DEADLINE_SECS),
            !r@.detect_cycles,
            !r@.trace,
            !r@.has_cancel,
    {
        let now = clock_now();
        let deadline = later_by_secs(now, Options::DEFAULT_DEADLINE_SECS);
        Options {
            max_steps: Some(Options::DEFAULT_MAX_STEPS),
            max_nodes: Some(Options::DEFAULT_MAX_NODES),
            deadline: Some(deadline),
            detect_cycles: false,
            trace: false,
            cancel: None,
        }
    }

    /// Unbounded execution. Only appropriate for trusted programs that are
    /// known to terminate.
    pub fn unbounded() -> (r: Self)
        ensures
            r@ == (OptionsV {
                max_steps: None,
                max_nodes: None,
                deadline: None,
                detect_cycles: false,
                trace: false,
                has_cancel: false,
            }),
    {
        Options { max_steps: None, max_nodes: None, deadline: None, detect_cycles: false, trace: false, cancel: None }
    }
}

/// Why a run stopped.
#[derive(Debug, Clone, Copy, PartialEq, Eq, Structural)]
pub enum StopReason {
    /// No rule applied; the graph is in normal form.
    NormalForm,
    /// A terminal rule applied and halted the run.
    TerminalRule,
    /// The step limit was reached.
    StepLimit,
    /// The node-count limit was reached.
    NodeLimit,
    /// The wall-clock deadline was reached.
    Deadline,
    /// A previously seen graph state recurred.
    CycleDetected,
    /// Execution was cancelled cooperatively.
    Cancelled,
}

/// The description of a stop reason.
pub open spec fn stop_reason_text(reason: StopReason) -> Seq<char> {
    match reason {
        StopReason::NormalForm => "normal form (no rule applies)"@,
        StopReason::TerminalRule => "terminal rule applied"@,
        StopReason::StepLimit => "step limit reached"@,
        StopReason::NodeLimit => "node limit reached"@,
        StopReason::Deadline => "deadline reached"@,
        StopReason::CycleDetected => "cycle detected"@,
        StopReason::Cancelled => "cancelled"@,
    }
}

impl StopReason {
    /// Whether this stop reason represents natural completion rather than a
    /// bound or cancellation.
    pub fn is_complete(&self) -> (r: bool)
        ensures
            r == (*self is NormalForm || *self is TerminalRule),
    {
        match self {
            StopReason::NormalForm | StopReason::TerminalRule => true,
            _ => false,
        }
    }

    /// The description of the stop reason, for example `step limit reached`.
    pub fn to_string(&self) -> (r: String)
        ensures
            r@ == stop_reason_text(*self),
    {
        let text = match self {
            StopReason::NormalForm => "normal form (no rule applies)",
            StopReason::TerminalRule => "terminal rule applied",
            StopReason::StepLimit => "step limit reached",
            StopReason::NodeLimit => "node limit reached",
            StopReason::Deadline => "deadline reached",
            StopReason::CycleDetected => "cycle detected",
            StopReason::Cancelled => "cancelled",
        };
        String::from_str(text)
    }
}

/// The outcome of a single [`Execution::step`] call.
#[derive(Debug, Clone, PartialEq)]
pub enum StepOutcome {
    /// A rule applied.
    Applied { rule_index: usize, rule_label: String, path: Vec<usize>, terminal: bool },
    /// No rule applied; the graph is in normal form.
    NormalForm,
}

/// The mathematical value of a [`StepOutcome`].
pub enum StepOutcomeV {
    Applied { rule_index: usize, rule_label: Seq<char>, path: Seq<usize>, terminal: bool },
    NormalForm,
}

impl View for StepOutcome {
    type V = StepOutcomeV;

    open spec fn view(&self) -> StepOutcomeV {
        match self {
            StepOutcome::Applied { rule_index, rule_label, path, terminal } => StepOutcomeV::Applied {
                rule_index: *rule_index,
                rule_label: rule_label@,
                path: path@,
                terminal: *terminal,
            },
            StepOutcome::NormalForm => StepOutcomeV::NormalForm,
        }
    }
}

/// The result of running to completion or to a bound.
#[derive(Debug, Clone, PartialEq)]
pub struct RunResult {
    /// The final graph.
    pub graph: Node,
    /// Why the run stopped.
    pub stop_reason: StopReason,
    /// Total number of applied steps.
    pub steps: u64,
    /// The label of the last applied rule, if any.
    pub last_rule: Option<String>,
    /// Recorded trace events (empty unless tracing was enabled).
    pub trace: Vec<TraceEvent>,
}

/// The number of nodes (references and links) in a graph.
pub open spec fn spec_count(node: NodeV) -> nat
    decreases node,
{
    match node {
        NodeV::Ref(_) => 1,
        NodeV::Link { values, .. } => 1 + spec_count_all(values),
    }
}

pub open spec fn spec_count_all(nodes: Seq<NodeV>) -> nat
    decreases nodes,
{
    if nodes.len() == 0 {
        0
    } else {
        spec_count(nodes[0]) + spec_count_all(nodes.skip(1))
    }
}

/// A node count as a `usize`, saturating at `usize::MAX`.
pub open spec fn count_usize(node: NodeV) -> usize {
    if spec_count(node) <= usize::MAX {
        spec_count(node) as usize
    } else {
        usize::MAX
    }
}

/// Counts the total number of nodes (references and links) in a graph,
/// saturating at `usize::MAX`.
pub fn count_nodes(node: &Node) -> (r: usize)
    ensures
        r == count_usize(node@),
    decreases node@,
{
    match node {
        Node::Ref(_) => 1,
        Node::Link { values, .. } => {
            proof {
                lemma_nodes_view(values@);
            }
            let ghost vs = nodes_view(values@);
            let mut total: usize = 1;
            let mut i: usize = values.len();
            assert(vs.skip(vs.len() as int) =~= Seq::<NodeV>::empty());
            while i > 0
                invariant
                    0 <= i <= values.len(),
                    node@ == (NodeV::Link { id: node@->id, values: vs }),
                    vs == nodes_view(values@),
                    vs.len() == values.len(),
                    forall|j: int| 0 <= j < values.len() ==> #[trigger] vs[j] == values@[j]@,
                    total as int == if 1 + spec_count_all(vs.skip(i as int)) <= usize::MAX {
                        (1 + spec_count_all(vs.skip(i as int))) as int
                    } else {
                        usize::MAX as int
                    },
                decreases i,
            {
                assert(decreases_to!(node@ => node@->values));
                assert(decreases_to!(node@->values => node@->values[i - 1]));
                let c = count_nodes(&values[i - 1]);
                proof {
                    assert(vs.skip(i - 1)[0] == vs[i - 1]);
                    assert(vs.skip(i - 1).skip(1) =~= vs.skip(i as int));
                }
                total = total.saturating_add(c);
                i = i - 1;
            }
            assert(vs.skip(0) =~= vs);
            total
        },
    }
}

/// The bindings under which `rule` applies at `node` itself: its pattern
/// matches from empty bindings and its guard, if any, passes.
pub open spec fn spec_applies_here(node: NodeV, rule: RuleV) -> Option<BindingsV> {
    let (matched, b) = spec_match(rule.pattern, node, Map::empty());
    if matched && match rule.guard {
        Some(g) => spec_guard_passes(g, b),
        None => true,
    } {
        Some(b)
    } else {
        None
    }
}

/// The first node, in pre-order, where `rule` applies: its path and the
/// bindings of the match there.
pub open spec fn spec_find_match(node: NodeV, rule: RuleV) -> Option<(Seq<usize>, BindingsV)>
    decreases node, 0nat,
{
    match spec_applies_here(node, rule) {
        Some(b) => Some((Seq::empty(), b)),
        None => match node {
            NodeV::Link { values, .. } => spec_find_in_values(values, rule, 0),
            NodeV::Ref(_) => None,
        },
    }
}

/// The first match of `rule` inside `values[i..]`, with the path starting at
/// the child's index (an index is a `usize`, so the search ends past
/// `usize::MAX`).
pub open spec fn spec_find_in_values(values: Seq<NodeV>, rule: RuleV, i: int) -> Option<(Seq<usize>, BindingsV)>
    decreases values, values.len() - i,
{
    if i < 0 || i >= values.len() || i > usize::MAX {
        None
    } else {
        match spec_find_match(values[i], rule) {
            Some((path, b)) => Some((seq![i as usize] + path, b)),
            None => spec_find_in_values(values, rule, i + 1),
        }
    }
}

/// Searches `node` in pre-order; `path` is the path to `node` on entry.
fn find_match_inner(node: &Node, rule: &Rule, path: &mut Vec<usize>) -> (r: Option<(Vec<usize>, Bindings)>)
    ensures
        r is None ==> spec_find_match(node@, rule@) is None && final(path)@ == old(path)@,
        r matches Some((p, b)) ==> spec_find_match(node@, rule@) == Some((p@.skip(old(path)@.len() as int), b@))
            && p@.take(old(path)@.len() as int) == old(path)@ && old(path)@.len() <= p@.len() && final(path)@ == p@,
    decreases node@,
{
    let mut bindings = Bindings::new();
    if match_node(&rule.pattern, node, &mut bindings) {
        let guard_ok = match &rule.guard {
            Some(g) => evaluate_guard(g, &bindings),
            None => true,
        };
        if guard_ok {
            let p = path.clone();
            assert(p@.skip(old(path)@.len() as int) =~= Seq::<usize>::empty());
            assert(p@.take(old(path)@.len() as int) =~= old(path)@);
            return Some((p, bindings));
        }
    }
    match node {
        Node::Link { values, .. } => {
            proof {
                lemma_nodes_view(values@);
            }
            let ghost vs = nodes_view(values@);
            let ghost start = path@;
            let mut index: usize = 0;
            while index < values.len()
                invariant
                    0 <= index <= values.len(),
                    node@ == (NodeV::Link { id: node@->id, values: vs }),
                    vs == nodes_view(values@),
                    vs.len() == values.len(),
                    forall|j: int| 0 <= j < values.len() ==> #[trigger] vs[j] == values@[j]@,
                    path@ == start,
                    start == old(path)@,
                    spec_applies_here(node@, rule@) is None,
                    spec_find_match(node@, rule@) == spec_find_in_values(vs, rule@, index as int),
                decreases values.len() - index,
            {
                path.push(index);
                assert(decreases_to!(node@ => node@->values));
                assert(decreases_to!(node@->values => node@->values[index as int]));
                let ghost inner_start = path@;
                match find_match_inner(&values[index], rule, path) {
                    Some(found) => {
                        proof {
                            let p = found.0@;
                            let q = p.skip(inner_start.len() as int);
                            assert(p.take(start.len() as int) =~= start) by {
                                assert(p.take(inner_start.len() as int) == inner_start);
                                assert forall|k: int| 0 <= k < start.len() implies p.take(start.len() as int)[k]
                                    == start[k] by {
                                    assert(p[k] == p.take(inner_start.len() as int)[k]);
                                    assert(inner_start[k] == start[k]);
                                }
                            }
                            assert(p.skip(start.len() as int) =~= seq![index] + q) by {
                                assert(p[start.len() as int] == p.take(inner_start.len() as int)[start.len() as int]);
                            }
                        }
                        return Some(found);
                    },
                    None => {},
                }
                path.pop();
                assert(path@ =~= start);
                index = index + 1;
            }
            None
        },
        Node::Ref(_) => None,
    }
}

/// Finds the first node (in pre-order) where `rule` matches and its guard, if
/// any, passes. Returns the path to that node and the resulting bindings.
fn find_match(root: &Node, rule: &Rule) -> (r: Option<(Vec<usize>, Bindings)>)
    ensures
        r is None ==> spec_find_match(root@, rule@) is None,
        r matches Some((p, b)) ==> spec_find_match(root@, rule@) == Some((p@, b@)),
{
    let mut path: Vec<usize> = Vec::new();
    let r = find_match_inner(root, rule, &mut path);
    proof {
        if r is Some {
            let found = r->0;
            assert(found.0@.skip(0) =~= found.0@);
        }
    }
    r
}

/// The mathematical state of an [`Execution`]. The clock and the
/// cancellation flag are only known through [`OptionsV`].
pub struct ExecutionV {
    pub program: ProgramV,
    pub graph: NodeV,
    pub options: OptionsV,
    /// Rule indices in scheduling order.
    pub scheduling: Seq<usize>,
    /// How many times each rule has applied.
    pub applications: Seq<u64>,
    pub steps: u64,
    pub last_rule: Option<Seq<char>>,
    pub trace: Seq<TraceEventV>,
    /// The texts of the graph states seen by cycle detection.
    pub seen: Set<Seq<char>>,
}

/// The invariant of an execution state.
pub open spec fn execution_wf(s: ExecutionV) -> bool {
    &&& is_scheduling_order(s.program.rules, s.scheduling)
    &&& s.applications.len() == s.program.rules.len()
    &&& forall|i: int| 0 <= i < s.applications.len() ==> #[trigger] s.applications[i] <= s.steps
    &&& forall|i: int| 0 <= i < s.program.rules.len() ==> rule_labelable(#[trigger] s.program.rules[i])
}

/// Whether rule `r` may still apply given its per-rule application cap.
pub open spec fn spec_eligible(s: ExecutionV, r: int) -> bool {
    match s.program.rules[r].max_applications {
        Some(limit) => s.applications[r] < limit,
        None => true,
    }
}

/// The first rule, from position `k` of the scheduling order on, that is
/// eligible and matches somewhere in the graph, with the path and bindings of
/// its first match.
pub open spec fn spec_select(s: ExecutionV, k: int) -> Option<(usize, Seq<usize>, BindingsV)>
    decreases s.scheduling.len() - k,
{
    if k < 0 || k >= s.scheduling.len() {
        None
    } else {
        let r = s.scheduling[k];
        if spec_eligible(s, r as int) && spec_find_match(s.graph, s.program.rules[r as int]) is Some {
            let (path, b) = spec_find_match(s.graph, s.program.rules[r as int])->0;
            Some((r, path, b))
        } else {
            spec_select(s, k + 1)
        }
    }
}

/// A step is defined when no rule applies, or when the selected rule's
/// template can be instantiated and the step counter can still grow.
pub open spec fn spec_step_defined(s: ExecutionV) -> bool {
    match spec_select(s, 0) {
        None => true,
        Some((r, path, b)) => spec_instantiate(s.program.rules[r as int].template, b) is Ok && s.steps < u64::MAX,
    }
}

/// One step under the ordered-first strategy: the state afterwards and what
/// happened.
pub open spec fn spec_step(s: ExecutionV) -> (ExecutionV, StepOutcomeV) {
    match spec_select(s, 0) {
        None => (s, StepOutcomeV::NormalForm),
        Some((r, path, b)) => {
            let rule = s.program.rules[r as int];
            let replacement = spec_instantiate(rule.template, b)->Ok_0;
            let graph = spec_replace_at(s.graph, path, replacement);
            let steps = (s.steps + 1) as u64;
            let label = spec_label(rule);
            let event = TraceEventV {
                step: steps,
                rule: label,
                path,
                nodes_before: count_usize(s.graph),
                nodes_after: count_usize(graph),
                terminal: rule.terminal,
            };
            (
                ExecutionV {
                    program: s.program,
                    graph,
                    options: s.options,
                    scheduling: s.scheduling,
                    applications: s.applications.update(r as int, (s.applications[r as int] + 1) as u64),
                    steps,
                    last_rule: Some(label),
                    trace: if s.options.trace {
                        s.trace.push(event)
                    } else {
                        s.trace
                    },
                    seen: s.seen,
                },
                StepOutcomeV::Applied { rule_index: r, rule_label: label, path, terminal: rule.terminal },
            )
        },
    }
}

/// The state with the current graph's text recorded as seen.
pub open spec fn spec_record_seen(s: ExecutionV) -> ExecutionV {
    ExecutionV {
        program: s.program,
        graph: s.graph,
        options: s.options,
        scheduling: s.scheduling,
        applications: s.applications,
        steps: s.steps,
        last_rule: s.last_rule,
        trace: s.trace,
        seen: s.seen.insert(lino_text(s.graph)),
    }
}

/// What the outside world reported on round `j` of a run: whether the
/// cancellation flag was set, and what the clock read, in nanoseconds since
/// the Unix epoch. Rounds past the end of `interrupts` report no cancellation
/// and a reading of 0.
pub open spec fn interrupt_at(interrupts: Seq<(bool, u128)>, j: int) -> (bool, u128) {
    if 0 <= j < interrupts.len() {
        interrupts[j]
    } else {
        (false, 0)
    }
}

/// Whether a round whose clock reads `now` is past the options' deadline: the
/// reading is at or after it.
pub open spec fn past_deadline(options: OptionsV, now: u128) -> bool {
    options.deadline matches Some(d) && now >= d
}

/// One round of a run, given whether the cancellation flag was set and what
/// the clock read: the state afterwards, and the reason the run stops there,
/// if it does. The checks come in the order of [`spec_run`]. `None` when the
/// round's step is not defined.
pub open spec fn spec_round(s: ExecutionV, cancelled: bool, now: u128) -> Option<(ExecutionV, Option<StopReason>)> {
    if s.options.has_cancel && cancelled {
        Some((s, Some(StopReason::Cancelled)))
    } else if s.options.max_steps matches Some(m) && s.steps >= m {
        Some((s, Some(StopReason::StepLimit)))
    } else if s.steps == u64::MAX {
        Some((s, Some(StopReason::StepLimit)))
    } else if s.options.max_nodes matches Some(m) && count_usize(s.graph) > m {
        Some((s, Some(StopReason::NodeLimit)))
    } else if past_deadline(s.options, now) {
        Some((s, Some(StopReason::Deadline)))
    } else if s.options.detect_cycles && s.seen.contains(lino_text(s.graph)) {
        Some((s, Some(StopReason::CycleDetected)))
    } else {
        let s1 = if s.options.detect_cycles {
            spec_record_seen(s)
        } else {
            s
        };
        if !spec_step_defined(s1) {
            None
        } else {
            let (s2, outcome) = spec_step(s1);
            match outcome {
                StepOutcomeV::NormalForm => Some((s2, Some(StopReason::NormalForm))),
                StepOutcomeV::Applied { terminal, .. } => if terminal {
                    Some((s2, Some(StopReason::TerminalRule)))
                } else {
                    Some((s2, None))
                },
            }
        }
    }
}

/// A run from round `j` on: each round checks cancellation, the step limit
/// (and the end of the step counter's range), the node limit, the deadline and
/// repeated states, in that order, then applies one step. `None` when some
/// round's step is not defined.
pub open spec fn spec_run(s: ExecutionV, interrupts: Seq<(bool, u128)>, j: int) -> Option<(ExecutionV, StopReason)>
    decreases u64::MAX - s.steps,
{
    let (cancelled, now) = interrupt_at(interrupts, j);
    if s.options.has_cancel && cancelled {
        Some((s, StopReason::Cancelled))
    } else if s.options.max_steps matches Some(m) && s.steps >= m {
        Some((s, StopReason::StepLimit))
    } else if s.steps == u64::MAX {
        Some((s, StopReason::StepLimit))
    } else if s.options.max_nodes matches Some(m) && count_usize(s.graph) > m {
        Some((s, StopReason::NodeLimit))
    } else if past_deadline(s.options, now) {
        Some((s, StopReason::Deadline))
    } else if s.options.detect_cycles && s.seen.contains(lino_text(s.graph)) {
        Some((s, StopReason::CycleDetected))
    } else {
        let s1 = if s.options.detect_cycles {
            spec_record_seen(s)
        } else {
            s
        };
        if !spec_step_defined(s1) {
            None
        } else {
            let (s2, outcome) = spec_step(s1);
            match outcome {
                StepOutcomeV::NormalForm => Some((s2, StopReason::NormalForm)),
                StepOutcomeV::Applied { terminal, .. } => {
                    if terminal {
                        Some((s2, StopReason::TerminalRule))
                    } else {
                        spec_run(s2, interrupts, j + 1)
                    }
                },
            }
        }
    }
}

/// A resettable, resumable execution over a program and a working graph.
pub struct Execution {
    program: Program,
    graph: Node,
    options: Options,
    scheduling: Vec<usize>,
    applications: Vec<u64>,
    steps: u64,
    last_rule: Option<String>,
    trace: Vec<TraceEvent>,
    seen_states: Vec<String>,
}

impl View for Execution {
    type V = ExecutionV;

    closed spec fn view(&self) -> ExecutionV {
        ExecutionV {
            program: self.program@,
            graph: self.graph@,
            options: self.options@,
            scheduling: self.scheduling@,
            applications: self.applications@,
            steps: self.steps,
            last_rule: match self.last_rule {
                Some(l) => Some(l@),
                None => None,
            },
            trace: self.trace@.map_values(|e: TraceEvent| e@),
            seen: name_set(string_views(self.seen_states@)),
        }
    }
}

/// The state of a fresh execution over `graph`.
pub open spec fn initial_state(program: ProgramV, graph: NodeV, options: OptionsV, scheduling: Seq<usize>) -> ExecutionV {
    ExecutionV {
        program,
        graph,
        options,
        scheduling,
        applications: Seq::new(program.rules.len(), |i: int| 0u64),
        steps: 0,
        last_rule: None,
        trace: Seq::empty(),
        seen: Set::empty(),
    }
}

/// Whether every rule of the program can be labelled.
pub open spec fn all_labelable(program: ProgramV) -> bool {
    forall|i: int| 0 <= i < program.rules.len() ==> rule_labelable(#[trigger] program.rules[i])
}

fn zeros(n: usize) -> (r: Vec<u64>)
    ensures
        r@ == Seq::new(n as nat, |i: int| 0u64),
{
    let mut v: Vec<u64> = Vec::new();
    let mut i: usize = 0;
    while i < n
        invariant
            0 <= i <= n,
            v@ == Seq::new(i as nat, |k: int| 0u64),
        decreases n - i,
    {
        v.push(0);
        i = i + 1;
        assert(v@ =~= Seq::new(i as nat, |k: int| 0u64));
    }
    v
}

fn clone_trace(trace: &Vec<TraceEvent>) -> (r: Vec<TraceEvent>)
    ensures
        r@.map_values(|e: TraceEvent| e@) == trace@.map_values(|e: TraceEvent| e@),
{
    let mut out: Vec<TraceEvent> = Vec::new();
    let mut i: usize = 0;
    while i < trace.len()
        invariant
            0 <= i <= trace.len(),
            out.len() == i,
            forall|k: int| 0 <= k < i ==> #[trigger] out@[k]@ == trace@[k]@,
        decreases trace.len() - i,
    {
        out.push(clone_event(&trace[i]));
        i = i + 1;
    }
    assert(out@.map_values(|e: TraceEvent| e@) =~= trace@.map_values(|e: TraceEvent| e@));
    out
}

impl Execution {
    /// The invariant of the execution: [`execution_wf`] of its state, and the
    /// texts seen by cycle detection kept in strictly increasing order.
    pub open spec fn wf(&self) -> bool {
        execution_wf(self@) && self.seen_ordered()
    }

    /// The texts seen by cycle detection are held in strictly increasing
    /// order, so that they are searched by bisection.
    pub closed spec fn seen_ordered(&self) -> bool {
        strictly_sorted(string_views(self.seen_states@))
    }

    /// Creates a new execution over `graph` using `program` and `options`.
    pub fn new(program: Program, graph: Node, options: Options) -> (r: Execution)
        requires
            all_labelable(program@),
        ensures
            r.wf(),
            is_scheduling_order(program@.rules, r@.scheduling),
            r@ == initial_state(program@, graph@, options@, r@.scheduling),
    {
        let scheduling = program.scheduling_order();
        let applications = zeros(program.rules.len());
        let e = Execution {
            program,
            graph,
            options,
            scheduling,
            applications,
            steps: 0,
            last_rule: None,
            trace: Vec::new(),
            seen_states: Vec::new(),
        };
        assert(e@.trace =~= Seq::<TraceEventV>::empty());
        assert(e@.seen =~= Set::<Seq<char>>::empty());
        e
    }

    /// The current working graph.
    pub fn graph(&self) -> (r: &Node)
        ensures
            r@ == self@.graph,
    {
        &self.graph
    }

    /// The number of steps applied so far.
    pub fn steps(&self) -> (r: u64)
        ensures
            r == self@.steps,
    {
        self.steps
    }

    /// Resets the working graph and all run state, keeping the program and
    /// options.
    pub fn reset(&mut self, graph: Node)
        requires
            old(self).wf(),
        ensures
            final(self).wf(),
            final(self)@ == initial_state(old(self)@.program, graph@, old(self)@.options, old(self)@.scheduling),
    {
        self.graph = graph;
        self.applications = zeros(self.program.rules.len());
        self.steps = 0;
        self.last_rule = None;
        self.trace = Vec::new();
        self.seen_states = Vec::new();
        assert(self@.trace =~= Seq::<TraceEventV>::empty());
        assert(self@.seen =~= Set::<Seq<char>>::empty());
    }

    /// Applies a single step under the ordered-first strategy.
    pub fn step(&mut self) -> (r: StepOutcome)
        requires
            old(self).wf(),
            spec_step_defined(old(self)@),
        ensures
            final(self).wf(),
            (final(self)@, r@) == spec_step(old(self)@),
    {
        let ghost s0 = self@;
        let mut k: usize = 0;
        while k < self.scheduling.len()
            invariant
                0 <= k <= self.scheduling.len(),
                self@ == s0,
                s0 == old(self)@,
                self.wf(),
                spec_step_defined(s0),
                spec_select(s0, 0) == spec_select(s0, k as int),
            decreases self.scheduling.len() - k,
        {
            let rule_index = self.scheduling[k];
            assert(self@.scheduling[k as int] == rule_index);
            if self.eligible(rule_index) {
                let found = find_match(&self.graph, &self.program.rules[rule_index]);
                assert(self@.program.rules[rule_index as int] == self.program.rules@[rule_index as int]@);
                match found {
                    Some((path, bindings)) => {
                        assert(spec_select(s0, 0) == Some((rule_index, path@, bindings@)));
                        let replacement = match instantiate(&self.program.rules[rule_index].template, &bindings) {
                            Ok(n) => n,
                            Err(_) => {
                                assert(false);
                                return StepOutcome::NormalForm;
                            },
                        };
                        let nodes_before = count_nodes(&self.graph);
                        let new_graph = replace_at(&self.graph, path.as_slice(), replacement);
                        self.graph = new_graph;
                        self.steps = self.steps + 1;
                        let applied = self.applications[rule_index];
                        self.applications.set(rule_index, applied + 1);
                        let label = self.program.rules[rule_index].label();
                        self.last_rule = Some(label.clone());
                        let terminal = self.program.rules[rule_index].terminal;
                        if self.options.trace {
                            let nodes_after = count_nodes(&self.graph);
                            let ghost before = self.trace@;
                            self.trace.push(
                                TraceEvent {
                                    step: self.steps,
                                    rule: label.clone(),
                                    path: path.clone(),
                                    nodes_before,
                                    nodes_after,
                                    terminal,
                                },
                            );
                            assert(self.trace@.map_values(|e: TraceEvent| e@) =~= before.map_values(
                                |e: TraceEvent| e@,
                            ).push(self.trace@.last()@));
                        }
                        proof {
                            let s1 = spec_step(s0).0;
                            assert(self@.applications =~= s1.applications);
                            assert(self@.trace =~= s1.trace);
                            assert forall|i: int| 0 <= i < self@.applications.len() implies #[trigger] self@.applications[i]
                                <= self@.steps by {
                                assert(s0.applications[i] <= s0.steps);
                            }
                        }
                        return StepOutcome::Applied { rule_index, rule_label: label, path, terminal };
                    },
                    None => {},
                }
            }
            k = k + 1;
        }
        StepOutcome::NormalForm
    }

    /// Runs until the graph reaches a terminal state or a bound is hit.
    ///
    /// Each round reads the cancellation flag, and the clock where there is a
    /// deadline, and hands both to [`Execution::advance`], which checks, in
    /// order: cancellation, the step limit, the node limit, the deadline, and
    /// (when enabled) whether the graph state was seen before; then it applies
    /// one step. A run without a step limit still
    /// stops with [`StopReason::StepLimit`] once the step counter reaches
    /// `u64::MAX`.
    pub fn run(&mut self) -> (r: RunResult)
        requires
            old(self).wf(),
            forall|e: Seq<(bool, u128)>| #[trigger] spec_run(old(self)@, e, 0) is Some,
        ensures
            final(self).wf(),
            exists|e: Seq<(bool, u128)>| #[trigger] spec_run(old(self)@, e, 0) == Some((final(self)@, r.stop_reason)),
            !old(self)@.options.has_cancel && old(self)@.options.deadline is None ==> spec_run(
                old(self)@,
                Seq::empty(),
                0,
            ) == Some((final(self)@, r.stop_reason)),
            r.graph@ == final(self)@.graph,
            r.steps == final(self)@.steps,
            r.last_rule matches Some(l) ==> final(self)@.last_rule == Some(l@),
            r.last_rule is None ==> final(self)@.last_rule is None,
            r.trace@.map_values(|e: TraceEvent| e@) == final(self)@.trace,
    {
        let ghost s0 = self@;
        let ghost mut obs: Seq<(bool, u128)> = Seq::empty();
        let mut stop = StopReason::NormalForm;
        loop
            invariant_except_break
                self.wf(),
                self@.options == s0.options,
                forall|e: Seq<(bool, u128)>|
                    obs.len() <= e.len() && #[trigger] e.take(obs.len() as int) == obs ==> spec_run(s0, e, 0)
                        == spec_run(self@, e, obs.len() as int),
                forall|e: Seq<(bool, u128)>| #[trigger] spec_run(s0, e, 0) is Some,
            ensures
                self.wf(),
                spec_run(s0, obs, 0) == Some((self@, stop)),
            decreases u64::MAX - self.steps,
        {
            let ghost j = obs.len() as int;
            let cancelled = match &self.options.cancel {
                Some(flag) => cancel_requested(flag),
                None => false,
            };
            let now: u128 = match self.options.deadline {
                Some(_) => clock_now(),
                None => 0,
            };
            let ghost here = self@;
            let ghost next = obs.push((cancelled, now));
            proof {
                assert(next.take(j) =~= obs);
                assert(interrupt_at(next, j) == (cancelled, now));
                lemma_run_by_rounds(here, next, j);
                assert(spec_run(s0, next, 0) is Some);
            }
            let outcome = self.advance(cancelled, now);
            match outcome {
                Some(reason) => {
                    proof {
                        obs = next;
                    }
                    stop = reason;
                    break;
                },
                None => {
                    proof {
                        assert forall|e: Seq<(bool, u128)>|
                            next.len() <= e.len() && #[trigger] e.take(next.len() as int) == next implies spec_run(
                            s0,
                            e,
                            0,
                        ) == spec_run(self@, e, next.len() as int) by {
                            assert(e.take(j) =~= e.take(j + 1).take(j));
                            assert(e.take(j + 1).take(j) =~= next.take(j));
                            assert(e[j] == e.take(j + 1)[j]);
                            assert(interrupt_at(e, j) == (cancelled, now));
                            lemma_run_by_rounds(here, e, j);
                        }
                        obs = next;
                    }
                },
            }
        }
        let graph = clone_node(&self.graph);
        let last_rule = match &self.last_rule {
            Some(l) => Some(l.clone()),
            None => None,
        };
        let trace = clone_trace(&self.trace);
        proof {
            if !s0.options.has_cancel && s0.options.deadline is None {
                lemma_run_ignores_interrupts(s0, obs, Seq::empty(), 0);
            }
        }
        RunResult { graph, stop_reason: stop, steps: self.steps, last_rule, trace }
    }

    /// Runs one round of [`Execution::run`], given whether the cancellation
    /// flag is set and what the clock reads (nanoseconds since the Unix
    /// epoch): it checks, in order, cancellation, the step limit, the node
    /// limit, the deadline (the reading at or after it) and, when enabled,
    /// whether the graph state was seen before, then applies one step. It
    /// returns why the run stops here, or `None` when the run goes on.
    pub fn advance(&mut self, cancelled: bool, now: u128) -> (r: Option<StopReason>)
        requires
            old(self).wf(),
            spec_round(old(self)@, cancelled, now) is Some,
        ensures
            final(self).wf(),
            spec_round(old(self)@, cancelled, now) == Some((final(self)@, r)),
    {
        if cancelled && self.options.cancel.is_some() {
            return Some(StopReason::Cancelled);
        }
        let mut at_limit = false;
        if let Some(max) = self.options.max_steps {
            if self.steps >= max {
                at_limit = true;
            }
        }
        if at_limit || self.steps == u64::MAX {
            return Some(StopReason::StepLimit);
        }
        let mut too_big = false;
        if let Some(max) = self.options.max_nodes {
            if count_nodes(&self.graph) > max {
                too_big = true;
            }
        }
        if too_big {
            return Some(StopReason::NodeLimit);
        }
        let late = match self.options.deadline {
            Some(deadline) => now >= deadline,
            None => false,
        };
        if late {
            return Some(StopReason::Deadline);
        }
        let ghost before_seen = self@;
        if self.options.detect_cycles {
            let text = lino_display(&self.graph);
            if sorted_contains(&self.seen_states, text.as_str()) {
                return Some(StopReason::CycleDetected);
            }
            insert_name(&mut self.seen_states, text);
            assert(self@ == spec_record_seen(before_seen));
        }
        match self.step() {
            StepOutcome::Applied { terminal, .. } => {
                if terminal {
                    Some(StopReason::TerminalRule)
                } else {
                    None
                }
            },
            StepOutcome::NormalForm => Some(StopReason::NormalForm),
        }
    }

    /// Whether a rule is still eligible given its per-rule application cap.
    fn eligible(&self, rule_index: usize) -> (r: bool)
        requires
            self.wf(),
            rule_index < self@.program.rules.len(),
        ensures
            r == spec_eligible(self@, rule_index as int),
    {
        match self.program.rules[rule_index].max_applications {
            Some(limit) => self.applications[rule_index] < limit,
            None => true,
        }
    }
}

/// A run is its first round followed, where that round does not stop it, by
/// the run from the next round.
pub proof fn lemma_run_by_rounds(s: ExecutionV, interrupts: Seq<(bool, u128)>, j: int)
    ensures
        spec_run(s, interrupts, j) == match spec_round(s, interrupt_at(interrupts, j).0, interrupt_at(interrupts, j).1) {
            None => None,
            Some((s2, Some(r))) => Some((s2, r)),
            Some((s2, None)) => spec_run(s2, interrupts, j + 1),
        },
{
}

/// Without a cancellation flag and without a deadline, what a run does does
/// not depend on the interrupts reported.
pub proof fn lemma_run_ignores_interrupts(s: ExecutionV, e1: Seq<(bool, u128)>, e2: Seq<(bool, u128)>, j: int)
    requires
        !s.options.has_cancel,
        s.options.deadline is None,
    ensures
        spec_run(s, e1, j) == spec_run(s, e2, j),
    decreases u64::MAX - s.steps,
{
    let s1 = if s.options.detect_cycles {
        spec_record_seen(s)
    } else {
        s
    };
    if spec_step_defined(s1) && spec_select(s1, 0) is Some && s.steps < u64::MAX {
        let s2 = spec_step(s1).0;
        lemma_run_ignores_interrupts(s2, e1, e2, j + 1);
    }
}

} // verus!
