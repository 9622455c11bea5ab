//! Optional structured trace events.
//!
//! Tracing is disabled by default; when enabled the engine records one event
//! per applied rewrite. Events are plain data so any sink can consume them.

use vstd::prelude::*;
use crate::text::{decimal, decimal_string};

verus! {

/// A single structured trace event describing one applied rewrite.
#[derive(Debug, PartialEq, Eq)]
pub struct TraceEvent {
    /// 1-based step number.
    pub step: u64,
    /// The label of the rule that was applied.
    pub rule: String,
    /// The path (value indices) to the rewritten node in the pre-rewrite graph.
    pub path: Vec<usize>,
    /// Number of nodes in the graph before this rewrite.
    pub nodes_before: usize,
    /// Number of nodes in the graph after this rewrite.
    pub nodes_after: usize,
    /// Whether the applied rule was terminal.
    pub terminal: bool,
}

/// The mathematical value of a [`TraceEvent`].
pub struct TraceEventV {
    pub step: u64,
    pub rule: Seq<char>,
    pub path: Seq<usize>,
    pub nodes_before: usize,
    pub nodes_after: usize,
    pub terminal: bool,
}

impl View for TraceEvent {
    type V = TraceEventV;

    open spec fn view(&self) -> TraceEventV {
        TraceEventV {
            step: self.step,
            rule: self.rule@,
            path: self.path@,
            nodes_before: self.nodes_before,
            nodes_after: self.nodes_after,
            terminal: self.terminal,
        }
    }
}

/// The indices of a path in decimal, separated by dots.
pub open spec fn dotted(path: Seq<usize>) -> Seq<char>
    decreases path.len(),
{
    if path.len() == 0 {
        Seq::empty()
    } else if path.len() == 1 {
        decimal(path[0] as nat)
    } else {
        dotted(path.drop_last()) + "."@ + decimal(path.last() as nat)
    }
}

/// How a path is written in an event: `root` for the empty path.
pub open spec fn path_text(path: Seq<usize>) -> Seq<char> {
    if path.len() == 0 {
        "root"@
    } else {
        dotted(path)
    }
}

/// The one-line description of an event.
pub open spec fn event_text(e: TraceEventV) -> Seq<char> {
    "step "@ + decimal(e.step as nat) + ": applied "@ + e.rule + " at "@ + path_text(e.path) + " ("@
        + decimal(e.nodes_before as nat) + " -> "@ + decimal(e.nodes_after as nat) + " nodes)"@ + (if e.terminal {
        " [terminal]"@
    } else {
        Seq::empty()
    })
}

fn path_string(path: &Vec<usize>) -> (r: String)
    ensures
        r@ == path_text(path@),
{
    if path.len() == 0 {
        return String::from_str("root");
    }
    let mut s = decimal_string(path[0] as u64);
    let mut i: usize = 1;
    while i < path.len()
        invariant
            1 <= i <= path.len(),
            s@ == dotted(path@.take(i as int)),
        decreases path.len() - i,
    {
        let ghost before = s@;
        s.append(".");
        let d = decimal_string(path[i] as u64);
        s.append(d.as_str());
        proof {
            let t = path@.take(i + 1);
            assert(t.drop_last() =~= path@.take(i as int));
            assert(t.last() == path@[i as int]);
        }
        i = i + 1;
    }
    assert(path@.take(path.len() as int) =~= path@);
    s
}

/// Copies an event.
pub fn clone_event(e: &TraceEvent) -> (r: TraceEvent)
    ensures
        r@ == e@,
{
    TraceEvent {
        step: e.step,
        rule: e.rule.clone(),
        path: e.path.clone(),
        nodes_before: e.nodes_before,
        nodes_after: e.nodes_after,
        terminal: e.terminal,
    }
}

impl Clone for TraceEvent {
    fn clone(&self) -> (r: Self)
        ensures
            r@ == self@,
    {
        clone_event(self)
    }
}

impl TraceEvent {
    /// The one-line description of the event, for example
    /// `step 1: applied swap at root (4 -> 4 nodes)`.
    pub fn to_string(&self) -> (r: String)
        ensures
            r@ == event_text(self@),
    {
        let mut s = String::from_str("step ");
        s.append(decimal_string(self.step).as_str());
        s.append(": applied ");
        s.append(self.rule.as_str());
        s.append(" at ");
        s.append(path_string(&self.path).as_str());
        s.append(" (");
        s.append(decimal_string(self.nodes_before as u64).as_str());
        s.append(" -> ");
        s.append(decimal_string(self.nodes_after as u64).as_str());
        s.append(" nodes)");
        if self.terminal {
            s.append(" [terminal]");
        }
        s
    }
}

} // verus!
