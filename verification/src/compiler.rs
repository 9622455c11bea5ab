//! Compiles a Links Notation program into the immutable [`Program`] model.
//!
//! A program is a document whose top-level elements are identifier links:
//! `(programVersion: 1)` and `(rule: ...)`. A rule has the attributes `name`,
//! `match`, `replace`, `guard`, `priority`, `maxApplications` and `terminal`.
//! Variables are references beginning with `$`; `_` is the anonymous
//! wildcard. The compiler validates variable usage and metadata, rejecting
//! unknown attributes and templates that reference unbound variables, and
//! reports every problem it finds.

use vstd::prelude::*;
use crate::diagnostics::{Diagnostic, DiagnosticV, Diagnostics, Location, LocationV};
use crate::lino::{lino_document, lino_error_text, parse_lino_with_text};
use crate::model::{
    Guard, GuardV, Node, NodeV, Program, ProgramV, Rule, RuleV, clone_node, is_wildcard,
    lemma_nodes_view, nodes_view, opt_guard_view, opt_str_view, spec_is_wildcard, spec_variable_name,
    variable_name,
};
use crate::text::{
    decimal, decimal_string, insert_name, lemma_sorted_names_of, name_set, parse_i64, parse_u64, sorted_names,
    spec_parse_i64, spec_parse_u64, str_eq, string_views, strictly_sorted,
};

verus! {

/// A diagnostic with the given location and message.
pub open spec fn diag(location: LocationV, message: Seq<char>) -> DiagnosticV {
    DiagnosticV { location, message }
}

/// The single value of a list of exactly one value.
pub open spec fn spec_single_value(values: Seq<NodeV>) -> Option<NodeV> {
    if values.len() == 1 {
        Some(values[0])
    } else {
        None
    }
}

/// The text of a list that is exactly one reference.
pub open spec fn spec_single_reference(values: Seq<NodeV>) -> Option<Seq<char>> {
    if values.len() == 1 && values[0] is Ref {
        Some(values[0]->Ref_0)
    } else {
        None
    }
}

/// `true` and `false`, spelled out.
pub open spec fn spec_parse_bool(text: Seq<char>) -> Option<bool> {
    if text == "true"@ {
        Some(true)
    } else if text == "false"@ {
        Some(false)
    } else {
        None
    }
}

/// The variable names that occur in a node.
pub open spec fn spec_vars(node: NodeV) -> Set<Seq<char>>
    decreases node, 0int,
{
    match node {
        NodeV::Ref(reference) => match spec_variable_name(reference) {
            Some(name) => set![name],
            None => Set::empty(),
        },
        NodeV::Link { values, .. } => spec_vars_from(values, 0),
    }
}

/// The variable names that occur in `nodes[i..]`.
pub open spec fn spec_vars_from(nodes: Seq<NodeV>, i: int) -> Set<Seq<char>>
    decreases nodes, nodes.len() - i,
{
    if i < 0 || i >= nodes.len() {
        Set::empty()
    } else {
        spec_vars(nodes[i]).union(spec_vars_from(nodes, i + 1))
    }
}

/// The variable names that occur in a guard's operands.
pub open spec fn spec_guard_vars(guard: GuardV) -> Set<Seq<char>>
    decreases guard, 0int,
{
    match guard {
        GuardV::Equal(a, b) => spec_vars(a).union(spec_vars(b)),
        GuardV::NotEqual(a, b) => spec_vars(a).union(spec_vars(b)),
        GuardV::All(guards) => spec_guard_vars_from(guards, 0),
    }
}

pub open spec fn spec_guard_vars_from(guards: Seq<GuardV>, i: int) -> Set<Seq<char>>
    decreases guards, guards.len() - i,
{
    if i < 0 || i >= guards.len() {
        Set::empty()
    } else {
        spec_guard_vars(guards[i]).union(spec_guard_vars_from(guards, i + 1))
    }
}

/// Whether the anonymous wildcard occurs in a node.
pub open spec fn spec_contains_wildcard(node: NodeV) -> bool
    decreases node, 0int,
{
    match node {
        NodeV::Ref(reference) => spec_is_wildcard(reference),
        NodeV::Link { values, .. } => spec_wildcard_from(values, 0),
    }
}

pub open spec fn spec_wildcard_from(nodes: Seq<NodeV>, i: int) -> bool
    decreases nodes, nodes.len() - i,
{
    if i < 0 || i >= nodes.len() {
        false
    } else {
        spec_contains_wildcard(nodes[i]) || spec_wildcard_from(nodes, i + 1)
    }
}

/// Compiles a guard expression, or says what is wrong with it.
pub open spec fn spec_compile_guard(node: NodeV) -> Result<GuardV, Seq<char>>
    decreases node, 0int,
{
    match node {
        NodeV::Link { id: None, values } => {
            if values.len() > 0 && values[0] is Ref {
                let op = values[0]->Ref_0;
                if op == "equal"@ && values.len() == 3 {
                    Ok(GuardV::Equal(values[1], values[2]))
                } else if op == "notEqual"@ && values.len() == 3 {
                    Ok(GuardV::NotEqual(values[1], values[2]))
                } else if op == "all"@ {
                    match spec_compile_guards(values, 1) {
                        Ok(guards) => Ok(GuardV::All(guards)),
                        Err(message) => Err(message),
                    }
                } else if op == "equal"@ || op == "notEqual"@ {
                    Err("guard '"@ + op + "' expects exactly two operands"@)
                } else {
                    Err("unknown guard operator '"@ + op + "'"@)
                }
            } else {
                Err("guard must start with an operator (equal, notEqual, all)"@)
            }
        },
        _ => Err("guard must be a link such as (notEqual $x $y)"@),
    }
}

/// Compiles the guards `nodes[i..]`, stopping at the first error.
pub open spec fn spec_compile_guards(nodes: Seq<NodeV>, i: int) -> Result<Seq<GuardV>, Seq<char>>
    decreases nodes, nodes.len() - i,
{
    if i < 0 || i >= nodes.len() {
        Ok(Seq::empty())
    } else {
        match spec_compile_guard(nodes[i]) {
            Err(message) => Err(message),
            Ok(first) => match spec_compile_guards(nodes, i + 1) {
                Ok(rest) => Ok(seq![first] + rest),
                Err(message) => Err(message),
            },
        }
    }
}

/// One diagnostic for each name of `names`, in order, that `bound` lacks.
pub open spec fn unbound_diagnostics(
    names: Seq<Seq<char>>,
    bound: Set<Seq<char>>,
    location: LocationV,
    what: Seq<char>,
) -> Seq<DiagnosticV>
    decreases names.len(),
{
    if names.len() == 0 {
        Seq::empty()
    } else {
        let rest = unbound_diagnostics(names.drop_last(), bound, location, what);
        if bound.contains(names.last()) {
            rest
        } else {
            rest.push(diag(location, what + names.last() + "'"@))
        }
    }
}

/// What the attributes of a rule set, and the diagnostics they raise.
pub struct RuleDraftV {
    pub name: Option<Seq<char>>,
    pub pattern: Option<NodeV>,
    pub template: Option<NodeV>,
    pub guard: Option<GuardV>,
    pub priority: i64,
    pub max_applications: Option<u64>,
    pub terminal: bool,
    pub diagnostics: Seq<DiagnosticV>,
}

pub open spec fn empty_draft() -> RuleDraftV {
    RuleDraftV {
        name: None,
        pattern: None,
        template: None,
        guard: None,
        priority: 0,
        max_applications: None,
        terminal: false,
        diagnostics: Seq::empty(),
    }
}

/// Where a diagnostic about the rule being drafted points: its declaration
/// order and the name it has so far.
pub open spec fn draft_location(d: RuleDraftV, order: usize) -> LocationV {
    LocationV::Rule { index: order, name: d.name }
}

/// The draft with one more diagnostic.
pub open spec fn draft_report(d: RuleDraftV, order: usize, message: Seq<char>) -> RuleDraftV {
    RuleDraftV { diagnostics: d.diagnostics.push(diag(draft_location(d, order), message)), ..d }
}

/// Applies one rule attribute to a draft.
pub open spec fn draft_attribute(d: RuleDraftV, attribute: NodeV, order: usize) -> RuleDraftV {
    match attribute {
        NodeV::Link { id: Some(id), values } => {
            if id == "name"@ {
                match spec_single_reference(values) {
                    Some(text) => RuleDraftV { name: Some(text), ..d },
                    None => draft_report(d, order, "name must be a single reference"@),
                }
            } else if id == "match"@ {
                match spec_single_value(values) {
                    Some(node) => RuleDraftV { pattern: Some(node), ..d },
                    None => draft_report(d, order, "match must contain exactly one pattern"@),
                }
            } else if id == "replace"@ {
                match spec_single_value(values) {
                    Some(node) => RuleDraftV { template: Some(node), ..d },
                    None => draft_report(d, order, "replace must contain exactly one template"@),
                }
            } else if id == "guard"@ {
                match spec_single_value(values) {
                    Some(node) => match spec_compile_guard(node) {
                        Ok(g) => RuleDraftV { guard: Some(g), ..d },
                        Err(message) => draft_report(d, order, message),
                    },
                    None => draft_report(d, order, "guard must contain exactly one expression"@),
                }
            } else if id == "priority"@ {
                match spec_single_reference(values) {
                    Some(text) => match spec_parse_i64(text) {
                        Some(v) => RuleDraftV { priority: v, ..d },
                        None => draft_report(d, order, "priority must be a single integer"@),
                    },
                    None => draft_report(d, order, "priority must be a single integer"@),
                }
            } else if id == "maxApplications"@ {
                match spec_single_reference(values) {
                    Some(text) => match spec_parse_u64(text) {
                        Some(v) => RuleDraftV { max_applications: Some(v), ..d },
                        None => draft_report(d, order, "maxApplications must be a single non-negative integer"@),
                    },
                    None => draft_report(d, order, "maxApplications must be a single non-negative integer"@),
                }
            } else if id == "terminal"@ {
                match spec_single_reference(values) {
                    Some(text) => match spec_parse_bool(text) {
                        Some(v) => RuleDraftV { terminal: v, ..d },
                        None => draft_report(d, order, "terminal must be 'true' or 'false'"@),
                    },
                    None => draft_report(d, order, "terminal must be 'true' or 'false'"@),
                }
            } else {
                draft_report(d, order, "unknown rule attribute '"@ + id + "'"@)
            }
        },
        _ => draft_report(d, order, "each rule attribute must be an identifier link such as (match: ...)"@),
    }
}

/// The draft after the first `n` attributes.
pub open spec fn draft_attributes(attributes: Seq<NodeV>, order: usize, n: int) -> RuleDraftV
    decreases n,
{
    if n <= 0 {
        empty_draft()
    } else {
        draft_attribute(draft_attributes(attributes, order, n - 1), attributes[n - 1], order)
    }
}

/// Compiles the attributes of a `rule:` link with the given declaration
/// order: the rule, when it is complete and valid, and the diagnostics raised.
pub open spec fn spec_compile_rule(attributes: Seq<NodeV>, order: usize) -> (Option<RuleV>, Seq<DiagnosticV>) {
    let d = draft_attributes(attributes, order, attributes.len() as int);
    let location = draft_location(d, order);
    match d.pattern {
        None => (None, d.diagnostics.push(diag(location, "rule is missing a match pattern"@))),
        Some(pattern) => match d.template {
            None => (None, d.diagnostics.push(diag(location, "rule is missing a replace template"@))),
            Some(template) => {
                let bound = spec_vars(pattern);
                let unbound = unbound_diagnostics(
                    sorted_names(spec_vars(template)),
                    bound,
                    location,
                    "replace references unbound variable '$"@,
                );
                let wildcard = if spec_contains_wildcard(template) {
                    seq![diag(location, "replace must not contain the anonymous wildcard '_'"@)]
                } else {
                    Seq::empty()
                };
                let guard = match d.guard {
                    Some(g) => unbound_diagnostics(
                        sorted_names(spec_guard_vars(g)),
                        bound,
                        location,
                        "guard references unbound variable '$"@,
                    ),
                    None => Seq::empty(),
                };
                let problems = unbound + wildcard + guard;
                if problems.len() == 0 {
                    (
                        Some(
                            RuleV {
                                name: d.name,
                                pattern,
                                template,
                                guard: d.guard,
                                priority: d.priority,
                                order,
                                max_applications: d.max_applications,
                                terminal: d.terminal,
                            },
                        ),
                        d.diagnostics,
                    )
                } else {
                    (None, d.diagnostics + problems)
                }
            },
        },
    }
}

/// Compiles the values of a `programVersion:` link at top-level position
/// `index`.
pub open spec fn spec_compile_version(values: Seq<NodeV>, index: usize) -> (Option<u64>, Seq<DiagnosticV>) {
    match spec_single_reference(values) {
        Some(text) => match spec_parse_u64(text) {
            Some(v) => (Some(v), Seq::empty()),
            None => (
                None,
                seq![
                    diag(
                        LocationV::TopLevel { index },
                        "programVersion must be a non-negative integer, found '"@ + text + "'"@,
                    ),
                ],
            ),
        },
        None => (None, seq![diag(LocationV::TopLevel { index }, "programVersion must have exactly one integer value"@)]),
    }
}

/// What the top-level elements read so far declare.
pub struct CompileStateV {
    pub version: Option<u64>,
    pub rules: Seq<RuleV>,
    pub diagnostics: Seq<DiagnosticV>,
}

/// Reads one top-level element at position `index`.
pub open spec fn compile_element(s: CompileStateV, element: NodeV, index: usize) -> CompileStateV {
    match element {
        NodeV::Link { id: Some(id), values } => {
            if id == "programVersion"@ {
                let (version, ds) = spec_compile_version(values, index);
                CompileStateV { version, rules: s.rules, diagnostics: s.diagnostics + ds }
            } else if id == "rule"@ {
                let (rule, ds) = spec_compile_rule(values, s.rules.len() as usize);
                CompileStateV {
                    version: s.version,
                    rules: match rule {
                        Some(r) => s.rules.push(r),
                        None => s.rules,
                    },
                    diagnostics: s.diagnostics + ds,
                }
            } else {
                CompileStateV {
                    diagnostics: s.diagnostics.push(
                        diag(
                            LocationV::TopLevel { index },
                            "unknown top-level element '"@ + id + "'; expected 'programVersion' or 'rule'"@,
                        ),
                    ),
                    ..s
                }
            }
        },
        _ => CompileStateV {
            diagnostics: s.diagnostics.push(
                diag(LocationV::TopLevel { index }, "top-level elements must be identifier links such as (rule: ...)"@),
            ),
            ..s
        },
    }
}

/// The state after the first `n` top-level elements.
pub open spec fn compile_elements(elements: Seq<NodeV>, n: int) -> CompileStateV
    decreases n,
{
    if n <= 0 {
        CompileStateV { version: None, rules: Seq::empty(), diagnostics: Seq::empty() }
    } else {
        compile_element(compile_elements(elements, n - 1), elements[n - 1], (n - 1) as usize)
    }
}

/// Compiles a parsed program document: the program, or every diagnostic found.
pub open spec fn spec_compile_document(document: NodeV) -> Result<ProgramV, Seq<DiagnosticV>> {
    match document {
        NodeV::Ref(_) => Err(seq![diag(LocationV::Program, "a program must be a sequence of links, not a bare reference"@)]),
        NodeV::Link { values, .. } => {
            let s = compile_elements(values, values.len() as int);
            let with_rules = if s.rules.len() == 0 && s.diagnostics.len() == 0 {
                s.diagnostics.push(diag(LocationV::Program, "a program must declare at least one rule"@))
            } else {
                s.diagnostics
            };
            let all = match s.version {
                Some(v) => if v > Program::SUPPORTED_VERSION {
                    with_rules.push(
                        diag(
                            LocationV::Program,
                            "program version "@ + decimal(v as nat) + " is newer than the supported version "@
                                + decimal(Program::SUPPORTED_VERSION as nat),
                        ),
                    )
                } else {
                    with_rules
                },
                None => with_rules,
            };
            if all.len() == 0 {
                Ok(ProgramV { version: s.version, rules: s.rules })
            } else {
                Err(all)
            }
        },
    }
}

/// The mathematical value of a compilation result.
pub open spec fn compile_result_view(r: Result<Program, Diagnostics>) -> Result<ProgramV, Seq<DiagnosticV>> {
    match r {
        Ok(p) => Ok(p@),
        Err(d) => Err(d@),
    }
}

pub open spec fn opt_rule_view(r: Option<Rule>) -> Option<RuleV> {
    match r {
        Some(r) => Some(r@),
        None => None,
    }
}

pub open spec fn opt_node_view(n: Option<Node>) -> Option<NodeV> {
    match n {
        Some(n) => Some(n@),
        None => None,
    }
}

/// Returns the single value if `values` has exactly one element.
fn single_value(values: &Vec<Node>) -> (r: Option<&Node>)
    ensures
        opt_node_view(
            match r {
                Some(n) => Some(*n),
                None => None,
            },
        ) == spec_single_value(nodes_view(values@)),
{
    proof {
        lemma_nodes_view(values@);
    }
    if values.len() == 1 {
        Some(&values[0])
    } else {
        None
    }
}

/// Returns the single reference string if `values` is exactly one reference.
fn single_reference(values: &Vec<Node>) -> (r: Option<&str>)
    ensures
        r matches Some(text) ==> spec_single_reference(nodes_view(values@)) == Some(text@),
        r is None ==> spec_single_reference(nodes_view(values@)) is None,
{
    proof {
        lemma_nodes_view(values@);
    }
    if values.len() == 1 {
        match &values[0] {
            Node::Ref(text) => Some(text.as_str()),
            Node::Link { .. } => None,
        }
    } else {
        None
    }
}

fn parse_bool(text: &str) -> (r: Option<bool>)
    ensures
        r == spec_parse_bool(text@),
{
    if str_eq(text, "true") {
        Some(true)
    } else if str_eq(text, "false") {
        Some(false)
    } else {
        None
    }
}

/// Builds `prefix + middle + suffix`.
fn message(prefix: &str, middle: &str, suffix: &str) -> (r: String)
    ensures
        r@ == prefix@ + middle@ + suffix@,
{
    let mut s = String::from_str(prefix);
    s.append(middle);
    s.append(suffix);
    s
}

/// Adds every variable name that occurs in `node` to a strictly sorted list.
fn collect_variables_into(node: &Node, names: &mut Vec<String>)
    requires
        strictly_sorted(string_views(old(names)@)),
    ensures
        strictly_sorted(string_views(final(names)@)),
        name_set(string_views(final(names)@)) == name_set(string_views(old(names)@)).union(spec_vars(node@)),
    decreases node@,
{
    match node {
        Node::Ref(reference) => {
            if let Some(name) = variable_name(reference.as_str()) {
                insert_name(names, String::from_str(name));
                assert(set![name@] =~= Set::empty().insert(name@));
                assert(name_set(string_views(old(names)@)).insert(name@) =~= name_set(
                    string_views(old(names)@),
                ).union(set![name@]));
            } else {
                assert(name_set(string_views(old(names)@)) =~= name_set(string_views(old(names)@)).union(
                    Set::empty(),
                ));
            }
        },
        Node::Link { values, .. } => {
            proof {
                lemma_nodes_view(values@);
            }
            let ghost vs = nodes_view(values@);
            let ghost start = name_set(string_views(names@));
            let mut i: usize = values.len();
            assert(spec_vars_from(vs, i as int) =~= Set::<Seq<char>>::empty());
            while i > 0
                invariant
                    0 <= i <= values.len(),
                    node@ == (NodeV::Link { id: node@->id, values: vs }),
                    vs == nodes_view(values@),
                    vs.len() == values.len(),
                    forall|j: int| 0 <= j < values.len() ==> #[trigger] vs[j] == values@[j]@,
                    strictly_sorted(string_views(names@)),
                    name_set(string_views(names@)) == start.union(spec_vars_from(vs, i as int)),
                decreases i,
            {
                assert(decreases_to!(node@ => node@->values));
                assert(decreases_to!(node@->values => node@->values[i - 1]));
                let ghost before = name_set(string_views(names@));
                collect_variables_into(&values[i - 1], names);
                assert(name_set(string_views(names@)) =~= start.union(spec_vars_from(vs, i - 1)));
                i = i - 1;
            }
        },
    }
}

/// Collects every variable name that appears in a node, each once, in
/// increasing order.
fn collect_variables(node: &Node) -> (r: Vec<String>)
    ensures
        strictly_sorted(string_views(r@)),
        name_set(string_views(r@)) == spec_vars(node@),
{
    let mut names: Vec<String> = Vec::new();
    assert(name_set(string_views(names@)) =~= Set::<Seq<char>>::empty());
    collect_variables_into(node, &mut names);
    assert(name_set(string_views(names@)) =~= spec_vars(node@));
    names
}

/// Adds every variable name that occurs in a guard's operands to a strictly
/// sorted list.
fn collect_guard_variables_into(guard: &Guard, names: &mut Vec<String>)
    requires
        strictly_sorted(string_views(old(names)@)),
    ensures
        strictly_sorted(string_views(final(names)@)),
        name_set(string_views(final(names)@)) == name_set(string_views(old(names)@)).union(spec_guard_vars(guard@)),
    decreases guard@,
{
    match guard {
        Guard::Equal(a, b) | Guard::NotEqual(a, b) => {
            collect_variables_into(a, names);
            collect_variables_into(b, names);
            assert(name_set(string_views(names@)) =~= name_set(string_views(old(names)@)).union(
                spec_guard_vars(guard@),
            ));
        },
        Guard::All(guards) => {
            proof {
                crate::model::lemma_guards_view(guards@);
            }
            let ghost gs = crate::model::guards_view(guards@);
            let ghost start = name_set(string_views(names@));
            let mut i: usize = guards.len();
            assert(spec_guard_vars_from(gs, i as int) =~= Set::<Seq<char>>::empty());
            while i > 0
                invariant
                    0 <= i <= guards.len(),
                    guard@ == GuardV::All(gs),
                    gs == crate::model::guards_view(guards@),
                    gs.len() == guards.len(),
                    forall|j: int| 0 <= j < guards.len() ==> #[trigger] gs[j] == guards@[j]@,
                    strictly_sorted(string_views(names@)),
                    name_set(string_views(names@)) == start.union(spec_guard_vars_from(gs, i as int)),
                decreases i,
            {
                assert(decreases_to!(guard@ => guard@->All_0));
                assert(decreases_to!(guard@->All_0 => guard@->All_0[i - 1]));
                collect_guard_variables_into(&guards[i - 1], names);
                assert(name_set(string_views(names@)) =~= start.union(spec_guard_vars_from(gs, i - 1)));
                i = i - 1;
            }
        },
    }
}

/// Collects every variable name that a guard's operands mention, each once, in
/// increasing order.
fn collect_guard_variables(guard: &Guard) -> (r: Vec<String>)
    ensures
        strictly_sorted(string_views(r@)),
        name_set(string_views(r@)) == spec_guard_vars(guard@),
{
    let mut names: Vec<String> = Vec::new();
    assert(name_set(string_views(names@)) =~= Set::<Seq<char>>::empty());
    collect_guard_variables_into(guard, &mut names);
    assert(name_set(string_views(names@)) =~= spec_guard_vars(guard@));
    names
}

/// Whether the anonymous wildcard occurs in a node.
fn contains_wildcard(node: &Node) -> (r: bool)
    ensures
        r == spec_contains_wildcard(node@),
    decreases node@,
{
    match node {
        Node::Ref(reference) => is_wildcard(reference.as_str()),
        Node::Link { values, .. } => {
            proof {
                lemma_nodes_view(values@);
            }
            let ghost vs = nodes_view(values@);
            let mut i: usize = values.len();
            while i > 0
                invariant
                    0 <= i <= values.len(),
                    node@ == (NodeV::Link { id: node@->id, values: vs }),
                    vs == nodes_view(values@),
                    vs.len() == values.len(),
                    forall|j: int| 0 <= j < values.len() ==> #[trigger] vs[j] == values@[j]@,
                    forall|j: int| i <= j < values.len() ==> !spec_contains_wildcard(#[trigger] vs[j]),
                decreases i,
            {
                assert(decreases_to!(node@ => node@->values));
                assert(decreases_to!(node@->values => node@->values[i - 1]));
                if contains_wildcard(&values[i - 1]) {
                    proof {
                        lemma_wildcard_from_has(vs, 0, i - 1);
                    }
                    return true;
                }
                i = i - 1;
            }
            proof {
                lemma_wildcard_from_none(vs, 0);
            }
            false
        },
    }
}

proof fn lemma_wildcard_from_has(nodes: Seq<NodeV>, i: int, k: int)
    requires
        0 <= i <= k < nodes.len(),
        spec_contains_wildcard(nodes[k]),
    ensures
        spec_wildcard_from(nodes, i),
    decreases k - i,
{
    if i < k {
        lemma_wildcard_from_has(nodes, i + 1, k);
    }
}

proof fn lemma_wildcard_from_none(nodes: Seq<NodeV>, i: int)
    requires
        0 <= i,
        forall|j: int| i <= j < nodes.len() ==> !spec_contains_wildcard(#[trigger] nodes[j]),
    ensures
        !spec_wildcard_from(nodes, i),
    decreases nodes.len() - i,
{
    if i < nodes.len() {
        lemma_wildcard_from_none(nodes, i + 1);
    }
}

/// Compiles a guard expression such as `(notEqual $x $y)`.
fn compile_guard(node: &Node) -> (r: Result<Guard, String>)
    ensures
        r matches Ok(g) ==> spec_compile_guard(node@) == Ok::<GuardV, Seq<char>>(g@),
        r matches Err(m) ==> spec_compile_guard(node@) == Err::<GuardV, Seq<char>>(m@),
    decreases node@,
{
    match node {
        Node::Link { id: None, values } => {
            proof {
                lemma_nodes_view(values@);
            }
            let ghost vs = nodes_view(values@);
            if values.len() == 0 {
                return Err(String::from_str("guard must start with an operator (equal, notEqual, all)"));
            }
            let op = match &values[0] {
                Node::Ref(op) => op,
                Node::Link { .. } => {
                    return Err(String::from_str("guard must start with an operator (equal, notEqual, all)"));
                },
            };
            assert(vs[0] == values@[0]@);
            if str_eq(op.as_str(), "equal") && values.len() == 3 {
                assert(vs[1] == values@[1]@ && vs[2] == values@[2]@);
                return Ok(Guard::Equal(clone_node(&values[1]), clone_node(&values[2])));
            }
            if str_eq(op.as_str(), "notEqual") && values.len() == 3 {
                assert(vs[1] == values@[1]@ && vs[2] == values@[2]@);
                return Ok(Guard::NotEqual(clone_node(&values[1]), clone_node(&values[2])));
            }
            if str_eq(op.as_str(), "all") {
                let mut guards: Vec<Guard> = Vec::new();
                let mut k: usize = 1;
                while k < values.len()
                    invariant
                        1 <= k <= values.len(),
                        node@ == (NodeV::Link { id: None, values: vs }),
                        vs == nodes_view(values@),
                        vs.len() == values.len(),
                        forall|j: int| 0 <= j < values.len() ==> #[trigger] vs[j] == values@[j]@,
                        spec_compile_guard(node@) == match spec_compile_guards(vs, 1) {
                            Ok(gs) => Ok(GuardV::All(gs)),
                            Err(m) => Err(m),
                        },
                        spec_compile_guards(vs, 1) == match spec_compile_guards(vs, k as int) {
                            Ok(rest) => Ok(crate::model::guards_view(guards@) + rest),
                            Err(m) => Err(m),
                        },
                    decreases values.len() - k,
                {
                    assert(decreases_to!(node@ => node@->values));
                    assert(decreases_to!(node@->values => node@->values[k as int]));
                    match compile_guard(&values[k]) {
                        Ok(g) => {
                            let ghost before = guards@;
                            guards.push(g);
                            proof {
                                crate::model::lemma_guards_view(before);
                                crate::model::lemma_guards_view(guards@);
                                assert(crate::model::guards_view(guards@) =~= crate::model::guards_view(before).push(g@));
                                match spec_compile_guards(vs, k + 1) {
                                    Ok(rest) => {
                                        assert(crate::model::guards_view(before) + (seq![g@] + rest) =~= crate::model::guards_view(
                                            guards@,
                                        ) + rest);
                                    },
                                    Err(_) => {},
                                }
                            }
                        },
                        Err(m) => {
                            assert(spec_compile_guards(vs, k as int) == Err::<Seq<GuardV>, Seq<char>>(m@));
                            assert(spec_compile_guards(vs, 1) == Err::<Seq<GuardV>, Seq<char>>(m@));
                            return Err(m);
                        },
                    }
                    k = k + 1;
                }
                proof {
                    assert(crate::model::guards_view(guards@) + Seq::<GuardV>::empty() =~= crate::model::guards_view(
                        guards@,
                    ));
                }
                return Ok(Guard::All(guards));
            }
            if str_eq(op.as_str(), "equal") || str_eq(op.as_str(), "notEqual") {
                return Err(message("guard '", op.as_str(), "' expects exactly two operands"));
            }
            Err(message("unknown guard operator '", op.as_str(), "'"))
        },
        _ => Err(String::from_str("guard must be a link such as (notEqual $x $y)")),
    }
}

/// Whether `name` is one of `names`.
fn contains_name(names: &Vec<String>, name: &String) -> (r: bool)
    ensures
        r == name_set(string_views(names@)).contains(name@),
{
    let mut i: usize = 0;
    while i < names.len()
        invariant
            0 <= i <= names.len(),
            forall|k: int| 0 <= k < i ==> (#[trigger] names@[k])@ != name@,
        decreases names.len() - i,
    {
        if str_eq(names[i].as_str(), name.as_str()) {
            assert(string_views(names@)[i as int] == name@);
            return true;
        }
        i = i + 1;
    }
    proof {
        if string_views(names@).contains(name@) {
            let k = choose|k: int| 0 <= k < names@.len() && string_views(names@)[k] == name@;
            assert(names@[k]@ == name@);
        }
    }
    false
}

fn clone_name(name: &Option<String>) -> (r: Option<String>)
    ensures
        opt_str_view(r) == opt_str_view(*name),
{
    match name {
        Some(s) => Some(s.clone()),
        None => None,
    }
}

fn rule_location(order: usize, name: &Option<String>) -> (r: Location)
    ensures
        r@ == (LocationV::Rule { index: order, name: opt_str_view(*name) }),
{
    Location::Rule { index: order, name: clone_name(name) }
}

/// Reports one diagnostic for each of `names` that `bound` lacks.
fn report_unbound(
    names: &Vec<String>,
    bound: &Vec<String>,
    order: usize,
    rule_name: &Option<String>,
    what: &str,
    diagnostics: &mut Diagnostics,
) -> (none: bool)
    ensures
        ({
            let ds = unbound_diagnostics(
                string_views(names@),
                name_set(string_views(bound@)),
                LocationV::Rule { index: order, name: opt_str_view(*rule_name) },
                what@,
            );
            &&& final(diagnostics)@ == old(diagnostics)@ + ds
            &&& none == (ds.len() == 0)
        }),
{
    let ghost location = LocationV::Rule { index: order, name: opt_str_view(*rule_name) };
    let ghost bound_set = name_set(string_views(bound@));
    let ghost all = string_views(names@);
    let mut none = true;
    let mut k: usize = 0;
    assert(unbound_diagnostics(all.take(0), bound_set, location, what@) =~= Seq::<DiagnosticV>::empty());
    while k < names.len()
        invariant
            0 <= k <= names.len(),
            all == string_views(names@),
            location == (LocationV::Rule { index: order, name: opt_str_view(*rule_name) }),
            bound_set == name_set(string_views(bound@)),
            diagnostics@ == old(diagnostics)@ + unbound_diagnostics(all.take(k as int), bound_set, location, what@),
            none == (unbound_diagnostics(all.take(k as int), bound_set, location, what@).len() == 0),
        decreases names.len() - k,
    {
        let ghost before = diagnostics@;
        assert(all.take(k + 1).drop_last() =~= all.take(k as int));
        assert(all.take(k + 1).last() == names@[k as int]@);
        if !contains_name(bound, &names[k]) {
            diagnostics.push(
                Diagnostic::new(rule_location(order, rule_name), message(what, names[k].as_str(), "'")),
            );
            none = false;
        }
        assert(diagnostics@ =~= old(diagnostics)@ + unbound_diagnostics(all.take(k + 1), bound_set, location, what@));
        k = k + 1;
    }
    assert(all.take(names.len() as int) =~= all);
    none
}

/// Whether the locals of `compile_rule` hold what draft `d` describes.
pub open spec fn holds_draft(
    d: RuleDraftV,
    name: Option<String>,
    pattern: Option<Node>,
    template: Option<Node>,
    guard: Option<Guard>,
    priority: i64,
    max_applications: Option<u64>,
    terminal: bool,
) -> bool {
    &&& d.name == opt_str_view(name)
    &&& d.pattern == opt_node_view(pattern)
    &&& d.template == opt_node_view(template)
    &&& d.guard == opt_guard_view(guard)
    &&& d.priority == priority
    &&& d.max_applications == max_applications
    &&& d.terminal == terminal
}

/// Compiles the attributes of a `rule:` link, reporting every problem found.
fn compile_rule(values: &Vec<Node>, order: usize, diagnostics: &mut Diagnostics) -> (r: Option<Rule>)
    ensures
        opt_rule_view(r) == spec_compile_rule(nodes_view(values@), order).0,
        final(diagnostics)@ == old(diagnostics)@ + spec_compile_rule(nodes_view(values@), order).1,
{
    proof {
        lemma_nodes_view(values@);
    }
    let ghost attrs = nodes_view(values@);
    let mut name: Option<String> = None;
    let mut pattern: Option<Node> = None;
    let mut template: Option<Node> = None;
    let mut guard: Option<Guard> = None;
    let mut priority: i64 = 0;
    let mut max_applications: Option<u64> = None;
    let mut terminal = false;
    let mut i: usize = 0;
    assert(old(diagnostics)@ + Seq::<DiagnosticV>::empty() =~= old(diagnostics)@);
    while i < values.len()
        invariant
            0 <= i <= values.len(),
            attrs == nodes_view(values@),
            attrs.len() == values.len(),
            forall|j: int| 0 <= j < values.len() ==> #[trigger] attrs[j] == values@[j]@,
            holds_draft(
                draft_attributes(attrs, order, i as int),
                name,
                pattern,
                template,
                guard,
                priority,
                max_applications,
                terminal,
            ),
            diagnostics@ == old(diagnostics)@ + draft_attributes(attrs, order, i as int).diagnostics,
        decreases values.len() - i,
    {
        let ghost d = draft_attributes(attrs, order, i as int);
        let ghost before = diagnostics@;
        assert(attrs[i as int] == values@[i as int]@);
        let mut problem: Option<String> = None;
        match &values[i] {
            Node::Link { id: Some(id), values: attr_values } => {
                let id = id.as_str();
                if str_eq(id, "name") {
                    match single_reference(attr_values) {
                        Some(text) => name = Some(String::from_str(text)),
                        None => problem = Some(String::from_str("name must be a single reference")),
                    }
                } else if str_eq(id, "match") {
                    match single_value(attr_values) {
                        Some(node) => pattern = Some(clone_node(node)),
                        None => problem = Some(String::from_str("match must contain exactly one pattern")),
                    }
                } else if str_eq(id, "replace") {
                    match single_value(attr_values) {
                        Some(node) => template = Some(clone_node(node)),
                        None => problem = Some(String::from_str("replace must contain exactly one template")),
                    }
                } else if str_eq(id, "guard") {
                    match single_value(attr_values) {
                        Some(node) => match compile_guard(node) {
                            Ok(g) => guard = Some(g),
                            Err(m) => problem = Some(m),
                        },
                        None => problem = Some(String::from_str("guard must contain exactly one expression")),
                    }
                } else if str_eq(id, "priority") {
                    let parsed = match single_reference(attr_values) {
                        Some(text) => parse_i64(text),
                        None => None,
                    };
                    match parsed {
                        Some(value) => priority = value,
                        None => problem = Some(String::from_str("priority must be a single integer")),
                    }
                } else if str_eq(id, "maxApplications") {
                    let parsed = match single_reference(attr_values) {
                        Some(text) => parse_u64(text),
                        None => None,
                    };
                    match parsed {
                        Some(value) => max_applications = Some(value),
                        None => problem = Some(
                            String::from_str("maxApplications must be a single non-negative integer"),
                        ),
                    }
                } else if str_eq(id, "terminal") {
                    let parsed = match single_reference(attr_values) {
                        Some(text) => parse_bool(text),
                        None => None,
                    };
                    match parsed {
                        Some(value) => terminal = value,
                        None => problem = Some(String::from_str("terminal must be 'true' or 'false'")),
                    }
                } else {
                    problem = Some(message("unknown rule attribute '", id, "'"));
                }
            },
            _ => {
                problem = Some(
                    String::from_str("each rule attribute must be an identifier link such as (match: ...)"),
                );
            },
        }
        match problem {
            Some(m) => {
                diagnostics.push(Diagnostic::new(rule_location(order, &name), m));
            },
            None => {},
        }
        assert(diagnostics@ =~= old(diagnostics)@ + draft_attributes(attrs, order, i + 1).diagnostics);
        i = i + 1;
    }
    let ghost d = draft_attributes(attrs, order, attrs.len() as int);
    assert(attrs.len() == values.len());
    let pattern = match pattern {
        Some(p) => p,
        None => {
            diagnostics.push(
                Diagnostic::new(rule_location(order, &name), String::from_str("rule is missing a match pattern")),
            );
            assert(diagnostics@ =~= old(diagnostics)@ + spec_compile_rule(attrs, order).1);
            return None;
        },
    };
    let template = match template {
        Some(t) => t,
        None => {
            diagnostics.push(
                Diagnostic::new(rule_location(order, &name), String::from_str("rule is missing a replace template")),
            );
            assert(diagnostics@ =~= old(diagnostics)@ + spec_compile_rule(attrs, order).1);
            return None;
        },
    };
    let ghost base = diagnostics@;
    let pattern_vars = collect_variables(&pattern);
    let template_vars = collect_variables(&template);
    proof {
        lemma_sorted_names_of(string_views(template_vars@));
    }
    let mut valid = report_unbound(
        &template_vars,
        &pattern_vars,
        order,
        &name,
        "replace references unbound variable '$",
        diagnostics,
    );
    let ghost after_unbound = diagnostics@;
    let wildcard = contains_wildcard(&template);
    if wildcard {
        diagnostics.push(
            Diagnostic::new(
                rule_location(order, &name),
                String::from_str("replace must not contain the anonymous wildcard '_'"),
            ),
        );
        valid = false;
    }
    let ghost after_wildcard = diagnostics@;
    match &guard {
        Some(g) => {
            let guard_vars = collect_guard_variables(g);
            proof {
                lemma_sorted_names_of(string_views(guard_vars@));
            }
            let none = report_unbound(
                &guard_vars,
                &pattern_vars,
                order,
                &name,
                "guard references unbound variable '$",
                diagnostics,
            );
            if !none {
                valid = false;
            }
        },
        None => {},
    }
    proof {
        let location = draft_location(d, order);
        let unbound = unbound_diagnostics(
            sorted_names(spec_vars(template@)),
            spec_vars(pattern@),
            location,
            "replace references unbound variable '$"@,
        );
        let wild = if spec_contains_wildcard(template@) {
            seq![diag(location, "replace must not contain the anonymous wildcard '_'"@)]
        } else {
            Seq::empty()
        };
        let guard_ds = match d.guard {
            Some(g) => unbound_diagnostics(
                sorted_names(spec_guard_vars(g)),
                spec_vars(pattern@),
                location,
                "guard references unbound variable '$"@,
            ),
            None => Seq::empty(),
        };
        assert(after_unbound =~= base + unbound);
        assert(after_wildcard =~= base + unbound + wild);
        assert(diagnostics@ =~= base + (unbound + wild + guard_ds));
        assert(valid == ((unbound + wild + guard_ds).len() == 0));
    }
    if !valid {
        return None;
    }
    let r = Rule {
        name,
        pattern,
        template,
        guard,
        priority,
        order,
        max_applications,
        terminal,
    };
    assert(diagnostics@ =~= old(diagnostics)@ + spec_compile_rule(attrs, order).1);
    Some(r)
}

/// Compiles the values of a `programVersion:` link.
fn compile_version(values: &Vec<Node>, index: usize, diagnostics: &mut Diagnostics) -> (r: Option<u64>)
    ensures
        r == spec_compile_version(nodes_view(values@), index).0,
        final(diagnostics)@ == old(diagnostics)@ + spec_compile_version(nodes_view(values@), index).1,
{
    match single_reference(values) {
        Some(text) => match parse_u64(text) {
            Some(v) => {
                assert(old(diagnostics)@ + Seq::<DiagnosticV>::empty() =~= old(diagnostics)@);
                Some(v)
            },
            None => {
                diagnostics.push(
                    Diagnostic::new(
                        Location::TopLevel { index },
                        message("programVersion must be a non-negative integer, found '", text, "'"),
                    ),
                );
                assert(diagnostics@ =~= old(diagnostics)@ + spec_compile_version(nodes_view(values@), index).1);
                None
            },
        },
        None => {
            diagnostics.push(
                Diagnostic::new(
                    Location::TopLevel { index },
                    String::from_str("programVersion must have exactly one integer value"),
                ),
            );
            assert(diagnostics@ =~= old(diagnostics)@ + spec_compile_version(nodes_view(values@), index).1);
            None
        },
    }
}

/// Compiles a parsed program document into a [`Program`], or returns every
/// diagnostic found.
pub fn compile_document(document: &Node) -> (r: Result<Program, Diagnostics>)
    ensures
        compile_result_view(r) == spec_compile_document(document@),
{
    match document {
        Node::Ref(_) => {
            let mut diagnostics = Diagnostics::new();
            diagnostics.push(
                Diagnostic::new(
                    Location::Program,
                    String::from_str("a program must be a sequence of links, not a bare reference"),
                ),
            );
            assert(diagnostics@ =~= seq![
                diag(LocationV::Program, "a program must be a sequence of links, not a bare reference"@),
            ]);
            Err(diagnostics)
        },
        Node::Link { values: top_level, .. } => {
            proof {
                lemma_nodes_view(top_level@);
            }
            let ghost elements = nodes_view(top_level@);
            let mut diagnostics = Diagnostics::new();
            let mut version: Option<u64> = None;
            let mut rules: Vec<Rule> = Vec::new();
            let mut index: usize = 0;
            assert(rules@.map_values(|r: Rule| r@) =~= Seq::<RuleV>::empty());
            while index < top_level.len()
                invariant
                    0 <= index <= top_level.len(),
                    elements == nodes_view(top_level@),
                    elements.len() == top_level.len(),
                    forall|j: int| 0 <= j < top_level.len() ==> #[trigger] elements[j] == top_level@[j]@,
                    compile_elements(elements, index as int) == (CompileStateV {
                        version,
                        rules: rules@.map_values(|r: Rule| r@),
                        diagnostics: diagnostics@,
                    }),
                decreases top_level.len() - index,
            {
                assert(elements[index as int] == top_level@[index as int]@);
                let ghost before_rules = rules@;
                match &top_level[index] {
                    Node::Link { id: Some(id), values } => {
                        if str_eq(id.as_str(), "programVersion") {
                            version = compile_version(values, index, &mut diagnostics);
                        } else if str_eq(id.as_str(), "rule") {
                            let order = rules.len();
                            match compile_rule(values, order, &mut diagnostics) {
                                Some(rule) => {
                                    rules.push(rule);
                                    assert(rules@.map_values(|r: Rule| r@) =~= before_rules.map_values(
                                        |r: Rule| r@,
                                    ).push(rules@.last()@));
                                },
                                None => {},
                            }
                        } else {
                            diagnostics.push(
                                Diagnostic::new(
                                    Location::TopLevel { index },
                                    message(
                                        "unknown top-level element '",
                                        id.as_str(),
                                        "'; expected 'programVersion' or 'rule'",
                                    ),
                                ),
                            );
                        }
                    },
                    _ => {
                        diagnostics.push(
                            Diagnostic::new(
                                Location::TopLevel { index },
                                String::from_str("top-level elements must be identifier links such as (rule: ...)"),
                            ),
                        );
                    },
                }
                index = index + 1;
            }
            if rules.len() == 0 && diagnostics.is_empty() {
                diagnostics.push(
                    Diagnostic::new(Location::Program, String::from_str("a program must declare at least one rule")),
                );
            }
            match version {
                Some(v) => {
                    if v > Program::SUPPORTED_VERSION {
                        let mut m = String::from_str("program version ");
                        m.append(decimal_string(v).as_str());
                        m.append(" is newer than the supported version ");
                        m.append(decimal_string(Program::SUPPORTED_VERSION).as_str());
                        diagnostics.push(Diagnostic::new(Location::Program, m));
                    }
                },
                None => {},
            }
            if diagnostics.is_empty() {
                Ok(Program { version, rules })
            } else {
                Err(diagnostics)
            }
        },
    }
}

/// What [`compile_program`] reports when the source does not parse: one
/// diagnostic for the whole program whose message starts with
/// `failed to parse program: `.
pub open spec fn is_parse_failure(ds: Seq<DiagnosticV>, source: Seq<char>) -> bool {
    ds == seq![diag(LocationV::Program, "failed to parse program: "@ + lino_error_text(source))]
}

/// Compiles `source` into a [`Program`], or returns every diagnostic found.
pub fn compile_program(source: &str) -> (r: Result<Program, Diagnostics>)
    ensures
        lino_document(source@) matches Some(document) ==> compile_result_view(r) == spec_compile_document(document),
        lino_document(source@) is None ==> (r matches Err(ds) && is_parse_failure(ds@, source@)),
{
    let document = match parse_lino_with_text(source) {
        Ok(document) => document,
        Err((_, error_text)) => {
            let mut text = String::from_str("failed to parse program: ");
            text.append(error_text.as_str());
            let mut diagnostics = Diagnostics::new();
            diagnostics.push(Diagnostic::new(Location::Program, text));
            assert(diagnostics@ =~= seq![diag(LocationV::Program, "failed to parse program: "@ + lino_error_text(source@))]);
            return Err(diagnostics);
        },
    };
    compile_document(&document)
}

} // verus!
