//! Properties that relate the compiler, the matcher, the replacer and the
//! engine to one another.

use vstd::prelude::*;
use crate::compiler::{
    RuleDraftV, empty_draft,
    compile_element, compile_elements, spec_compile_document, spec_compile_rule, spec_contains_wildcard,
    spec_guard_vars, spec_guard_vars_from, spec_vars, spec_vars_from, spec_wildcard_from, unbound_diagnostics,
    draft_attributes, draft_location,
};
use crate::diagnostics::{DiagnosticV, LocationV};
use crate::engine::{
    ExecutionV, spec_find_in_values, spec_find_match, spec_record_seen, spec_run, spec_select, spec_step,
    spec_step_defined, spec_applies_here,
};
use crate::matcher::{
    BindingsV, spec_all_guards_pass, spec_guard_passes, spec_ids_match, spec_match, spec_match_all, spec_resolve,
    spec_resolve_all,
};
use crate::model::{
    GuardV, NodeV, ProgramV, RuleV, is_scheduling_order, scheduled_before, spec_is_wildcard, spec_variable_name,
};
use vstd::set_lib::{lemma_int_range, lemma_len_subset, lemma_subset_equality, set_int_range};
use crate::replacer::{ReplaceErrorV, spec_instantiate, spec_instantiate_all};
use crate::text::{lemma_sorted_names, name_set, sorted_names};

verus! {

/// A rule whose template only uses variables that its pattern binds, holds no
/// wildcard, and whose guard only uses variables that its pattern binds.
pub open spec fn rule_valid(r: RuleV) -> bool {
    &&& spec_vars(r.template).subset_of(spec_vars(r.pattern))
    &&& !spec_contains_wildcard(r.template)
    &&& match r.guard {
        Some(g) => spec_guard_vars(g).subset_of(spec_vars(r.pattern)),
        None => true,
    }
}

/// Every rule of the program is valid.
pub open spec fn all_rules_valid(p: ProgramV) -> bool {
    forall|i: int| 0 <= i < p.rules.len() ==> rule_valid(#[trigger] p.rules[i])
}

/// Every rule is valid and numbered by its position.
pub open spec fn program_valid(p: ProgramV) -> bool {
    &&& all_rules_valid(p)
    &&& forall|i: int| 0 <= i < p.rules.len() ==> (#[trigger] p.rules[i]).order == i as usize
}

proof fn lemma_vars_finite(node: NodeV)
    ensures
        spec_vars(node).finite(),
    decreases node, 0int,
{
    match node {
        NodeV::Ref(_) => {},
        NodeV::Link { values, .. } => lemma_vars_from_finite(values, 0),
    }
}

proof fn lemma_vars_from_finite(nodes: Seq<NodeV>, i: int)
    ensures
        spec_vars_from(nodes, i).finite(),
    decreases nodes, nodes.len() - i,
{
    if 0 <= i < nodes.len() {
        lemma_vars_finite(nodes[i]);
        lemma_vars_from_finite(nodes, i + 1);
    }
}

proof fn lemma_guard_vars_finite(guard: GuardV)
    ensures
        spec_guard_vars(guard).finite(),
    decreases guard, 0int,
{
    match guard {
        GuardV::Equal(a, b) => {
            lemma_vars_finite(a);
            lemma_vars_finite(b);
        },
        GuardV::NotEqual(a, b) => {
            lemma_vars_finite(a);
            lemma_vars_finite(b);
        },
        GuardV::All(guards) => lemma_guard_vars_from_finite(guards, 0),
    }
}

proof fn lemma_guard_vars_from_finite(guards: Seq<GuardV>, i: int)
    ensures
        spec_guard_vars_from(guards, i).finite(),
    decreases guards, guards.len() - i,
{
    if 0 <= i < guards.len() {
        lemma_guard_vars_finite(guards[i]);
        lemma_guard_vars_from_finite(guards, i + 1);
    }
}

proof fn lemma_unbound_empty(names: Seq<Seq<char>>, bound: Set<Seq<char>>, location: LocationV, what: Seq<char>)
    requires
        unbound_diagnostics(names, bound, location, what).len() == 0,
    ensures
        forall|i: int| 0 <= i < names.len() ==> bound.contains(#[trigger] names[i]),
    decreases names.len(),
{
    if names.len() > 0 {
        lemma_unbound_empty(names.drop_last(), bound, location, what);
        assert forall|i: int| 0 <= i < names.len() implies bound.contains(#[trigger] names[i]) by {
            if i < names.len() - 1 {
                assert(names.drop_last()[i] == names[i]);
            }
        }
    }
}

proof fn lemma_sorted_subset(s: Set<Seq<char>>, bound: Set<Seq<char>>, location: LocationV, what: Seq<char>)
    requires
        s.finite(),
        unbound_diagnostics(sorted_names(s), bound, location, what).len() == 0,
    ensures
        s.subset_of(bound),
{
    lemma_sorted_names(s);
    lemma_unbound_empty(sorted_names(s), bound, location, what);
    assert forall|x: Seq<char>| s.contains(x) implies bound.contains(x) by {
        assert(name_set(sorted_names(s)).contains(x));
        let i = choose|i: int| 0 <= i < sorted_names(s).len() && sorted_names(s)[i] == x;
    }
}

/// A rule that compiles is valid and carries the declaration order it was
/// compiled with.
pub proof fn lemma_compiled_rule_valid(attributes: Seq<NodeV>, order: usize)
    ensures
        spec_compile_rule(attributes, order).0 matches Some(r) ==> rule_valid(r) && r.order == order,
{
    if let Some(r) = spec_compile_rule(attributes, order).0 {
        let d = draft_attributes(attributes, order, attributes.len() as int);
        let location = draft_location(d, order);
        let pattern = d.pattern->0;
        let template = d.template->0;
        let bound = spec_vars(pattern);
        let unbound = unbound_diagnostics(
            sorted_names(spec_vars(template)),
            bound,
            location,
            "replace references unbound variable '$"@,
        );
        let wildcard = if spec_contains_wildcard(template) {
            seq![DiagnosticV { location, message: "replace must not contain the anonymous wildcard '_'"@ }]
        } else {
            Seq::empty()
        };
        let guard = match d.guard {
            Some(g) => unbound_diagnostics(
                sorted_names(spec_guard_vars(g)),
                bound,
                location,
                "guard references unbound variable '$"@,
            ),
            None => Seq::empty(),
        };
        assert((unbound + wildcard + guard).len() == 0);
        lemma_vars_finite(template);
        lemma_sorted_subset(spec_vars(template), bound, location, "replace references unbound variable '$"@);
        if let Some(g) = d.guard {
            lemma_guard_vars_finite(g);
            lemma_sorted_subset(spec_guard_vars(g), bound, location, "guard references unbound variable '$"@);
        }
    }
}

proof fn lemma_compile_elements_valid(elements: Seq<NodeV>, n: int)
    requires
        n <= elements.len(),
    ensures
        forall|i: int| 0 <= i < compile_elements(elements, n).rules.len() ==> rule_valid(
            #[trigger] compile_elements(elements, n).rules[i],
        ) && compile_elements(elements, n).rules[i].order == i as usize,
    decreases n,
{
    if n > 0 {
        lemma_compile_elements_valid(elements, n - 1);
        let s = compile_elements(elements, n - 1);
        match elements[n - 1] {
            NodeV::Link { id: Some(id), values } => {
                if id != "programVersion"@ && id == "rule"@ {
                    lemma_compiled_rule_valid(values, s.rules.len() as usize);
                }
            },
            _ => {},
        }
    }
}

/// Every program that compiles is valid: its templates and guards only use
/// variables that their patterns bind, no template holds a wildcard, and each
/// rule is numbered by its position.
pub proof fn lemma_compiled_program_valid(document: NodeV)
    ensures
        spec_compile_document(document) matches Ok(p) ==> program_valid(p),
{
    if let NodeV::Link { values, .. } = document {
        lemma_compile_elements_valid(values, values.len() as int);
    }
}

/// `b2` keeps every binding of `b`.
pub open spec fn extends(b: BindingsV, b2: BindingsV) -> bool {
    forall|k: Seq<char>| #[trigger] b.contains_key(k) ==> b2.contains_key(k) && b2[k] == b[k]
}

proof fn lemma_vars_from_shift(nodes: Seq<NodeV>, k: int)
    requires
        1 <= k,
        nodes.len() > 0,
    ensures
        spec_vars_from(nodes, k) == spec_vars_from(nodes.skip(1), k - 1),
    decreases nodes.len() - k,
{
    if k < nodes.len() {
        lemma_vars_from_shift(nodes, k + 1);
        assert(nodes.skip(1)[k - 1] == nodes[k]);
    }
}

proof fn lemma_wildcard_from_shift(nodes: Seq<NodeV>, k: int)
    requires
        1 <= k,
        nodes.len() > 0,
    ensures
        spec_wildcard_from(nodes, k) == spec_wildcard_from(nodes.skip(1), k - 1),
    decreases nodes.len() - k,
{
    if k < nodes.len() {
        lemma_wildcard_from_shift(nodes, k + 1);
        assert(nodes.skip(1)[k - 1] == nodes[k]);
    }
}

/// Matching only adds bindings, and a successful match binds every variable
/// of the pattern.
pub proof fn lemma_match_binds(pattern: NodeV, data: NodeV, b: BindingsV)
    ensures
        extends(b, spec_match(pattern, data, b).1),
        spec_match(pattern, data, b).0 ==> spec_vars(pattern).subset_of(spec_match(pattern, data, b).1.dom()),
    decreases pattern, 0int,
{
    match pattern {
        NodeV::Ref(_) => {},
        NodeV::Link { id, values } => match data {
            NodeV::Link { id: data_id, values: data_values } => {
                if spec_ids_match(id, data_id) && values.len() == data_values.len() {
                    lemma_match_all_binds(values, data_values, b);
                }
            },
            NodeV::Ref(_) => {},
        },
    }
}

proof fn lemma_match_all_binds(patterns: Seq<NodeV>, data: Seq<NodeV>, b: BindingsV)
    ensures
        extends(b, spec_match_all(patterns, data, b).1),
        spec_match_all(patterns, data, b).0 ==> spec_vars_from(patterns, 0).subset_of(
            spec_match_all(patterns, data, b).1.dom(),
        ),
    decreases patterns, 0int,
{
    if patterns.len() > 0 {
        let (ok, b1) = spec_match(patterns[0], data[0], b);
        lemma_match_binds(patterns[0], data[0], b);
        if ok {
            lemma_match_all_binds(patterns.skip(1), data.skip(1), b1);
            lemma_vars_from_shift(patterns, 1);
        }
    }
}

/// A template whose variables are all bound and that holds no wildcard can be
/// instantiated.
pub proof fn lemma_instantiate_ok(template: NodeV, b: BindingsV)
    requires
        spec_vars(template).subset_of(b.dom()),
        !spec_contains_wildcard(template),
    ensures
        spec_instantiate(template, b) is Ok,
    decreases template, 0int,
{
    match template {
        NodeV::Ref(reference) => {
            if let Some(name) = spec_variable_name(reference) {
                assert(spec_vars(template).contains(name));
            }
        },
        NodeV::Link { values, .. } => lemma_instantiate_all_ok(values, b),
    }
}

proof fn lemma_instantiate_all_ok(templates: Seq<NodeV>, b: BindingsV)
    requires
        spec_vars_from(templates, 0).subset_of(b.dom()),
        !spec_wildcard_from(templates, 0),
    ensures
        spec_instantiate_all(templates, b) is Ok,
    decreases templates, 0int,
{
    if templates.len() > 0 {
        lemma_vars_from_shift(templates, 1);
        lemma_wildcard_from_shift(templates, 1);
        lemma_instantiate_ok(templates[0], b);
        lemma_instantiate_all_ok(templates.skip(1), b);
    }
}

/// Where a rule is found to apply, its pattern matched some node from empty
/// bindings and produced the bindings found.
proof fn lemma_found_by_match(node: NodeV, rule: RuleV)
    ensures
        spec_find_match(node, rule) matches Some((path, b)) ==> exists|x: NodeV| #[trigger] spec_match(
            rule.pattern,
            x,
            Map::empty(),
        ) == (true, b),
    decreases node, 0int,
{
    match spec_applies_here(node, rule) {
        Some(b) => {
            assert(spec_match(rule.pattern, node, Map::empty()) == (true, b));
        },
        None => match node {
            NodeV::Link { values, .. } => lemma_found_in_values(values, rule, 0),
            NodeV::Ref(_) => {},
        },
    }
}

proof fn lemma_found_in_values(values: Seq<NodeV>, rule: RuleV, i: int)
    ensures
        spec_find_in_values(values, rule, i) matches Some((path, b)) ==> exists|x: NodeV| #[trigger] spec_match(
            rule.pattern,
            x,
            Map::empty(),
        ) == (true, b),
    decreases values, values.len() - i,
{
    if 0 <= i < values.len() {
        lemma_found_by_match(values[i], rule);
        lemma_found_in_values(values, rule, i + 1);
    }
}

proof fn lemma_select_found(s: ExecutionV, k: int)
    requires
        is_scheduling_order(s.program.rules, s.scheduling),
    ensures
        spec_select(s, k) matches Some((r, path, b)) ==> r < s.program.rules.len() && spec_find_match(
            s.graph,
            s.program.rules[r as int],
        ) == Some((path, b)),
    decreases s.scheduling.len() - k,
{
    if 0 <= k < s.scheduling.len() {
        assert(s.scheduling[k] < s.program.rules.len());
        lemma_select_found(s, k + 1);
    }
}

/// With valid rules, a step is defined whenever the step counter can grow.
pub proof fn lemma_step_defined(s: ExecutionV)
    requires
        is_scheduling_order(s.program.rules, s.scheduling),
        all_rules_valid(s.program),
        s.steps < u64::MAX,
    ensures
        spec_step_defined(s),
{
    lemma_select_found(s, 0);
    if let Some((r, path, b)) = spec_select(s, 0) {
        let rule = s.program.rules[r as int];
        assert(rule_valid(rule));
        lemma_found_by_match(s.graph, rule);
        let x = choose|x: NodeV| #[trigger] spec_match(rule.pattern, x, Map::empty()) == (true, b);
        lemma_match_binds(rule.pattern, x, Map::empty());
        lemma_instantiate_ok(rule.template, b);
    }
}

/// A run of a program whose rules are all valid never gets stuck: whatever
/// the clock and the cancellation flag report, it stops with a reason.
pub proof fn lemma_run_defined(s: ExecutionV, interrupts: Seq<(bool, u128)>, j: int)
    requires
        is_scheduling_order(s.program.rules, s.scheduling),
        all_rules_valid(s.program),
    ensures
        spec_run(s, interrupts, j) is Some,
    decreases u64::MAX - s.steps,
{
    if s.steps < u64::MAX {
        let s1 = if s.options.detect_cycles {
            spec_record_seen(s)
        } else {
            s
        };
        lemma_step_defined(s1);
        if spec_select(s1, 0) is Some {
            let s2 = spec_step(s1).0;
            lemma_run_defined(s2, interrupts, j + 1);
        }
    }
}

/// Whether a pattern matches by equality alone: no anonymous wildcard stands
/// in it, neither as a reference nor as a link's identifier.
pub open spec fn wildcard_free(node: NodeV) -> bool
    decreases node, 0int,
{
    match node {
        NodeV::Ref(reference) => !spec_is_wildcard(reference),
        NodeV::Link { id, values } => !(id matches Some(i) && spec_is_wildcard(i)) && wildcard_free_from(values, 0),
    }
}

/// Every node of `nodes[i..]` is [`wildcard_free`].
pub open spec fn wildcard_free_from(nodes: Seq<NodeV>, i: int) -> bool
    decreases nodes, nodes.len() - i,
{
    if i < 0 || i >= nodes.len() {
        true
    } else {
        wildcard_free(nodes[i]) && wildcard_free_from(nodes, i + 1)
    }
}

proof fn lemma_wildcard_free_shift(nodes: Seq<NodeV>, k: int)
    requires
        1 <= k,
        nodes.len() > 0,
    ensures
        wildcard_free_from(nodes, k) == wildcard_free_from(nodes.skip(1), k - 1),
    decreases nodes.len() - k,
{
    if k < nodes.len() {
        lemma_wildcard_free_shift(nodes, k + 1);
        assert(nodes.skip(1)[k - 1] == nodes[k]);
    }
}

/// Instantiating a pattern under any bindings that keep those of its
/// successful match gives back the data it matched.
proof fn lemma_instantiate_matched(pattern: NodeV, data: NodeV, b: BindingsV, bf: BindingsV)
    requires
        wildcard_free(pattern),
        spec_match(pattern, data, b).0,
        extends(spec_match(pattern, data, b).1, bf),
    ensures
        spec_instantiate(pattern, bf) == Ok::<NodeV, ReplaceErrorV>(data),
    decreases pattern, 0int,
{
    match pattern {
        NodeV::Ref(reference) => {
            if let Some(name) = spec_variable_name(reference) {
                assert(spec_match(pattern, data, b).1.contains_key(name));
            }
        },
        NodeV::Link { id, values } => {
            let data_values = data->values;
            lemma_instantiate_all_matched(values, data_values, b, bf);
            assert(data == NodeV::Link { id, values: data_values });
        },
    }
}

proof fn lemma_instantiate_all_matched(patterns: Seq<NodeV>, data: Seq<NodeV>, b: BindingsV, bf: BindingsV)
    requires
        patterns.len() == data.len(),
        wildcard_free_from(patterns, 0),
        spec_match_all(patterns, data, b).0,
        extends(spec_match_all(patterns, data, b).1, bf),
    ensures
        spec_instantiate_all(patterns, bf) == Ok::<Seq<NodeV>, ReplaceErrorV>(data),
    decreases patterns, 0int,
{
    if patterns.len() == 0 {
        assert(data =~= Seq::<NodeV>::empty());
    } else {
        let (ok, b1) = spec_match(patterns[0], data[0], b);
        let rest = spec_match_all(patterns.skip(1), data.skip(1), b1);
        lemma_match_all_binds(patterns.skip(1), data.skip(1), b1);
        assert(extends(b1, bf)) by {
            assert forall|k: Seq<char>| #[trigger] b1.contains_key(k) implies bf.contains_key(k) && bf[k] == b1[k] by {
                assert(rest.1.contains_key(k));
            }
        }
        lemma_wildcard_free_shift(patterns, 1);
        lemma_instantiate_matched(patterns[0], data[0], b, bf);
        lemma_instantiate_all_matched(patterns.skip(1), data.skip(1), b1, bf);
        assert(seq![data[0]] + data.skip(1) =~= data);
    }
}

/// Substituting the bindings of a successful match back into a pattern that
/// holds no wildcard rebuilds exactly the matched data: a match only ever
/// binds a variable to the subtree it stands over, and every occurrence of a
/// repeated variable stands over an equal subtree.
pub proof fn law_instantiate_undoes_match(pattern: NodeV, data: NodeV, b: BindingsV)
    requires
        wildcard_free(pattern),
        spec_match(pattern, data, b).0,
    ensures
        spec_instantiate(pattern, spec_match(pattern, data, b).1) == Ok::<NodeV, ReplaceErrorV>(data),
{
    lemma_instantiate_matched(pattern, data, b, spec_match(pattern, data, b).1);
}

/// Whether `x` occurs in `order`.
spec fn lists(order: Seq<usize>, x: int) -> bool {
    exists|k: int| 0 <= k < order.len() && order[k] == x
}

/// A scheduling order lists every rule index.
proof fn lemma_scheduling_covers(rules: Seq<RuleV>, order: Seq<usize>)
    requires
        is_scheduling_order(rules, order),
    ensures
        forall|x: int| 0 <= x < rules.len() ==> #[trigger] lists(order, x),
{
    let n = rules.len() as int;
    let oi = order.map_values(|v: usize| v as int);
    assert(oi.no_duplicates()) by {
        assert forall|i: int, j: int| 0 <= i < oi.len() && 0 <= j < oi.len() && i != j implies oi[i] != oi[j] by {
            if i < j {
                assert(scheduled_before(rules, order[i] as int, order[j] as int));
            } else {
                assert(scheduled_before(rules, order[j] as int, order[i] as int));
            }
        }
    }
    oi.unique_seq_to_set();
    lemma_int_range(0, n);
    assert(oi.to_set().subset_of(set_int_range(0, n))) by {
        assert forall|a: int| #[trigger] oi.to_set().contains(a) implies set_int_range(0, n).contains(a) by {
            let i = choose|i: int| 0 <= i < oi.len() && oi[i] == a;
            assert(order[i] < rules.len());
        }
    }
    lemma_len_subset(oi.to_set(), set_int_range(0, n));
    lemma_subset_equality(oi.to_set(), set_int_range(0, n));
    assert forall|x: int| 0 <= x < rules.len() implies #[trigger] lists(order, x) by {
        assert(set_int_range(0, n).contains(x));
        assert(oi.to_set().contains(x));
        let k = choose|k: int| 0 <= k < oi.len() && oi[k] == x;
        assert(order[k] == x);
    }
}

proof fn lemma_scheduling_prefix_agrees(rules: Seq<RuleV>, o1: Seq<usize>, o2: Seq<usize>, k: int)
    requires
        is_scheduling_order(rules, o1),
        is_scheduling_order(rules, o2),
        0 <= k <= o1.len(),
    ensures
        forall|j: int| 0 <= j < k ==> o1[j] == o2[j],
    decreases k,
{
    if k > 0 {
        lemma_scheduling_prefix_agrees(rules, o1, o2, k - 1);
        let m = k - 1;
        let x = o1[m];
        let y = o2[m];
        if x != y {
            lemma_scheduling_covers(rules, o1);
            lemma_scheduling_covers(rules, o2);
            assert(o1[m] < rules.len() && o2[m] < rules.len());
            assert(lists(o2, x as int));
            assert(lists(o1, y as int));
            let k2 = choose|k2: int| 0 <= k2 < o2.len() && o2[k2] == x as int;
            let k1 = choose|k1: int| 0 <= k1 < o1.len() && o1[k1] == y as int;
            if k2 < m {
                assert(o1[k2] == o2[k2]);
                assert(scheduled_before(rules, o1[k2] as int, o1[m] as int));
            }
            if k1 < m {
                assert(o1[k1] == o2[k1]);
                assert(scheduled_before(rules, o2[k1] as int, o2[m] as int));
            }
            assert(scheduled_before(rules, o1[m] as int, o1[k1] as int));
            assert(scheduled_before(rules, o2[m] as int, o2[k2] as int));
        }
    }
}

/// A program has exactly one scheduling order: ordering by priority, then by
/// declaration order, then by position leaves no ties, so the rules are
/// always tried in the same sequence.
pub proof fn law_scheduling_order_unique(rules: Seq<RuleV>, o1: Seq<usize>, o2: Seq<usize>)
    requires
        is_scheduling_order(rules, o1),
        is_scheduling_order(rules, o2),
    ensures
        o1 == o2,
{
    lemma_scheduling_prefix_agrees(rules, o1, o2, o1.len() as int);
    assert(o1 =~= o2);
}

/// Matching binds nothing but the pattern's variables.
proof fn lemma_match_binds_only_vars(pattern: NodeV, data: NodeV, b: BindingsV)
    ensures
        spec_match(pattern, data, b).1.dom().subset_of(b.dom().union(spec_vars(pattern))),
    decreases pattern, 0int,
{
    match pattern {
        NodeV::Ref(_) => {},
        NodeV::Link { id, values } => match data {
            NodeV::Link { id: data_id, values: data_values } => {
                if spec_ids_match(id, data_id) && values.len() == data_values.len() {
                    lemma_match_all_binds_only_vars(values, data_values, b);
                }
            },
            NodeV::Ref(_) => {},
        },
    }
}

proof fn lemma_match_all_binds_only_vars(patterns: Seq<NodeV>, data: Seq<NodeV>, b: BindingsV)
    ensures
        spec_match_all(patterns, data, b).1.dom().subset_of(b.dom().union(spec_vars_from(patterns, 0))),
    decreases patterns, 0int,
{
    if patterns.len() > 0 {
        let (ok, b1) = spec_match(patterns[0], data[0], b);
        lemma_match_binds_only_vars(patterns[0], data[0], b);
        lemma_vars_from_shift(patterns, 1);
        if ok {
            lemma_match_all_binds_only_vars(patterns.skip(1), data.skip(1), b1);
        }
    }
}

/// What a match does to the bindings it starts from: it keeps every earlier
/// binding, binds nothing but the pattern's variables, and, when it
/// succeeds, leaves exactly the earlier names and the pattern's variables
/// bound.
pub proof fn law_match_keeps_and_binds(pattern: NodeV, data: NodeV, b: BindingsV)
    ensures
        extends(b, spec_match(pattern, data, b).1),
        spec_match(pattern, data, b).1.dom().subset_of(b.dom().union(spec_vars(pattern))),
        spec_match(pattern, data, b).0 ==> spec_match(pattern, data, b).1.dom() == b.dom().union(spec_vars(pattern)),
{
    lemma_match_binds(pattern, data, b);
    lemma_match_binds_only_vars(pattern, data, b);
    let b2 = spec_match(pattern, data, b).1;
    if spec_match(pattern, data, b).0 {
        assert(b2.dom() =~= b.dom().union(spec_vars(pattern))) by {
            assert forall|k: Seq<char>| b.dom().contains(k) implies #[trigger] b2.dom().contains(k) by {
                assert(b.contains_key(k));
            }
        }
    }
}

/// A guard operand resolves exactly where the same node instantiates as a
/// template, and to the same node: both substitute bound variables and give
/// up on a wildcard or an unbound variable.
pub proof fn law_resolve_is_instantiate(node: NodeV, b: BindingsV)
    ensures
        spec_resolve(node, b) == match spec_instantiate(node, b) {
            Ok(n) => Some(n),
            Err(_) => None::<NodeV>,
        },
    decreases node, 0int,
{
    if let NodeV::Link { values, .. } = node {
        lemma_resolve_all_is_instantiate_all(values, b);
    }
}

proof fn lemma_resolve_all_is_instantiate_all(nodes: Seq<NodeV>, b: BindingsV)
    ensures
        spec_resolve_all(nodes, b) == match spec_instantiate_all(nodes, b) {
            Ok(ns) => Some(ns),
            Err(_) => None::<Seq<NodeV>>,
        },
    decreases nodes, 0int,
{
    if nodes.len() > 0 {
        law_resolve_is_instantiate(nodes[0], b);
        lemma_resolve_all_is_instantiate_all(nodes.skip(1), b);
    }
}

/// The passing of a list of guards, one by one.
proof fn lemma_all_guards_pass_each(guards: Seq<GuardV>, b: BindingsV)
    ensures
        spec_all_guards_pass(guards, b) == forall|i: int| 0 <= i < guards.len() ==> spec_guard_passes(
            #[trigger] guards[i],
            b,
        ),
    decreases guards.len(),
{
    if guards.len() > 0 {
        lemma_all_guards_pass_each(guards.skip(1), b);
        if spec_all_guards_pass(guards, b) {
            assert forall|i: int| 0 <= i < guards.len() implies spec_guard_passes(#[trigger] guards[i], b) by {
                if i > 0 {
                    assert(guards.skip(1)[i - 1] == guards[i]);
                }
            }
        }
        if forall|i: int| 0 <= i < guards.len() ==> spec_guard_passes(#[trigger] guards[i], b) {
            assert(spec_guard_passes(guards[0], b));
            assert forall|i: int| 0 <= i < guards.skip(1).len() implies spec_guard_passes(
                #[trigger] guards.skip(1)[i],
                b,
            ) by {
                assert(guards.skip(1)[i] == guards[i + 1]);
            }
        }
    }
}

/// An `all` guard passes exactly when every one of its guards passes.
pub proof fn law_all_guard_passes_when_each_does(guards: Seq<GuardV>, b: BindingsV)
    ensures
        spec_guard_passes(GuardV::All(guards), b) == forall|i: int| 0 <= i < guards.len() ==> spec_guard_passes(
            #[trigger] guards[i],
            b,
        ),
{
    lemma_all_guards_pass_each(guards, b);
}

proof fn lemma_instantiate_all_len(templates: Seq<NodeV>, b: BindingsV)
    ensures
        spec_instantiate_all(templates, b) matches Ok(ns) ==> ns.len() == templates.len(),
    decreases templates.len(),
{
    if templates.len() > 0 {
        lemma_instantiate_all_len(templates.skip(1), b);
    }
}

/// A pattern matches each of its instances.
proof fn lemma_match_instance(pattern: NodeV, b: BindingsV, full: BindingsV)
    requires
        extends(b, full),
        spec_instantiate(pattern, full) is Ok,
    ensures
        spec_match(pattern, spec_instantiate(pattern, full)->Ok_0, b).0,
        extends(spec_match(pattern, spec_instantiate(pattern, full)->Ok_0, b).1, full),
    decreases pattern, 0int,
{
    match pattern {
        NodeV::Ref(reference) => {
            if let Some(name) = spec_variable_name(reference) {
                let d = full[name];
                if !b.contains_key(name) {
                    let b2 = b.insert(name, d);
                    assert(extends(b2, full)) by {
                        assert forall|k: Seq<char>| #[trigger] b2.contains_key(k) implies full.contains_key(k)
                            && full[k] == b2[k] by {
                            if k != name {
                                assert(b.contains_key(k));
                            }
                        }
                    }
                } else {
                    assert(b.contains_key(name));
                }
            }
        },
        NodeV::Link { id, values } => {
            let ns = spec_instantiate_all(values, full)->Ok_0;
            lemma_instantiate_all_len(values, full);
            lemma_match_all_instances(values, b, full);
        },
    }
}

proof fn lemma_match_all_instances(patterns: Seq<NodeV>, b: BindingsV, full: BindingsV)
    requires
        extends(b, full),
        spec_instantiate_all(patterns, full) is Ok,
    ensures
        spec_match_all(patterns, spec_instantiate_all(patterns, full)->Ok_0, b).0,
        extends(spec_match_all(patterns, spec_instantiate_all(patterns, full)->Ok_0, b).1, full),
    decreases patterns, 0int,
{
    if patterns.len() > 0 {
        let ds = spec_instantiate_all(patterns, full)->Ok_0;
        let first = spec_instantiate(patterns[0], full)->Ok_0;
        let rest = spec_instantiate_all(patterns.skip(1), full)->Ok_0;
        assert(ds == seq![first] + rest);
        assert(ds[0] == first);
        assert(ds.skip(1) =~= rest);
        lemma_match_instance(patterns[0], b, full);
        let b1 = spec_match(patterns[0], first, b).1;
        lemma_match_all_instances(patterns.skip(1), b1, full);
    }
}

/// Matching accepts every instance of a pattern: starting from bindings that
/// a fuller set of bindings extends, a pattern matches the node it
/// instantiates to under the fuller bindings, and binds nothing that the
/// fuller bindings do not hold. So a fresh variable matches any node,
/// whatever its kind or identifier, and a repeated one any equal nodes.
pub proof fn law_match_accepts_instances(pattern: NodeV, b: BindingsV, full: BindingsV)
    requires
        extends(b, full),
        spec_instantiate(pattern, full) is Ok,
    ensures
        spec_match(pattern, spec_instantiate(pattern, full)->Ok_0, b).0,
        extends(spec_match(pattern, spec_instantiate(pattern, full)->Ok_0, b).1, full),
{
    lemma_match_instance(pattern, b, full);
}

/// Names that are all bound raise no diagnostic.
proof fn lemma_unbound_none(names: Seq<Seq<char>>, bound: Set<Seq<char>>, location: LocationV, what: Seq<char>)
    requires
        forall|i: int| 0 <= i < names.len() ==> bound.contains(#[trigger] names[i]),
    ensures
        unbound_diagnostics(names, bound, location, what) == Seq::<DiagnosticV>::empty(),
    decreases names.len(),
{
    if names.len() > 0 {
        assert forall|i: int| 0 <= i < names.drop_last().len() implies bound.contains(
            #[trigger] names.drop_last()[i],
        ) by {
            assert(names.drop_last()[i] == names[i]);
        }
        lemma_unbound_none(names.drop_last(), bound, location, what);
        assert(bound.contains(names[names.len() - 1]));
    }
}

/// The program text `(rule: (match: pattern) (replace: template))`, as a
/// document of one top-level link.
pub open spec fn one_rule_document(pattern: NodeV, template: NodeV) -> NodeV {
    NodeV::Link {
        id: None,
        values: seq![
            NodeV::Link {
                id: Some("rule"@),
                values: seq![
                    NodeV::Link { id: Some("match"@), values: seq![pattern] },
                    NodeV::Link { id: Some("replace"@), values: seq![template] },
                ],
            },
        ],
    }
}

/// A valid rule compiles: a program of one rule with a match and a replace,
/// whose template uses only variables that the pattern binds and holds no
/// wildcard, compiles without a diagnostic to that one rule, with the
/// default name, guard, priority, cap and terminal flag, whatever the
/// pattern holds, wildcards included.
pub proof fn law_valid_rule_compiles(pattern: NodeV, template: NodeV)
    requires
        spec_vars(template).subset_of(spec_vars(pattern)),
        !spec_contains_wildcard(template),
    ensures
        spec_compile_document(one_rule_document(pattern, template)) == Ok::<ProgramV, Seq<DiagnosticV>>(
            ProgramV {
                version: None,
                rules: seq![
                    RuleV {
                        name: None,
                        pattern,
                        template,
                        guard: None,
                        priority: 0,
                        order: 0,
                        max_applications: None,
                        terminal: false,
                    },
                ],
            },
        ),
{
    reveal_strlit("name");
    reveal_strlit("match");
    reveal_strlit("replace");
    reveal_strlit("rule");
    reveal_strlit("programVersion");
    let attributes = seq![
        NodeV::Link { id: Some("match"@), values: seq![pattern] },
        NodeV::Link { id: Some("replace"@), values: seq![template] },
    ];
    assert("match"@ != "name"@);
    assert("replace"@ != "name"@ && "replace"@ != "match"@);
    assert("rule"@ != "programVersion"@);
    let d0 = draft_attributes(attributes, 0, 0);
    let d1 = draft_attributes(attributes, 0, 1);
    let d2 = draft_attributes(attributes, 0, 2);
    assert(d1.pattern == Some(pattern) && d1.template is None && d1.diagnostics.len() == 0);
    assert(d2.pattern == Some(pattern) && d2.template == Some(template) && d2.diagnostics.len() == 0);
    assert(d2 == RuleDraftV { pattern: Some(pattern), template: Some(template), ..empty_draft() });
    lemma_vars_finite(template);
    lemma_sorted_names(spec_vars(template));
    let names = sorted_names(spec_vars(template));
    assert forall|i: int| 0 <= i < names.len() implies spec_vars(pattern).contains(#[trigger] names[i]) by {
        assert(name_set(names).contains(names[i]));
    }
    lemma_unbound_none(
        names,
        spec_vars(pattern),
        draft_location(d2, 0),
        "replace references unbound variable '$"@,
    );
    let document = one_rule_document(pattern, template);
    let elements = document->values;
    assert(elements[0]->values =~= attributes);
    let s1 = compile_elements(elements, 1);
    assert(compile_elements(elements, 0).rules.len() == 0);
    assert(s1.version is None);
    assert(s1.diagnostics =~= Seq::<DiagnosticV>::empty());
}

/// An `equal` guard passes exactly when both operands instantiate under the
/// bindings to the same node; a `notEqual` guard exactly when both
/// instantiate and to different nodes. An operand with a wildcard or an
/// unbound variable fails either comparison.
pub proof fn law_comparison_guards(x: NodeV, y: NodeV, b: BindingsV)
    ensures
        spec_guard_passes(GuardV::Equal(x, y), b) == (spec_instantiate(x, b) is Ok && spec_instantiate(y, b) is Ok
            && spec_instantiate(x, b) == spec_instantiate(y, b)),
        spec_guard_passes(GuardV::NotEqual(x, y), b) == (spec_instantiate(x, b) is Ok && spec_instantiate(y, b) is Ok
            && spec_instantiate(x, b) != spec_instantiate(y, b)),
{
    law_resolve_is_instantiate(x, b);
    law_resolve_is_instantiate(y, b);
}

} // verus!
