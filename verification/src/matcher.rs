//! Structural pattern matching with variable binding, and guard evaluation.
//!
//! A pattern matches a data node structurally: two links match when their ids
//! and their ordered children match. Variables bind sub-nodes and unify across
//! repeated occurrences; the anonymous wildcard matches any node without
//! binding.

use vstd::prelude::*;
use crate::text::str_eq;
use crate::model::{
    Node, NodeV, Guard, GuardV, opt_str_view, nodes_view, guards_view, lemma_nodes_view, lemma_guards_view,
    clone_node, node_equal, is_wildcard, variable_name, spec_is_wildcard, spec_variable_name,
};

verus! {

/// The bindings of variable names to nodes, as a mathematical map.
pub type BindingsV = Map<Seq<char>, NodeV>;

/// A set of variable bindings produced by a successful match. Each name is
/// bound at most once.
pub struct Bindings {
    entries: Vec<(String, Node)>,
}

/// The map that a list of distinct-keyed entries stands for.
pub open spec fn entries_map(es: Seq<(String, Node)>) -> BindingsV
    decreases es.len(),
{
    if es.len() == 0 {
        Map::empty()
    } else {
        entries_map(es.drop_last()).insert(es.last().0@, es.last().1@)
    }
}

/// No name occurs twice.
pub open spec fn distinct_keys(es: Seq<(String, Node)>) -> bool {
    forall|i: int, j: int| 0 <= i < j < es.len() ==> (#[trigger] es[i]).0@ != (#[trigger] es[j]).0@
}

proof fn lemma_entries_map(es: Seq<(String, Node)>)
    requires
        distinct_keys(es),
    ensures
        entries_map(es).dom().finite(),
        entries_map(es).dom().len() == es.len(),
        forall|i: int| #![trigger es[i]] 0 <= i < es.len() ==> entries_map(es).contains_key(es[i].0@)
            && entries_map(es)[es[i].0@] == es[i].1@,
        forall|k: Seq<char>| #[trigger] entries_map(es).contains_key(k) ==> exists|i: int|
            0 <= i < es.len() && es[i].0@ == k,
    decreases es.len(),
{
    if es.len() > 0 {
        let init = es.drop_last();
        assert(distinct_keys(init)) by {
            assert forall|i: int, j: int| 0 <= i < j < init.len() implies (#[trigger] init[i]).0@
                != (#[trigger] init[j]).0@ by {
                assert(init[i] == es[i] && init[j] == es[j]);
            }
        }
        lemma_entries_map(init);
        let last = es.last();
        if entries_map(init).contains_key(last.0@) {
            let i = choose|i: int| 0 <= i < init.len() && init[i].0@ == last.0@;
            assert(es[i] == init[i]);
            assert(false);
        }
        assert forall|i: int| #![trigger es[i]] 0 <= i < es.len() implies entries_map(es).contains_key(
            es[i].0@,
        ) && entries_map(es)[es[i].0@] == es[i].1@ by {
            if i < es.len() - 1 {
                assert(es[i] == init[i]);
                assert(es[i].0@ != es[es.len() - 1].0@);
            }
        }
        assert forall|k: Seq<char>| #[trigger] entries_map(es).contains_key(k) implies exists|i: int|
            0 <= i < es.len() && es[i].0@ == k by {
            if k != last.0@ {
                let i = choose|i: int| 0 <= i < init.len() && init[i].0@ == k;
                assert(es[i] == init[i]);
            } else {
                assert(es[es.len() - 1].0@ == k);
            }
        }
    }
}

impl View for Bindings {
    type V = BindingsV;

    closed spec fn view(&self) -> BindingsV {
        entries_map(self.entries@)
    }
}

impl Bindings {
    #[verifier::type_invariant]
    closed spec fn wf(self) -> bool {
        distinct_keys(self.entries@)
    }

    /// An empty set of bindings.
    pub fn new() -> (r: Bindings)
        ensures
            r@ == BindingsV::empty(),
    {
        Bindings { entries: Vec::new() }
    }

    /// The node bound to `name`, if any.
    pub fn get(&self, name: &str) -> (r: Option<&Node>)
        ensures
            r matches Some(node) ==> self@.contains_key(name@) && self@[name@] == node@,
            r is None ==> !self@.contains_key(name@),
    {
        proof {
            use_type_invariant(self);
            lemma_entries_map(self.entries@);
        }
        let mut i: usize = 0;
        while i < self.entries.len()
            invariant
                0 <= i <= self.entries.len(),
                forall|j: int| 0 <= j < i ==> (#[trigger] self.entries@[j]).0@ != name@,
            decreases self.entries.len() - i,
        {
            if str_eq(self.entries[i].0.as_str(), name) {
                proof {
                    use_type_invariant(self);
                    lemma_entries_map(self.entries@);
                }
                return Some(&self.entries[i].1);
            }
            i = i + 1;
        }
        None
    }

    /// Binds `name` to `node`, replacing any earlier binding of the name.
    pub fn insert(&mut self, name: String, node: Node)
        ensures
            final(self)@ == old(self)@.insert(name@, node@),
    {
        proof {
            use_type_invariant(&*self);
            lemma_entries_map(self.entries@);
        }
        let ghost old_entries = self.entries@;
        let mut i: usize = 0;
        while i < self.entries.len()
            invariant
                0 <= i <= self.entries.len(),
                self.entries@ == old_entries,
                old(self).entries@ == old_entries,
                distinct_keys(old_entries),
                forall|j: int| 0 <= j < i ==> (#[trigger] self.entries@[j]).0@ != name@,
            decreases self.entries.len() - i,
        {
            if str_eq(self.entries[i].0.as_str(), name.as_str()) {
                let ghost key = self.entries@[i as int].0@;
                proof {
                    lemma_entries_map(old_entries);
                    let es = old_entries.update(i as int, (name, node));
                    assert(distinct_keys(es)) by {
                        assert forall|a: int, b: int| 0 <= a < b < es.len() implies (#[trigger] es[a]).0@
                            != (#[trigger] es[b]).0@ by {
                            if a != i && b != i {
                                assert(es[a] == old_entries[a] && es[b] == old_entries[b]);
                            } else if a == i {
                                assert(es[b] == old_entries[b]);
                                assert(old_entries[i as int].0@ != old_entries[b].0@);
                            } else {
                                assert(es[a] == old_entries[a]);
                                assert(old_entries[a].0@ != old_entries[i as int].0@);
                            }
                        }
                    }
                    lemma_entries_map(es);
                    assert(entries_map(es) =~= entries_map(old_entries).insert(name@, node@)) by {
                        assert forall|k: Seq<char>| #[trigger] entries_map(es).contains_key(k) implies entries_map(
                            old_entries,
                        ).insert(name@, node@).contains_key(k) by {
                            let j = choose|j: int| 0 <= j < es.len() && es[j].0@ == k;
                            if j != i {
                                assert(es[j] == old_entries[j]);
                            }
                        }
                        assert forall|k: Seq<char>| #[trigger] entries_map(old_entries).insert(name@, node@).contains_key(
                            k,
                        ) implies entries_map(es).contains_key(k) && entries_map(es)[k] == entries_map(
                            old_entries,
                        ).insert(name@, node@)[k] by {
                            if k == name@ {
                                assert(es[i as int].0@ == name@);
                            } else {
                                let j = choose|j: int| 0 <= j < old_entries.len() && old_entries[j].0@ == k;
                                assert(j != i);
                                assert(es[j] == old_entries[j]);
                            }
                        }
                    }
                }
                let mut taken = Bindings::new();
                core::mem::swap(self, &mut taken);
                let mut entries = taken.entries;
                entries.set(i, (name, node));
                *self = Bindings { entries };
                return;
            }
            i = i + 1;
        }
        let mut taken = Bindings::new();
        core::mem::swap(self, &mut taken);
        let mut entries = taken.entries;
        entries.push((name, node));
        proof {
            let es = entries@;
            assert(es.drop_last() =~= old_entries);
            assert(distinct_keys(es)) by {
                assert forall|a: int, b: int| 0 <= a < b < es.len() implies (#[trigger] es[a]).0@
                    != (#[trigger] es[b]).0@ by {
                    assert(es[a] == old_entries[a]);
                    if b < old_entries.len() {
                        assert(es[b] == old_entries[b]);
                    }
                }
            }
        }
        *self = Bindings { entries };
    }

    /// Whether no name is bound.
    pub fn is_empty(&self) -> (r: bool)
        ensures
            r == (self@.dom().len() == 0),
    {
        proof {
            use_type_invariant(self);
            lemma_entries_map(self.entries@);
        }
        self.entries.len() == 0
    }

    /// The number of bound names.
    pub fn len(&self) -> (r: usize)
        ensures
            r == self@.dom().len(),
    {
        proof {
            use_type_invariant(self);
            lemma_entries_map(self.entries@);
        }
        self.entries.len()
    }
}

/// Ids match when both are absent, both are equal, or the pattern id is the
/// anonymous wildcard.
pub open spec fn spec_ids_match(pattern_id: Option<Seq<char>>, data_id: Option<Seq<char>>) -> bool {
    match pattern_id {
        None => data_id is None,
        Some(p) => spec_is_wildcard(p) || data_id == Some(p),
    }
}

/// The outcome of matching `pattern` against `data` starting from bindings
/// `b`: whether it matched, and the bindings afterwards. A failed match keeps
/// whatever its successful parts had bound before the failing part.
pub open spec fn spec_match(pattern: NodeV, data: NodeV, b: BindingsV) -> (bool, BindingsV)
    decreases pattern,
{
    match pattern {
        NodeV::Ref(reference) => {
            if spec_is_wildcard(reference) {
                (true, b)
            } else {
                match spec_variable_name(reference) {
                    Some(name) => if b.contains_key(name) {
                        (b[name] == data, b)
                    } else {
                        (true, b.insert(name, data))
                    },
                    None => (data == NodeV::Ref(reference), b),
                }
            }
        },
        NodeV::Link { id, values } => match data {
            NodeV::Link { id: data_id, values: data_values } => {
                if !spec_ids_match(id, data_id) || values.len() != data_values.len() {
                    (false, b)
                } else {
                    spec_match_all(values, data_values, b)
                }
            },
            NodeV::Ref(_) => (false, b),
        },
    }
}

/// Matches `patterns` against `data` pairwise from left to right, stopping at
/// the first failure.
pub open spec fn spec_match_all(patterns: Seq<NodeV>, data: Seq<NodeV>, b: BindingsV) -> (bool, BindingsV)
    decreases patterns,
{
    if patterns.len() == 0 {
        (true, b)
    } else {
        let (ok, b1) = spec_match(patterns[0], data[0], b);
        if ok {
            spec_match_all(patterns.skip(1), data.skip(1), b1)
        } else {
            (false, b1)
        }
    }
}

fn ids_match(pattern_id: &Option<String>, data_id: &Option<String>) -> (r: bool)
    ensures
        r == spec_ids_match(opt_str_view(*pattern_id), opt_str_view(*data_id)),
{
    match pattern_id {
        None => data_id.is_none(),
        Some(p) => {
            if is_wildcard(p.as_str()) {
                true
            } else {
                match data_id {
                    Some(d) => p.eq(d),
                    None => false,
                }
            }
        },
    }
}

/// Binds `name` to `data`, unifying with any existing binding.
fn bind_variable(name: &str, data: &Node, bindings: &mut Bindings) -> (r: bool)
    ensures
        old(bindings)@.contains_key(name@) ==> r == (old(bindings)@[name@] == data@) && final(bindings)@
            == old(bindings)@,
        !old(bindings)@.contains_key(name@) ==> r && final(bindings)@ == old(bindings)@.insert(name@, data@),
{
    match bindings.get(name) {
        Some(existing) => node_equal(existing, data),
        None => {
            bindings.insert(String::from_str(name), clone_node(data));
            true
        },
    }
}

/// Attempts to match `pattern` against `data`, extending `bindings`.
///
/// On success the bindings contain every variable captured by the pattern. On
/// failure the function returns `false` and the bindings hold what the parts
/// matched before the failing one bound.
pub fn match_node(pattern: &Node, data: &Node, bindings: &mut Bindings) -> (r: bool)
    ensures
        (r, final(bindings)@) == spec_match(pattern@, data@, old(bindings)@),
    decreases pattern@,
{
    match pattern {
        Node::Ref(reference) => {
            if is_wildcard(reference.as_str()) {
                return true;
            }
            if let Some(name) = variable_name(reference.as_str()) {
                return bind_variable(name, data, bindings);
            }
            match data {
                Node::Ref(value) => value.eq(reference),
                Node::Link { .. } => false,
            }
        },
        Node::Link { id: pattern_id, values: pattern_values } => match data {
            Node::Link { id: data_id, values: data_values } => {
                proof {
                    lemma_nodes_view(pattern_values@);
                    lemma_nodes_view(data_values@);
                }
                if !ids_match(pattern_id, data_id) {
                    return false;
                }
                if pattern_values.len() != data_values.len() {
                    return false;
                }
                let ghost ps = nodes_view(pattern_values@);
                let ghost ds = nodes_view(data_values@);
                let ghost b0 = bindings@;
                assert(ps.skip(0) =~= ps);
                assert(ds.skip(0) =~= ds);
                let mut i: usize = 0;
                while i < pattern_values.len()
                    invariant
                        0 <= i <= pattern_values.len(),
                        pattern_values.len() == data_values.len(),
                        pattern@ == (NodeV::Link { id: opt_str_view(*pattern_id), values: ps }),
                        data@ == (NodeV::Link { id: opt_str_view(*data_id), values: ds }),
                        spec_ids_match(opt_str_view(*pattern_id), opt_str_view(*data_id)),
                        spec_match(pattern@, data@, b0) == spec_match_all(ps, ds, b0),
                        b0 == old(bindings)@,
                        ps == nodes_view(pattern_values@),
                        ds == nodes_view(data_values@),
                        ps.len() == pattern_values.len(),
                        ds.len() == data_values.len(),
                        forall|j: int| 0 <= j < pattern_values.len() ==> #[trigger] ps[j] == pattern_values@[j]@,
                        forall|j: int| 0 <= j < data_values.len() ==> #[trigger] ds[j] == data_values@[j]@,
                        spec_match_all(ps, ds, b0) == spec_match_all(ps.skip(i as int), ds.skip(i as int), bindings@),
                    decreases pattern_values.len() - i,
                {
                    let ghost before = bindings@;
                    assert(ps.skip(i as int)[0] == ps[i as int]);
                    assert(ds.skip(i as int)[0] == ds[i as int]);
                    assert(ps.skip(i as int).skip(1) =~= ps.skip(i + 1));
                    assert(ds.skip(i as int).skip(1) =~= ds.skip(i + 1));
                    assert(decreases_to!(pattern@ => pattern@->values));
                    assert(decreases_to!(pattern@->values => pattern@->values[i as int]));
                    let ok = match_node(&pattern_values[i], &data_values[i], bindings);
                    if !ok {
                        assert(spec_match_all(ps.skip(i as int), ds.skip(i as int), before) == (false, bindings@));
                        return false;
                    }
                    i = i + 1;
                }
                true
            },
            Node::Ref(_) => false,
        },
    }
}

/// What an operand of a guard stands for under bindings `b`: variables become
/// their bound value, and a wildcard or an unbound variable anywhere makes the
/// operand unresolvable.
pub open spec fn spec_resolve(node: NodeV, b: BindingsV) -> Option<NodeV>
    decreases node,
{
    match node {
        NodeV::Ref(reference) => {
            if spec_is_wildcard(reference) {
                None
            } else {
                match spec_variable_name(reference) {
                    Some(name) => if b.contains_key(name) {
                        Some(b[name])
                    } else {
                        None
                    },
                    None => Some(node),
                }
            }
        },
        NodeV::Link { id, values } => match spec_resolve_all(values, b) {
            Some(resolved) => Some(NodeV::Link { id, values: resolved }),
            None => None,
        },
    }
}

pub open spec fn spec_resolve_all(nodes: Seq<NodeV>, b: BindingsV) -> Option<Seq<NodeV>>
    decreases nodes,
{
    if nodes.len() == 0 {
        Some(Seq::empty())
    } else {
        match spec_resolve(nodes[0], b) {
            Some(first) => match spec_resolve_all(nodes.skip(1), b) {
                Some(rest) => Some(seq![first] + rest),
                None => None,
            },
            None => None,
        }
    }
}

/// Whether a guard passes under bindings `b`. An operand that cannot be
/// resolved fails the comparison it is part of.
pub open spec fn spec_guard_passes(guard: GuardV, b: BindingsV) -> bool
    decreases guard,
{
    match guard {
        GuardV::Equal(x, y) => match (spec_resolve(x, b), spec_resolve(y, b)) {
            (Some(x), Some(y)) => x == y,
            _ => false,
        },
        GuardV::NotEqual(x, y) => match (spec_resolve(x, b), spec_resolve(y, b)) {
            (Some(x), Some(y)) => x != y,
            _ => false,
        },
        GuardV::All(guards) => spec_all_guards_pass(guards, b),
    }
}

pub open spec fn spec_all_guards_pass(guards: Seq<GuardV>, b: BindingsV) -> bool
    decreases guards,
{
    guards.len() == 0 || (spec_guard_passes(guards[0], b) && spec_all_guards_pass(guards.skip(1), b))
}

/// Resolves an operand node against the current bindings.
fn resolve_operand(node: &Node, bindings: &Bindings) -> (r: Option<Node>)
    ensures
        r matches Some(n) ==> spec_resolve(node@, bindings@) == Some(n@),
        r is None ==> spec_resolve(node@, bindings@) is None,
    decreases node@,
{
    match node {
        Node::Ref(reference) => {
            if is_wildcard(reference.as_str()) {
                None
            } else if let Some(name) = variable_name(reference.as_str()) {
                match bindings.get(name) {
                    Some(value) => Some(clone_node(value)),
                    None => None,
                }
            } else {
                Some(clone_node(node))
            }
        },
        Node::Link { id, values } => {
            proof {
                lemma_nodes_view(values@);
            }
            let ghost vs = nodes_view(values@);
            let mut resolved: Vec<Node> = Vec::new();
            let mut i: usize = 0;
            while i < values.len()
                invariant
                    0 <= i <= values.len(),
                    node@ == (NodeV::Link { id: opt_str_view(*id), values: vs }),
                    vs == nodes_view(values@),
                    vs.len() == values.len(),
                    forall|j: int| 0 <= j < values.len() ==> #[trigger] vs[j] == values@[j]@,
                    resolved.len() == i,
                    forall|j: int| 0 <= j < i ==> spec_resolve(vs[j], bindings@) == Some(#[trigger] resolved@[j]@),
                decreases values.len() - i,
            {
                assert(decreases_to!(node@ => node@->values));
                assert(decreases_to!(node@->values => node@->values[i as int]));
                match resolve_operand(&values[i], bindings) {
                    Some(value) => resolved.push(value),
                    None => {
                        proof {
                            lemma_resolve_all_fails_at(vs, bindings@, i as int);
                        }
                        return None;
                    },
                }
                i = i + 1;
            }
            proof {
                lemma_nodes_view(resolved@);
                assert forall|j: int| 0 <= j < vs.len() implies spec_resolve(vs[j], bindings@) == Some(
                    #[trigger] nodes_view(resolved@)[j],
                ) by {
                    assert(nodes_view(resolved@)[j] == resolved@[j]@);
                }
                lemma_resolve_all_succeeds(vs, bindings@, nodes_view(resolved@));
            }
            let new_id = match id {
                Some(s) => Some(s.clone()),
                None => None,
            };
            Some(Node::Link { id: new_id, values: resolved })
        },
    }
}

proof fn lemma_resolve_all_fails_at(nodes: Seq<NodeV>, b: BindingsV, i: int)
    requires
        0 <= i < nodes.len(),
        spec_resolve(nodes[i], b) is None,
    ensures
        spec_resolve_all(nodes, b) is None,
    decreases i,
{
    if i > 0 {
        lemma_resolve_all_fails_at(nodes.skip(1), b, i - 1);
    }
}

proof fn lemma_resolve_all_succeeds(nodes: Seq<NodeV>, b: BindingsV, out: Seq<NodeV>)
    requires
        out.len() == nodes.len(),
        forall|j: int| 0 <= j < nodes.len() ==> spec_resolve(nodes[j], b) == Some(#[trigger] out[j]),
    ensures
        spec_resolve_all(nodes, b) == Some(out),
    decreases nodes.len(),
{
    if nodes.len() > 0 {
        assert(spec_resolve(nodes[0], b) == Some(out[0]));
        lemma_resolve_all_succeeds(nodes.skip(1), b, out.skip(1));
        assert(seq![out[0]] + out.skip(1) =~= out);
    }
}

/// Evaluates a guard against the given bindings. An operand that cannot be
/// resolved (an unbound variable or a wildcard) fails the guard rather than
/// panicking.
pub fn evaluate_guard(guard: &Guard, bindings: &Bindings) -> (r: bool)
    ensures
        r == spec_guard_passes(guard@, bindings@),
    decreases guard@,
{
    match guard {
        Guard::Equal(a, b) => match (resolve_operand(a, bindings), resolve_operand(b, bindings)) {
            (Some(a), Some(b)) => node_equal(&a, &b),
            _ => false,
        },
        Guard::NotEqual(a, b) => match (resolve_operand(a, bindings), resolve_operand(b, bindings)) {
            (Some(a), Some(b)) => !node_equal(&a, &b),
            _ => false,
        },
        Guard::All(guards) => {
            proof {
                lemma_guards_view(guards@);
            }
            let ghost gs = guards_view(guards@);
            assert(gs.skip(0) =~= gs);
            let mut i: usize = 0;
            while i < guards.len()
                invariant
                    0 <= i <= guards.len(),
                    guard@ == GuardV::All(gs),
                    gs == guards_view(guards@),
                    gs.len() == guards.len(),
                    forall|j: int| 0 <= j < guards.len() ==> #[trigger] gs[j] == guards@[j]@,
                    spec_all_guards_pass(gs, bindings@) == spec_all_guards_pass(gs.skip(i as int), bindings@),
                decreases guards.len() - i,
            {
                assert(gs.skip(i as int)[0] == gs[i as int]);
                assert(gs.skip(i as int).skip(1) =~= gs.skip(i + 1));
                assert(decreases_to!(guard@ => guard@->All_0));
                assert(decreases_to!(guard@->All_0 => guard@->All_0[i as int]));
                if !evaluate_guard(&guards[i], bindings) {
                    return false;
                }
                i = i + 1;
            }
            true
        },
    }
}

} // verus!
