//! Replacement instantiation and graph edits.
//!
//! Given a template and the bindings from a successful match, the replacer
//! builds a concrete node by substituting variables. A separate helper
//! replaces the node found at a path inside the working graph.

use vstd::prelude::*;
use crate::matcher::{Bindings, BindingsV};
use crate::model::{
    Node, NodeV, opt_str_view, nodes_view, lemma_nodes_view, clone_node, is_wildcard, variable_name,
    spec_is_wildcard, spec_variable_name,
};

verus! {

/// Errors that can occur while instantiating a template.
#[derive(Debug, Clone, PartialEq, Eq)]
pub enum ReplaceError {
    /// A template referenced a variable that the pattern never bound.
    UnboundVariable(String),
    /// A template contained the anonymous wildcard, which cannot be produced.
    WildcardInTemplate,
}

/// The mathematical value of a [`ReplaceError`].
pub enum ReplaceErrorV {
    UnboundVariable(Seq<char>),
    WildcardInTemplate,
}

impl View for ReplaceError {
    type V = ReplaceErrorV;

    open spec fn view(&self) -> ReplaceErrorV {
        match self {
            ReplaceError::UnboundVariable(name) => ReplaceErrorV::UnboundVariable(name@),
            ReplaceError::WildcardInTemplate => ReplaceErrorV::WildcardInTemplate,
        }
    }
}

impl ReplaceError {
    /// The human-readable message of the error.
    pub fn to_string(&self) -> (r: String)
        ensures
            r@ == match self@ {
                ReplaceErrorV::UnboundVariable(name) => "template references unbound variable '$"@ + name
                    + "'"@,
                ReplaceErrorV::WildcardInTemplate => "template contains the anonymous wildcard '_'"@,
            },
    {
        match self {
            ReplaceError::UnboundVariable(name) => {
                let mut s = String::from_str("template references unbound variable '$");
                s.append(name.as_str());
                s.append("'");
                s
            },
            ReplaceError::WildcardInTemplate => String::from_str("template contains the anonymous wildcard '_'"),
        }
    }
}

/// The node that `template` stands for under bindings `b`, or the first
/// problem met in a left-to-right pre-order walk.
pub open spec fn spec_instantiate(template: NodeV, b: BindingsV) -> Result<NodeV, ReplaceErrorV>
    decreases template,
{
    match template {
        NodeV::Ref(reference) => {
            if spec_is_wildcard(reference) {
                Err(ReplaceErrorV::WildcardInTemplate)
            } else {
                match spec_variable_name(reference) {
                    Some(name) => if b.contains_key(name) {
                        Ok(b[name])
                    } else {
                        Err(ReplaceErrorV::UnboundVariable(name))
                    },
                    None => Ok(template),
                }
            }
        },
        NodeV::Link { id, values } => match spec_instantiate_all(values, b) {
            Ok(instantiated) => Ok(NodeV::Link { id, values: instantiated }),
            Err(e) => Err(e),
        },
    }
}

pub open spec fn spec_instantiate_all(templates: Seq<NodeV>, b: BindingsV) -> Result<Seq<NodeV>, ReplaceErrorV>
    decreases templates,
{
    if templates.len() == 0 {
        Ok(Seq::empty())
    } else {
        match spec_instantiate(templates[0], b) {
            Ok(first) => match spec_instantiate_all(templates.skip(1), b) {
                Ok(rest) => Ok(seq![first] + rest),
                Err(e) => Err(e),
            },
            Err(e) => Err(e),
        }
    }
}

proof fn lemma_instantiate_all_fails_at(nodes: Seq<NodeV>, b: BindingsV, i: int)
    requires
        0 <= i < nodes.len(),
        spec_instantiate(nodes[i], b) is Err,
        forall|j: int| 0 <= j < i ==> spec_instantiate(#[trigger] nodes[j], b) is Ok,
    ensures
        spec_instantiate_all(nodes, b) == Err::<Seq<NodeV>, ReplaceErrorV>(spec_instantiate(nodes[i], b)->Err_0),
    decreases i,
{
    if i > 0 {
        assert(spec_instantiate(nodes[0], b) is Ok);
        assert forall|j: int| 0 <= j < i - 1 implies spec_instantiate(#[trigger] nodes.skip(1)[j], b) is Ok by {
            assert(nodes.skip(1)[j] == nodes[j + 1]);
        }
        lemma_instantiate_all_fails_at(nodes.skip(1), b, i - 1);
    }
}

proof fn lemma_instantiate_all_succeeds(nodes: Seq<NodeV>, b: BindingsV, out: Seq<NodeV>)
    requires
        out.len() == nodes.len(),
        forall|j: int| 0 <= j < nodes.len() ==> spec_instantiate(nodes[j], b) == Ok::<NodeV, ReplaceErrorV>(#[trigger] out[j]),
    ensures
        spec_instantiate_all(nodes, b) == Ok::<Seq<NodeV>, ReplaceErrorV>(out),
    decreases nodes.len(),
{
    if nodes.len() > 0 {
        assert(spec_instantiate(nodes[0], b) == Ok::<NodeV, ReplaceErrorV>(out[0]));
        lemma_instantiate_all_succeeds(nodes.skip(1), b, out.skip(1));
        assert(seq![out[0]] + out.skip(1) =~= out);
    } else {
        assert(out =~= Seq::<NodeV>::empty());
    }
}

/// Builds a concrete node from `template`, substituting variables from
/// `bindings`.
pub fn instantiate(template: &Node, bindings: &Bindings) -> (r: Result<Node, ReplaceError>)
    ensures
        r matches Ok(n) ==> spec_instantiate(template@, bindings@) == Ok::<NodeV, ReplaceErrorV>(n@),
        r matches Err(e) ==> spec_instantiate(template@, bindings@) == Err::<NodeV, ReplaceErrorV>(e@),
    decreases template@,
{
    match template {
        Node::Ref(reference) => {
            if is_wildcard(reference.as_str()) {
                return Err(ReplaceError::WildcardInTemplate);
            }
            if let Some(name) = variable_name(reference.as_str()) {
                return match bindings.get(name) {
                    Some(value) => Ok(clone_node(value)),
                    None => Err(ReplaceError::UnboundVariable(String::from_str(name))),
                };
            }
            Ok(Node::Ref(reference.clone()))
        },
        Node::Link { id, values } => {
            proof {
                lemma_nodes_view(values@);
            }
            let ghost vs = nodes_view(values@);
            let mut new_values: Vec<Node> = Vec::new();
            let mut i: usize = 0;
            while i < values.len()
                invariant
                    0 <= i <= values.len(),
                    template@ == (NodeV::Link { id: opt_str_view(*id), values: vs }),
                    vs == nodes_view(values@),
                    vs.len() == values.len(),
                    forall|j: int| 0 <= j < values.len() ==> #[trigger] vs[j] == values@[j]@,
                    new_values.len() == i,
                    forall|j: int| 0 <= j < i ==> spec_instantiate(vs[j], bindings@) == Ok::<NodeV, ReplaceErrorV>(
                        #[trigger] new_values@[j]@,
                    ),
                decreases values.len() - i,
            {
                assert(decreases_to!(template@ => template@->values));
                assert(decreases_to!(template@->values => template@->values[i as int]));
                match instantiate(&values[i], bindings) {
                    Ok(value) => new_values.push(value),
                    Err(e) => {
                        proof {
                            assert forall|j: int| 0 <= j < i implies spec_instantiate(#[trigger] vs[j], bindings@) is Ok by {
                                assert(spec_instantiate(vs[j], bindings@) == Ok::<NodeV, ReplaceErrorV>(new_values@[j]@));
                            }
                            lemma_instantiate_all_fails_at(vs, bindings@, i as int);
                        }
                        return Err(e);
                    },
                }
                i = i + 1;
            }
            proof {
                lemma_nodes_view(new_values@);
                assert forall|j: int| 0 <= j < vs.len() implies spec_instantiate(vs[j], bindings@) == Ok::<
                    NodeV,
                    ReplaceErrorV,
                >(#[trigger] nodes_view(new_values@)[j]) by {
                    assert(nodes_view(new_values@)[j] == new_values@[j]@);
                }
                lemma_instantiate_all_succeeds(vs, bindings@, nodes_view(new_values@));
            }
            let new_id = match id {
                Some(s) => Some(s.clone()),
                None => None,
            };
            Ok(Node::Link { id: new_id, values: new_values })
        },
    }
}

/// The graph `root` with the node at `path` replaced by `replacement`. An
/// empty path replaces the root itself; a path that leaves the graph changes
/// nothing from the point where it leaves.
pub open spec fn spec_replace_at(root: NodeV, path: Seq<usize>, replacement: NodeV) -> NodeV
    decreases path.len(),
{
    if path.len() == 0 {
        replacement
    } else {
        match root {
            NodeV::Link { id, values } => {
                if path[0] < values.len() {
                    NodeV::Link {
                        id,
                        values: values.update(
                            path[0] as int,
                            spec_replace_at(values[path[0] as int], path.skip(1), replacement),
                        ),
                    }
                } else {
                    root
                }
            },
            NodeV::Ref(_) => root,
        }
    }
}

/// The node found at `path` in `root`, if the path stays inside the graph.
pub open spec fn spec_subtree_at(root: NodeV, path: Seq<usize>) -> Option<NodeV>
    decreases path.len(),
{
    if path.len() == 0 {
        Some(root)
    } else {
        match root {
            NodeV::Link { values, .. } => {
                if path[0] < values.len() {
                    spec_subtree_at(values[path[0] as int], path.skip(1))
                } else {
                    None
                }
            },
            NodeV::Ref(_) => None,
        }
    }
}

/// Returns a copy of `root` with the node located at `path` replaced by
/// `replacement`. An empty path replaces the root itself. Each path element is
/// an index into a link's `values`.
pub fn replace_at(root: &Node, path: &[usize], replacement: Node) -> (r: Node)
    ensures
        r@ == spec_replace_at(root@, path@, replacement@),
    decreases path@.len(),
{
    if path.len() == 0 {
        return replacement;
    }
    let index = path[0];
    match root {
        Node::Link { id, values } => {
            proof {
                lemma_nodes_view(values@);
            }
            let mut new_values: Vec<Node> = Vec::new();
            let mut i: usize = 0;
            while i < values.len()
                invariant
                    0 <= i <= values.len(),
                    new_values.len() == i,
                    forall|j: int| 0 <= j < i ==> #[trigger] new_values@[j]@ == values@[j]@,
                decreases values.len() - i,
            {
                new_values.push(clone_node(&values[i]));
                i = i + 1;
            }
            if index < values.len() {
                let rest = slice_rest(path);
                let updated = replace_at(&values[index], rest, replacement);
                new_values.set(index, updated);
            }
            let new_id = match id {
                Some(s) => Some(s.clone()),
                None => None,
            };
            proof {
                lemma_nodes_view(new_values@);
                let expected = if index < values.len() {
                    nodes_view(values@).update(
                        index as int,
                        spec_replace_at(nodes_view(values@)[index as int], path@.skip(1), replacement@),
                    )
                } else {
                    nodes_view(values@)
                };
                assert forall|j: int| 0 <= j < new_values.len() implies nodes_view(new_values@)[j] == expected[j] by {
                    assert(nodes_view(new_values@)[j] == new_values@[j]@);
                    assert(nodes_view(values@)[j] == values@[j]@);
                }
                assert(nodes_view(new_values@) =~= expected);
            }
            Node::Link { id: new_id, values: new_values }
        },
        Node::Ref(_) => clone_node(root),
    }
}

/// The path without its first step.
fn slice_rest(path: &[usize]) -> (r: &[usize])
    requires
        path@.len() > 0,
    ensures
        r@ == path@.skip(1),
{
    let (_, rest) = path.split_at(1);
    rest
}

/// Putting back the node found at a path leaves the graph unchanged.
pub proof fn law_replace_with_own_subtree(root: NodeV, path: Seq<usize>)
    requires
        spec_subtree_at(root, path) is Some,
    ensures
        spec_replace_at(root, path, spec_subtree_at(root, path)->0) == root,
    decreases path.len(),
{
    if path.len() > 0 {
        let values = root->values;
        law_replace_with_own_subtree(values[path[0] as int], path.skip(1));
        assert(values.update(path[0] as int, values[path[0] as int]) =~= values);
    }
}

/// After a replacement, the node found at the same path is the replacement.
pub proof fn law_subtree_after_replace(root: NodeV, path: Seq<usize>, replacement: NodeV)
    requires
        spec_subtree_at(root, path) is Some,
    ensures
        spec_subtree_at(spec_replace_at(root, path, replacement), path) == Some(replacement),
    decreases path.len(),
{
    if path.len() > 0 {
        let values = root->values;
        law_subtree_after_replace(values[path[0] as int], path.skip(1), replacement);
    }
}

/// Whether two paths part ways: at some depth they lead to different
/// children of the same link.
pub open spec fn paths_diverge(p: Seq<usize>, q: Seq<usize>) -> bool
    decreases p.len(),
{
    p.len() > 0 && q.len() > 0 && (p[0] != q[0] || paths_diverge(p.skip(1), q.skip(1)))
}

/// Replacing at a path changes nothing off that path: whatever lies at a path
/// that parts ways with it is the same before and after.
pub proof fn law_replace_keeps_the_rest(root: NodeV, path: Seq<usize>, replacement: NodeV, other: Seq<usize>)
    requires
        paths_diverge(path, other),
    ensures
        spec_subtree_at(spec_replace_at(root, path, replacement), other) == spec_subtree_at(root, other),
    decreases path.len(),
{
    if let NodeV::Link { id, values } = root {
        if path[0] < values.len() && other[0] == path[0] {
            law_replace_keeps_the_rest(values[path[0] as int], path.skip(1), replacement, other.skip(1));
        }
    }
}

/// Replacing below a link keeps the link: the same identifier and the same
/// number of values.
pub proof fn law_replace_keeps_shape(root: NodeV, path: Seq<usize>, replacement: NodeV)
    requires
        path.len() > 0,
        root is Link,
    ensures
        spec_replace_at(root, path, replacement) matches NodeV::Link { id, values } && id == root->id
            && values.len() == root->values.len(),
{
}

} // verus!
