//! Canonical, deterministic serialization of a working graph.
//!
//! A transformer graph is rooted at an implicit document container: the
//! anonymous top-level link produced by the parser. The canonical formatter
//! treats a top-level anonymous link as a document and prints each top-level
//! element on its own line; any other node is written as Links Notation
//! directly.

use vstd::prelude::*;
use crate::lino::{lino_display, lino_text};
use crate::model::{Node, NodeV, lemma_nodes_view, nodes_view};
use crate::text::string_views;

verus! {

/// The lines joined with a newline between each two.
pub open spec fn joined_lines(lines: Seq<Seq<char>>) -> Seq<char>
    decreases lines.len(),
{
    if lines.len() == 0 {
        Seq::empty()
    } else if lines.len() == 1 {
        lines[0]
    } else {
        joined_lines(lines.drop_last()) + "\n"@ + lines.last()
    }
}

/// The canonical text of a graph.
pub open spec fn spec_canonical(node: NodeV) -> Seq<char> {
    match node {
        NodeV::Link { id: None, values } => joined_lines(values.map_values(|v: NodeV| lino_text(v))),
        _ => lino_text(node),
    }
}

/// Joins lines with a newline between each two.
pub fn join_lines(lines: &Vec<String>) -> (r: String)
    ensures
        r@ == joined_lines(string_views(lines@)),
{
    let ghost all = string_views(lines@);
    let mut s = String::new();
    let mut i: usize = 0;
    while i < lines.len()
        invariant
            0 <= i <= lines.len(),
            all == string_views(lines@),
            s@ == joined_lines(all.take(i as int)),
        decreases lines.len() - i,
    {
        if i > 0 {
            s.append("\n");
        }
        s.append(lines[i].as_str());
        proof {
            let t = all.take(i + 1);
            assert(t.drop_last() =~= all.take(i as int));
            assert(t.last() == lines@[i as int]@);
            if i == 0 {
                assert(s@ =~= t[0]);
            }
        }
        i = i + 1;
    }
    assert(all.take(lines.len() as int) =~= all);
    s
}

/// Formats `node` canonically. When `node` is the anonymous document
/// container, its top-level elements are joined by newlines; otherwise the
/// node is formatted directly.
pub fn canonical(node: &Node) -> (r: String)
    ensures
        r@ == spec_canonical(node@),
{
    match node {
        Node::Link { id: None, values } => {
            proof {
                lemma_nodes_view(values@);
            }
            let mut lines: Vec<String> = Vec::new();
            let mut i: usize = 0;
            while i < values.len()
                invariant
                    0 <= i <= values.len(),
                    lines.len() == i,
                    forall|j: int| 0 <= j < i ==> (#[trigger] lines@[j])@ == lino_text(values@[j]@),
                decreases values.len() - i,
            {
                lines.push(lino_display(&values[i]));
                i = i + 1;
            }
            proof {
                let vs = nodes_view(values@);
                assert(string_views(lines@) =~= vs.map_values(|v: NodeV| lino_text(v))) by {
                    assert forall|j: int| 0 <= j < lines.len() implies string_views(lines@)[j] == vs.map_values(
                        |v: NodeV| lino_text(v),
                    )[j] by {
                        assert(vs[j] == values@[j]@);
                    }
                }
            }
            join_lines(&lines)
        },
        _ => lino_display(node),
    }
}

} // verus!
