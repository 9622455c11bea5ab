//! The boundary with the `links_notation` crate: reading a document into a
//! [`Node`] and writing a node back out as Links Notation text.

use vstd::prelude::*;
use links_notation::{LiNo, ParseError};
use crate::model::{Node, NodeV, lemma_nodes_view, nodes_view};

verus! {

#[verifier::external_type_specification]
#[verifier::external_body]
#[verifier::reject_recursive_types(T)]
pub struct ExLiNo<T>(LiNo<T>);

#[verifier::external_type_specification]
#[verifier::external_body]
pub struct ExParseError(ParseError);

/// The node that `links_notation::parse_lino` reads from a document, or `None`
/// when it rejects the document.
pub uninterp spec fn lino_parse(document: Seq<char>) -> Option<NodeV>;

/// The text that the `Display` implementation of `links_notation::LiNo` writes
/// for a node.
pub uninterp spec fn lino_text(node: NodeV) -> Seq<char>;

/// The text that the `Display` implementation of `links_notation::ParseError`
/// writes for the error that `links_notation::parse_lino` returns for a
/// document it rejects.
pub uninterp spec fn lino_error_text(document: Seq<char>) -> Seq<char>;

/// Moves a `links_notation::LiNo` value into a [`Node`], variant for variant.
/// Nothing is stated of it on its own: [`parse_lino`] states what the pair
/// returns.
#[verifier::external_body]
fn node_from_lino(value: LiNo<String>) -> Node {
    match value {
        LiNo::Ref(reference) => Node::Ref(reference),
        LiNo::Link { id, values } => Node::Link {
            id,
            values: values.into_iter().map(node_from_lino).collect(),
        },
    }
}

/// Copies a [`Node`] into a `links_notation::LiNo` value, variant for
/// variant. Nothing is stated of it on its own: [`lino_display`] states what
/// the pair returns.
#[verifier::external_body]
fn lino_from_node(node: &Node) -> LiNo<String> {
    match node {
        Node::Ref(reference) => LiNo::Ref(reference.clone()),
        Node::Link { id, values } => LiNo::Link {
            id: id.clone(),
            values: values.iter().map(lino_from_node).collect(),
        },
    }
}

/// Reads a Links Notation document with `links_notation::parse_lino`, and
/// gives a rejection together with the text its `Display` writes.
///
/// Trusted: the parser's result is a function of the document text alone, so
/// it is named [`lino_parse`]; the node is that result, and an error comes
/// exactly when the parser rejects the text. The error's text is a function
/// of the document too, named [`lino_error_text`]. Which variant of the error
/// comes back is left unstated.
#[verifier::external_body]
fn read_lino(document: &str) -> (r: Result<Node, (ParseError, String)>)
    ensures
        r matches Ok(node) ==> lino_parse(document@) == Some(node@),
        r is Err ==> lino_parse(document@) is None,
        r matches Err((_, text)) ==> text@ == lino_error_text(document@),
{
    match links_notation::parse_lino(document) {
        Ok(value) => Ok(node_from_lino(value)),
        Err(error) => {
            let text = error.to_string();
            Err((error, text))
        },
    }
}

/// How this library reads a node that `links_notation::parse_lino` returned.
/// That parser gives every parenthesized group, and every top-level line, as
/// a link: `(flower)` comes back as a link holding the reference `flower`, and
/// `((flower))` as a link holding that link. In this library's programs and
/// data a lone parenthesized reference is the reference itself, so a link
/// without an identifier that holds exactly one bare reference is read as
/// that reference. Everything else keeps its shape: `((flower))` is read as
/// the link `(flower)`, and `(a ((x)))` as `(a (x))`.
pub open spec fn reading(n: NodeV) -> NodeV
    decreases n,
{
    match n {
        NodeV::Ref(_) => n,
        NodeV::Link { id, values } => if id is None && values.len() == 1 && values[0] is Ref {
            values[0]
        } else {
            NodeV::Link { id, values: readings(values) }
        },
    }
}

/// [`reading`] applied to each node of a sequence.
pub open spec fn readings(vs: Seq<NodeV>) -> Seq<NodeV>
    decreases vs,
{
    if vs.len() == 0 {
        Seq::empty()
    } else {
        readings(vs.drop_last()).push(reading(vs.last()))
    }
}

pub proof fn lemma_readings(vs: Seq<NodeV>)
    ensures
        readings(vs).len() == vs.len(),
        forall|i: int| 0 <= i < vs.len() ==> #[trigger] readings(vs)[i] == reading(vs[i]),
    decreases vs.len(),
{
    if vs.len() > 0 {
        lemma_readings(vs.drop_last());
    }
}

/// A whole document as this library reads it: the document link itself is
/// kept, and each of its top-level links is read with [`reading`].
pub open spec fn read_document(n: NodeV) -> NodeV {
    match n {
        NodeV::Ref(_) => n,
        NodeV::Link { id, values } => NodeV::Link { id, values: readings(values) },
    }
}

/// The document that [`parse_lino`] gives for a text, or `None` when the
/// text is not Links Notation.
pub open spec fn lino_document(text: Seq<char>) -> Option<NodeV> {
    match lino_parse(text) {
        Some(raw) => Some(read_document(raw)),
        None => None,
    }
}

/// Reads each node of `values` with [`read_node`].
fn read_values(values: &Vec<Node>) -> (r: Vec<Node>)
    ensures
        nodes_view(r@) == readings(nodes_view(values@)),
    decreases nodes_view(values@), 1nat,
{
    proof {
        lemma_nodes_view(values@);
        lemma_readings(nodes_view(values@));
    }
    let mut out: Vec<Node> = Vec::new();
    let mut i: usize = 0;
    while i < values.len()
        invariant
            0 <= i <= values.len(),
            nodes_view(values@).len() == values.len(),
            readings(nodes_view(values@)).len() == values.len(),
            forall|j: int| 0 <= j < values.len() ==> #[trigger] nodes_view(values@)[j] == values@[j]@,
            forall|j: int| 0 <= j < values.len() ==> #[trigger] readings(nodes_view(values@))[j] == reading(
                nodes_view(values@)[j],
            ),
            out.len() == i,
            forall|j: int| 0 <= j < i ==> #[trigger] out@[j]@ == reading(values@[j]@),
        decreases values.len() - i,
    {
        assert(nodes_view(values@)[i as int] == values@[i as int]@);
        assert(decreases_to!(nodes_view(values@) => nodes_view(values@)[i as int]));
        let c = read_node(&values[i]);
        out.push(c);
        i = i + 1;
    }
    proof {
        lemma_nodes_view(out@);
        assert forall|j: int| 0 <= j < out.len() implies nodes_view(out@)[j] == readings(nodes_view(values@))[j] by {
            assert(out@[j]@ == reading(values@[j]@));
            assert(nodes_view(values@)[j] == values@[j]@);
        }
        assert(nodes_view(out@) =~= readings(nodes_view(values@)));
    }
    out
}

/// Reads one node as [`reading`] says.
fn read_node(node: &Node) -> (r: Node)
    ensures
        r@ == reading(node@),
    decreases node@, 2nat,
{
    match node {
        Node::Ref(s) => Node::Ref(s.clone()),
        Node::Link { id, values } => {
            proof {
                lemma_nodes_view(values@);
            }
            if id.is_none() && values.len() == 1 {
                match &values[0] {
                    Node::Ref(s) => {
                        assert(nodes_view(values@)[0] == values@[0]@);
                        return Node::Ref(s.clone());
                    },
                    Node::Link { .. } => {
                        assert(nodes_view(values@)[0] == values@[0]@);
                    },
                }
            }
            assert(decreases_to!(node@ => node@->values));
            let new_values = read_values(values);
            let new_id = match id {
                Some(s) => Some(s.clone()),
                None => None,
            };
            Node::Link { id: new_id, values: new_values }
        },
    }
}

/// Reads a Links Notation document as [`parse_lino`] does, and gives a
/// rejection together with its text.
pub(crate) fn parse_lino_with_text(document: &str) -> (r: Result<Node, (ParseError, String)>)
    ensures
        r matches Ok(node) ==> lino_document(document@) == Some(node@),
        r is Err <==> lino_document(document@) is None,
        r matches Err((_, text)) ==> text@ == lino_error_text(document@),
{
    match read_lino(document) {
        Ok(raw) => match &raw {
            Node::Ref(_) => Ok(raw),
            Node::Link { id, values } => {
                let new_values = read_values(values);
                let new_id = match id {
                    Some(s) => Some(s.clone()),
                    None => None,
                };
                Ok(Node::Link { id: new_id, values: new_values })
            },
        },
        Err(failure) => Err(failure),
    }
}

/// Reads a Links Notation document.
///
/// The text is parsed by `links_notation::parse_lino`; each top-level link
/// of the result is then read with [`reading`]: the parser returns `(flower)`
/// as a link holding `flower`, which is read as the reference `flower`, and
/// `((flower))` as a link holding that link, which is read as the link
/// `(flower)`.
pub fn parse_lino(document: &str) -> (r: Result<Node, ParseError>)
    ensures
        r matches Ok(node) ==> lino_document(document@) == Some(node@),
        r is Err <==> lino_document(document@) is None,
{
    match parse_lino_with_text(document) {
        Ok(node) => Ok(node),
        Err((error, _)) => Err(error),
    }
}

/// Writes a node with the `Display` implementation of `links_notation::LiNo`.
///
/// Trusted: the text is a function of the node alone, named [`lino_text`].
#[verifier::external_body]
pub fn lino_display(node: &Node) -> (r: String)
    ensures
        r@ == lino_text(node@),
{
    lino_from_node(node).to_string()
}

} // verus!
