use lino_transformer::format::join_lines;
use lino_transformer::model::Node;
use lino_transformer::{canonical, parse_lino};

fn parse(source: &str) -> Node {
    parse_lino(source).expect("valid lino")
}

#[test]
fn document_is_not_double_wrapped() {
    assert_eq!(canonical(&parse("(a before b)")), "(a before b)");
    assert_eq!(canonical(&parse("(pair a a)")), "(pair a a)");
}

#[test]
fn multiple_top_level_links_join_by_newline() {
    assert_eq!(canonical(&parse("(a b)\n(c d)")), "(a b)\n(c d)");
}

#[test]
fn is_deterministic() {
    let node = parse("(outer (inner a b) c)");
    assert_eq!(canonical(&node), canonical(&node));
}

#[test]
fn non_document_nodes_are_written_directly() {
    let node = Node::Link {
        id: Some("id".to_string()),
        values: vec![Node::Ref("a".to_string()), Node::Ref("b".to_string())],
    };
    assert_eq!(canonical(&node), "(id: a b)");
    assert_eq!(canonical(&Node::Ref("flower".to_string())), "flower");
    assert_eq!(canonical(&Node::Link { id: None, values: vec![] }), "");
}

#[test]
fn join_lines_separates_with_newlines() {
    assert_eq!(join_lines(&vec![]), "");
    assert_eq!(join_lines(&vec!["a".to_string()]), "a");
    assert_eq!(join_lines(&vec!["a".to_string(), "b".to_string(), "".to_string()]), "a\nb\n");
}

#[test]
fn equivalent_formatting_reads_the_same() {
    assert_eq!(parse("(  a   before   b )"), parse("(a before b)"));
}

#[test]
fn a_parenthesized_single_reference_is_that_reference() {
    let flower = Node::Link {
        id: None,
        values: vec![Node::Ref("flower".to_string())],
    };
    assert_eq!(parse("(flower)"), flower);
    assert_eq!(parse("flower"), flower);
    assert_eq!(canonical(&parse("(flower)")), "flower");
    match parse("(wrap (inner))") {
        Node::Link { values, .. } => match &values[0] {
            Node::Link { id: None, values } => {
                assert_eq!(values, &vec![Node::Ref("wrap".to_string()), Node::Ref("inner".to_string())]);
            }
            other => panic!("unexpected {:?}", other),
        },
        other => panic!("unexpected {:?}", other),
    }
    match parse("(name: value)") {
        Node::Link { values, .. } => match &values[0] {
            Node::Link { id: Some(id), values } => {
                assert_eq!(id, "name");
                assert_eq!(values, &vec![Node::Ref("value".to_string())]);
            }
            other => panic!("unexpected {:?}", other),
        },
        other => panic!("unexpected {:?}", other),
    }
}

#[test]
fn only_the_innermost_single_reference_group_is_read_as_the_reference() {
    assert_eq!(canonical(&parse("(a ((x)))")), "(a (x))");
    assert_eq!(canonical(&parse("(a (x))")), "(a x)");
    assert_eq!(canonical(&parse("((flower))")), "(flower)");
}
