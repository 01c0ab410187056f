use dotini::{reduce_nodes, InIParseError, Ini, Node, NodeKind};

fn section_node(name: &str) -> Node {
    Node { kind: NodeKind::Section, caps: vec![name.to_string()] }
}

fn property_node(key: &str, value: &str) -> Node {
    Node { kind: NodeKind::Property, caps: vec![key.to_string(), value.to_string()] }
}

#[test]
fn reduce_builds_mapping_from_nodes() {
    let nodes = vec![
        section_node("s"),
        property_node("a", "1"),
        Node { kind: NodeKind::Eoi, caps: vec![] },
    ];
    let map = reduce_nodes(&nodes).unwrap();
    assert_eq!(map.get("s", "a").unwrap().as_str(), "1");
}

#[test]
fn reduce_files_leading_properties_under_untagged() {
    let nodes = vec![property_node("a", "1"), section_node("s"), property_node("b", "2")];
    let map = reduce_nodes(&nodes).unwrap();
    assert_eq!(map.get("untagged", "a").unwrap().as_str(), "1");
    assert_eq!(map.get("s", "b").unwrap().as_str(), "2");
}

#[test]
fn section_node_without_capture_is_finished_error() {
    let nodes = vec![Node { kind: NodeKind::Section, caps: vec![] }];
    let r = reduce_nodes(&nodes);
    assert!(matches!(r, Err(InIParseError::Finished)));
}

#[test]
fn property_node_with_one_capture_is_finished_error() {
    let nodes = vec![Node { kind: NodeKind::Property, caps: vec!["a".to_string()] }];
    let r = reduce_nodes(&nodes);
    assert!(matches!(r, Err(InIParseError::Finished)));
}

#[test]
fn comment_node_is_unreachable_error() {
    let nodes = vec![Node { kind: NodeKind::Comment, caps: vec![] }];
    let r = reduce_nodes(&nodes);
    assert!(matches!(r, Err(InIParseError::Unreachable)));
}

#[test]
fn tokenizer_emits_nodes_in_document_order() {
    let nodes = Ini::tokenize("a = 1\n[s]\n; note\nb = 2\n").unwrap();
    let kinds: Vec<NodeKind> = nodes.iter().map(|n| n.kind).collect();
    assert_eq!(
        kinds,
        vec![NodeKind::Property, NodeKind::Section, NodeKind::Property, NodeKind::Eoi]
    );
    assert_eq!(nodes[0].caps, vec!["a".to_string(), "1".to_string()]);
    assert_eq!(nodes[1].caps, vec!["s".to_string()]);
    assert_eq!(nodes[2].caps, vec!["b".to_string(), "2".to_string()]);
}

#[test]
fn tokenizer_rejects_malformed_line() {
    let r = Ini::tokenize("[broken\n");
    assert!(matches!(r, Err(InIParseError::UnsuccessfulParse(_))));
}
