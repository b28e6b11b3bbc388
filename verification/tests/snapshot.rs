use mdgraph::graph::{build_graph, GraphData, Node, Edge};
use mdgraph::scanner::MarkdownFile;

fn file(name: &str, path: &str, content: &str) -> MarkdownFile {
    MarkdownFile { path: path.to_string(), content: content.to_string(), name: name.to_string() }
}

#[test]
fn initial_scan_with_one_phantom() {
    // A.md holds `see [[B]]`; there is no B.md.
    let g = build_graph(vec![file("A", "/notes/A.md", "see [[B]]")]);
    assert_eq!(g.nodes.len(), 2);
    let a = &g.nodes[0];
    assert_eq!(a.id, "A");
    assert_eq!(a.label, "A");
    assert_eq!(a.value, 0);
    assert_eq!(a.group, None);
    assert_eq!(a.file_path, "/notes/A.md");
    assert!(a.hashtags.is_empty());
    let b = &g.nodes[1];
    assert_eq!(b.id, "B");
    assert_eq!(b.value, 1);
    assert_eq!(b.group, Some("phantom".to_string()));
    assert_eq!(b.file_path, "");
    assert!(b.hashtags.is_empty());
    assert_eq!(g.edges, vec![Edge { from: "A".to_string(), to: "B".to_string() }]);
}

#[test]
fn duplicate_references_count_twice() {
    let g = build_graph(vec![
        file("A", "/n/A.md", "[[B]] and [[B]]"),
        file("B", "/n/B.md", "nothing"),
    ]);
    assert_eq!(g.nodes.len(), 2);
    assert_eq!(g.nodes[1].id, "B");
    assert_eq!(g.nodes[1].value, 2);
    assert_eq!(g.nodes[1].group, None);
    assert_eq!(g.edges.len(), 2);
    assert_eq!(g.edges[0], Edge { from: "A".to_string(), to: "B".to_string() });
    assert_eq!(g.edges[1], Edge { from: "A".to_string(), to: "B".to_string() });
}

#[test]
fn every_edge_endpoint_has_exactly_one_node() {
    let g = build_graph(vec![
        file("A", "/n/A.md", "[[B]] [[C]] [[A]]"),
        file("B", "/n/B.md", "[[C]] [[A]]"),
    ]);
    // C is referenced twice but materializes as one phantom node.
    let ids: Vec<&str> = g.nodes.iter().map(|n| n.id.as_str()).collect();
    assert_eq!(ids, vec!["A", "B", "C"]);
    for e in &g.edges {
        assert_eq!(g.nodes.iter().filter(|n| n.id == e.from).count(), 1);
        assert_eq!(g.nodes.iter().filter(|n| n.id == e.to).count(), 1);
    }
}

#[test]
fn node_values_match_incoming_edge_counts() {
    let g = build_graph(vec![
        file("A", "/n/A.md", "[[B]] [[C]] [[B]]"),
        file("B", "/n/B.md", "[[A]]"),
    ]);
    for n in &g.nodes {
        let incoming = g.edges.iter().filter(|e| e.to == n.id).count();
        assert_eq!(n.value, incoming, "value of {}", n.id);
    }
}

#[test]
fn real_nodes_carry_hashtags() {
    let g = build_graph(vec![file("A", "/n/A.md", "#alpha text #beta_2")]);
    assert_eq!(g.nodes[0].hashtags, vec!["alpha".to_string(), "beta_2".to_string()]);
}

#[test]
fn empty_input_gives_empty_graph() {
    let g = build_graph(Vec::new());
    assert!(g.nodes.is_empty());
    assert!(g.edges.is_empty());
}

#[test]
fn graph_data_new_is_empty() {
    let g = GraphData::new();
    assert!(g.nodes.is_empty());
    assert!(g.edges.is_empty());
}

#[test]
fn phantom_node_constructor() {
    let n = Node::phantom("X");
    assert_eq!(n.id, "X");
    assert_eq!(n.label, "X");
    assert_eq!(n.value, 1);
    assert_eq!(n.group, Some("phantom".to_string()));
    assert_eq!(n.file_path, "");
    assert!(n.hashtags.is_empty());
}
