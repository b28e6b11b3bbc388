use mdgraph::graph::build_graph;
use mdgraph::scanner::MarkdownFile;
use mdgraph::cache::GraphCache;
use mdgraph::delta::{handle_file_created, handle_file_modified, handle_file_deleted, GraphDelta};
use mdgraph::events::{emit_delta, GraphDeltaEvent};
use mdgraph::parser::parse_markdown;

fn file(name: &str, path: &str, content: &str) -> MarkdownFile {
    MarkdownFile { path: path.to_string(), content: content.to_string(), name: name.to_string() }
}

fn scan(files: Vec<MarkdownFile>) -> GraphCache {
    let g = build_graph(files.clone());
    GraphCache::from_graph_data(&g, &files)
}

#[test]
fn create_fills_a_phantom() {
    // After the initial scan of A.md (`see [[B]]`), B.md appears with no
    // references.
    let mut cache = scan(vec![file("A", "/n/A.md", "see [[B]]")]);
    assert!(cache.is_phantom("B"));
    let delta = handle_file_created("/n/B.md", &Vec::new(), &Vec::new(), &mut cache).unwrap();
    assert_eq!(delta.nodes_removed, vec!["B".to_string()]);
    assert_eq!(delta.nodes_added.len(), 1);
    let b = &delta.nodes_added[0];
    assert_eq!(b.id, "B");
    assert_eq!(b.value, 1);
    assert_eq!(b.group, None);
    assert!(delta.edges_added.is_empty());
    assert!(delta.edges_removed.is_empty());
    assert!(delta.nodes_updated.is_empty());
    assert!(!cache.is_phantom("B"));
    assert!(cache.node_exists("B"));
}

#[test]
fn delete_with_remaining_reference_turns_phantom() {
    // A.md references [[B]]; B.md exists. Delete B.md.
    let mut cache = scan(vec![
        file("A", "/n/A.md", "[[B]]"),
        file("B", "/n/B.md", "plain"),
    ]);
    let delta = handle_file_deleted("/n/B.md", &mut cache).unwrap();
    assert!(delta.edges_removed.is_empty());
    assert_eq!(delta.nodes_removed, vec!["B".to_string()]);
    assert_eq!(delta.nodes_added.len(), 1);
    let b = &delta.nodes_added[0];
    assert_eq!(b.id, "B");
    assert_eq!(b.value, 1);
    assert_eq!(b.group, Some("phantom".to_string()));
    assert!(cache.is_phantom("B"));
    assert!(!cache.node_exists("B"));
}

#[test]
fn modify_drops_last_reference_to_phantom() {
    // A.md holds [[C]] and C.md does not exist; the edit removes the
    // reference.
    let mut cache = scan(vec![file("A", "/n/A.md", "[[C]]")]);
    assert!(cache.is_phantom("C"));
    let new_links = parse_markdown("no references left").wiki_links;
    let delta = handle_file_modified("/n/A.md", &new_links, &mut cache).unwrap();
    assert_eq!(delta.edges_removed.len(), 1);
    assert_eq!(delta.edges_removed[0].from, "A");
    assert_eq!(delta.edges_removed[0].to, "C");
    assert_eq!(delta.nodes_removed, vec!["C".to_string()]);
    assert!(delta.nodes_added.is_empty());
    assert!(delta.edges_added.is_empty());
    assert!(!cache.is_phantom("C"));
}

#[test]
fn delete_without_references_removes_node_only() {
    let mut cache = scan(vec![file("A", "/n/A.md", "no links")]);
    let delta = handle_file_deleted("/n/A.md", &mut cache).unwrap();
    assert_eq!(delta.nodes_removed, vec!["A".to_string()]);
    assert!(delta.nodes_added.is_empty());
    assert!(delta.edges_removed.is_empty());
    assert!(!cache.node_exists("A"));
    assert!(!cache.is_phantom("A"));
}

#[test]
fn create_adds_edges_and_phantoms() {
    let mut cache = scan(vec![file("A", "/n/A.md", "plain")]);
    let parsed = parse_markdown("[[A]] [[X]] [[X]]");
    let delta = handle_file_created("/n/B.md", &parsed.wiki_links, &parsed.hashtags, &mut cache)
        .unwrap();
    assert!(delta.nodes_removed.is_empty());
    // the real node B, then one phantom for X (its first occurrence only)
    assert_eq!(delta.nodes_added.len(), 2);
    assert_eq!(delta.nodes_added[0].id, "B");
    assert_eq!(delta.nodes_added[0].value, 0);
    assert_eq!(delta.nodes_added[1].id, "X");
    assert_eq!(delta.nodes_added[1].group, Some("phantom".to_string()));
    assert_eq!(delta.edges_added.len(), 3);
    assert_eq!(delta.edges_added[0].to, "A");
    assert_eq!(delta.edges_added[1].to, "X");
    assert_eq!(delta.edges_added[2].to, "X");
    assert!(cache.is_phantom("X"));
    assert!(!cache.is_phantom("A"));
}

#[test]
fn modify_with_same_reference_set_is_empty() {
    let mut cache = scan(vec![file("A", "/n/A.md", "[[B]] text")]);
    let new_links = parse_markdown("[[B]] other words").wiki_links;
    let delta = handle_file_modified("/n/A.md", &new_links, &mut cache).unwrap();
    assert!(delta.is_empty());
}

#[test]
fn modify_swaps_a_reference() {
    let mut cache = scan(vec![
        file("A", "/n/A.md", "[[B]]"),
        file("B", "/n/B.md", "x"),
    ]);
    let new_links = parse_markdown("[[C]]").wiki_links;
    let delta = handle_file_modified("/n/A.md", &new_links, &mut cache).unwrap();
    assert_eq!(delta.edges_removed.len(), 1);
    assert_eq!(delta.edges_removed[0].to, "B");
    assert!(delta.nodes_removed.is_empty(), "B is a real document, not a phantom");
    assert_eq!(delta.edges_added.len(), 1);
    assert_eq!(delta.edges_added[0].to, "C");
    assert_eq!(delta.nodes_added.len(), 1);
    assert_eq!(delta.nodes_added[0].id, "C");
    assert!(cache.is_phantom("C"));
}

#[test]
fn handlers_reject_paths_without_a_stem() {
    let mut cache = GraphCache::new();
    assert!(handle_file_created("dir/", &Vec::new(), &Vec::new(), &mut cache).is_err());
    assert!(handle_file_deleted("", &mut cache).is_err());
    assert!(!cache.node_exists(""));
}

#[test]
fn empty_delta_reports_empty() {
    let d = GraphDelta::default();
    assert!(d.is_empty());
    let mut cache = scan(vec![file("A", "/n/A.md", "[[B]]")]);
    let delta = handle_file_deleted("/n/A.md", &mut cache).unwrap();
    assert!(!delta.is_empty());
}

#[test]
fn emitted_events_group_in_fixed_order() {
    // Delete A, which references the phantom C and is itself referenced by B:
    // the delta holds removed nodes, removed edges and an added phantom.
    let mut cache = scan(vec![
        file("A", "/n/A.md", "[[C]]"),
        file("B", "/n/B.md", "[[A]]"),
    ]);
    let delta = handle_file_deleted("/n/A.md", &mut cache).unwrap();
    let events = emit_delta(delta);
    let ranks: Vec<u32> = events
        .iter()
        .map(|e| match e {
            GraphDeltaEvent::NodeRemoved { .. } => 0,
            GraphDeltaEvent::EdgeRemoved { .. } => 1,
            GraphDeltaEvent::NodeAdded { .. } => 2,
            GraphDeltaEvent::NodeUpdated { .. } => 3,
            GraphDeltaEvent::EdgeAdded { .. } => 4,
        })
        .collect();
    let mut sorted = ranks.clone();
    sorted.sort();
    assert_eq!(ranks, sorted, "emission order must group by kind");
    assert_eq!(ranks, vec![0, 0, 1, 2]);
    assert!(matches!(&events[0], GraphDeltaEvent::NodeRemoved { node_id } if node_id == "C"));
    assert!(matches!(&events[1], GraphDeltaEvent::NodeRemoved { node_id } if node_id == "A"));
    assert!(matches!(&events[2], GraphDeltaEvent::EdgeRemoved { edge } if edge.to == "C"));
    assert!(matches!(&events[3], GraphDeltaEvent::NodeAdded { node } if node.id == "A"));
}

#[test]
fn emit_preserves_order_within_each_kind() {
    let mut cache = GraphCache::new();
    let parsed = parse_markdown("[[P]] [[Q]]");
    let delta = handle_file_created("/n/A.md", &parsed.wiki_links, &parsed.hashtags, &mut cache)
        .unwrap();
    let events = emit_delta(delta);
    // node A, phantom P, phantom Q, then edge A->P, edge A->Q
    assert_eq!(events.len(), 5);
    assert!(matches!(&events[0], GraphDeltaEvent::NodeAdded { node } if node.id == "A"));
    assert!(matches!(&events[1], GraphDeltaEvent::NodeAdded { node } if node.id == "P"));
    assert!(matches!(&events[2], GraphDeltaEvent::NodeAdded { node } if node.id == "Q"));
    assert!(matches!(&events[3], GraphDeltaEvent::EdgeAdded { edge } if edge.to == "P"));
    assert!(matches!(&events[4], GraphDeltaEvent::EdgeAdded { edge } if edge.to == "Q"));
}

#[test]
fn incremental_updates_match_a_rescan() {
    // Drive the index through create, modify and delete events, then compare
    // it with a fresh scan of the resulting document set.
    let mut cache = scan(vec![
        file("A", "/n/A.md", "[[B]] [[C]]"),
        file("B", "/n/B.md", "[[A]]"),
    ]);
    let p1 = parse_markdown("[[A]] #new");
    handle_file_created("/n/D.md", &p1.wiki_links, &p1.hashtags, &mut cache).unwrap();
    let p2 = parse_markdown("[[D]]");
    handle_file_modified("/n/B.md", &p2.wiki_links, &mut cache).unwrap();
    handle_file_deleted("/n/A.md", &mut cache).unwrap();

    let final_files = vec![
        file("B", "/n/B.md", "[[D]]"),
        file("D", "/n/D.md", "[[A]] #new"),
    ];
    let rescanned = GraphCache::from_graph_data(&build_graph(final_files.clone()), &final_files);

    let mut names = cache.get_all_file_names();
    names.sort();
    let mut rescanned_names = rescanned.get_all_file_names();
    rescanned_names.sort();
    assert_eq!(names, rescanned_names);
    for id in ["A", "B", "C", "D"] {
        assert_eq!(
            cache.count_incoming_links(id),
            rescanned.count_incoming_links(id),
            "incoming count of {}",
            id
        );
        assert_eq!(cache.is_phantom(id), rescanned.is_phantom(id), "phantom status of {}", id);
        assert_eq!(cache.node_exists(id), rescanned.node_exists(id), "document status of {}", id);
        assert_eq!(cache.get_links(id), rescanned.get_links(id), "links of {}", id);
    }
}

#[test]
fn phantom_survives_until_last_reference_goes() {
    // Both A and B reference the missing C; C must stay phantom while one
    // reference remains and vanish exactly when the count reaches zero.
    let mut cache = scan(vec![
        file("A", "/n/A.md", "[[C]]"),
        file("B", "/n/B.md", "[[C]]"),
    ]);
    assert!(cache.is_phantom("C"));
    assert_eq!(cache.count_incoming_links("C"), 2);

    let delta = handle_file_deleted("/n/A.md", &mut cache).unwrap();
    assert_eq!(delta.nodes_removed, vec!["A".to_string()]);
    assert!(cache.is_phantom("C"), "one reference remains");
    assert_eq!(cache.count_incoming_links("C"), 1);

    let delta = handle_file_deleted("/n/B.md", &mut cache).unwrap();
    assert_eq!(delta.nodes_removed, vec!["C".to_string(), "B".to_string()]);
    assert!(!cache.is_phantom("C"), "the count reached zero");
    assert_eq!(cache.count_incoming_links("C"), 0);
}

#[test]
fn create_self_reference_adds_no_phantom() {
    // A document referencing its own id ends the event as a real document;
    // the delta must not also add a phantom of that id.
    let mut cache = GraphCache::new();
    let parsed = parse_markdown("about [[A]] itself");
    let delta = handle_file_created("/n/A.md", &parsed.wiki_links, &parsed.hashtags, &mut cache)
        .unwrap();
    assert_eq!(delta.nodes_added.len(), 1);
    assert_eq!(delta.nodes_added[0].id, "A");
    assert_eq!(delta.nodes_added[0].group, None);
    assert_eq!(delta.edges_added.len(), 1);
    assert_eq!(delta.edges_added[0].from, "A");
    assert_eq!(delta.edges_added[0].to, "A");
    assert!(!cache.is_phantom("A"));
    assert!(cache.node_exists("A"));
}

#[test]
fn delete_self_referencing_document_leaves_nothing() {
    // A's only incoming reference is its own self-link; deleting A must not
    // re-add it as a phantom.
    let mut cache = scan(vec![file("A", "/n/A.md", "[[A]]")]);
    let delta = handle_file_deleted("/n/A.md", &mut cache).unwrap();
    assert_eq!(delta.edges_removed.len(), 1);
    assert_eq!(delta.nodes_removed, vec!["A".to_string()]);
    assert!(delta.nodes_added.is_empty());
    assert!(!cache.is_phantom("A"));
    assert!(!cache.node_exists("A"));
    assert!(cache.get_all_file_names().is_empty());
}

#[test]
fn create_then_delete_retires_duplicate_references() {
    // A references the missing X twice; deleting A takes both references
    // away, so X's phantom mark must go with them.
    let mut cache = GraphCache::new();
    let parsed = parse_markdown("[[X]] and [[X]]");
    handle_file_created("/n/A.md", &parsed.wiki_links, &parsed.hashtags, &mut cache).unwrap();
    assert!(cache.is_phantom("X"));
    assert_eq!(cache.count_incoming_links("X"), 2);
    let delta = handle_file_deleted("/n/A.md", &mut cache).unwrap();
    assert_eq!(delta.nodes_removed, vec!["X".to_string(), "A".to_string()]);
    assert!(delta.nodes_added.is_empty());
    assert!(!cache.is_phantom("X"));
    assert!(cache.get_all_file_names().is_empty());
    assert_eq!(cache.count_incoming_links("X"), 0);
}

#[test]
fn modify_retires_phantom_referenced_twice() {
    // A holds the same reference twice and nobody else references C; removing
    // it in an edit retires the phantom though its count was 2.
    let mut cache = scan(vec![file("A", "/n/A.md", "[[C]] [[C]]")]);
    assert!(cache.is_phantom("C"));
    assert_eq!(cache.count_incoming_links("C"), 2);
    let new_links = parse_markdown("no more").wiki_links;
    let delta = handle_file_modified("/n/A.md", &new_links, &mut cache).unwrap();
    assert_eq!(delta.nodes_removed, vec!["C".to_string()]);
    assert!(!cache.is_phantom("C"));
    assert_eq!(cache.count_incoming_links("C"), 0);
}

#[test]
fn deleted_document_phantom_carries_remaining_count() {
    // A references D twice and B once; after D.md goes, the re-added phantom
    // carries the remaining incoming count of 3.
    let mut cache = scan(vec![
        file("A", "/n/A.md", "[[D]] [[D]]"),
        file("B", "/n/B.md", "[[D]]"),
        file("D", "/n/D.md", "plain"),
    ]);
    let delta = handle_file_deleted("/n/D.md", &mut cache).unwrap();
    assert_eq!(delta.nodes_removed, vec!["D".to_string()]);
    assert_eq!(delta.nodes_added.len(), 1);
    assert_eq!(delta.nodes_added[0].id, "D");
    assert_eq!(delta.nodes_added[0].value, 3);
    assert_eq!(delta.nodes_added[0].group, Some("phantom".to_string()));
    assert!(cache.is_phantom("D"));
}
