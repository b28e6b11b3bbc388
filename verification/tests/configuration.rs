use mdgraph::config::{AppConfig, AppState, CliArgs, PreviewerConfig};
use mdgraph::cache::GraphCache;
use mdgraph::graph::build_graph;
use mdgraph::scanner::MarkdownFile;
use mdgraph::helpers::{replace_variables, replace_variables_with, skip_lines};

fn file(name: &str, path: &str, content: &str) -> MarkdownFile {
    MarkdownFile { path: path.to_string(), content: content.to_string(), name: name.to_string() }
}

#[test]
fn merge_prefers_overrides() {
    let base = AppConfig {
        root_dir: Some("/from/file".to_string()),
        template_phantom_node: Some("/tpl.md".to_string()),
        previewer: PreviewerConfig { offset: 4 },
    };
    let over = AppConfig {
        root_dir: Some("/from/cli".to_string()),
        template_phantom_node: None,
        previewer: PreviewerConfig { offset: 9 },
    };
    let merged = AppConfig::merge(base, over);
    assert_eq!(merged.root_dir, Some("/from/cli".to_string()));
    assert_eq!(merged.template_phantom_node, Some("/tpl.md".to_string()));
    assert_eq!(merged.previewer.offset, 4, "preview settings come from the file");
}

#[test]
fn from_cli_copies_overrides() {
    let args = CliArgs {
        config: Some("/conf.json".to_string()),
        root_dir: Some("/notes".to_string()),
        template_phantom_node: None,
    };
    let c = AppConfig::from_cli(&args);
    assert_eq!(c.root_dir, Some("/notes".to_string()));
    assert_eq!(c.template_phantom_node, None);
    assert_eq!(c.previewer.offset, 0);
}

#[test]
fn default_config_is_empty() {
    let c = AppConfig::default();
    assert_eq!(c.root_dir, None);
    assert_eq!(c.template_phantom_node, None);
    assert_eq!(c.previewer.offset, 0);
}

#[test]
fn app_state_round_trip() {
    let c = AppConfig {
        root_dir: Some("/r".to_string()),
        template_phantom_node: None,
        previewer: PreviewerConfig { offset: 2 },
    };
    let mut state = AppState::new(c);
    let got = state.get_config();
    assert_eq!(got.root_dir, Some("/r".to_string()));
    assert_eq!(got.previewer.offset, 2);
    let c2 = AppConfig {
        root_dir: Some("/other".to_string()),
        template_phantom_node: Some("/t.md".to_string()),
        previewer: PreviewerConfig { offset: 0 },
    };
    state.update_config(c2);
    assert_eq!(state.get_config().root_dir, Some("/other".to_string()));
}

#[test]
fn app_state_with_prebuilt_cache() {
    let files = vec![file("A", "/n/A.md", "[[B]]")];
    let cache = GraphCache::from_graph_data(&build_graph(files.clone()), &files);
    let state = AppState::with_cache(AppConfig::default(), cache);
    assert!(state.graph_cache.node_exists("A"));
    assert!(state.graph_cache.is_phantom("B"));
}

#[test]
fn replace_both_placeholders() {
    let out = replace_variables_with("Date: {{date}}, Week: {{week}}", "2025-11-25", "47");
    assert_eq!(out, "Date: 2025-11-25, Week: 47");
}

#[test]
fn replace_repeats_and_leaves_unknown_placeholders() {
    let out = replace_variables_with("{{date}}{{date}} {{title}}", "d", "w");
    assert_eq!(out, "dd {{title}}");
}

#[test]
fn replace_variables_substitutes_something() {
    let out = replace_variables("today: {{date}} (week {{week}})");
    assert!(!out.contains("{{date}}"));
    assert!(!out.contains("{{week}}"));
    assert!(out.starts_with("today: "));
}

#[test]
fn skip_lines_drops_leading_lines() {
    assert_eq!(skip_lines("a\nb\nc", 0), "a\nb\nc");
    assert_eq!(skip_lines("a\nb\nc", 1), "b\nc");
    assert_eq!(skip_lines("a\nb\nc", 2), "c");
    assert_eq!(skip_lines("a\nb\nc", 3), "");
    assert_eq!(skip_lines("a\nb\nc", 9), "");
}

#[test]
fn cache_operations() {
    let files = vec![
        file("A", "/n/A.md", "[[B]] [[B]] #x"),
        file("B", "/n/B.md", "[[C]]"),
    ];
    let mut cache = GraphCache::from_graph_data(&build_graph(files.clone()), &files);
    assert!(cache.node_exists("A"));
    assert!(!cache.node_exists("C"));
    assert!(cache.is_phantom("C"));
    assert_eq!(cache.count_incoming_links("B"), 2, "duplicates count with multiplicity");
    assert_eq!(cache.get_links("A"), vec!["B".to_string(), "B".to_string()]);
    assert!(cache.get_links("missing").is_empty());
    assert_eq!(cache.get_all_file_names(), vec!["A".to_string(), "B".to_string()]);
    assert!(cache.has_file_by_path("/n/A.md"));
    assert!(!cache.has_file_by_path("/n/Z.md"));
    assert!(!cache.has_file_by_path("/n/"));
    assert_eq!(cache.total_link_count(), 3);

    cache.update_links("A", &vec!["C".to_string()]);
    assert_eq!(cache.get_links("A"), vec!["C".to_string()]);
    assert_eq!(cache.count_incoming_links("C"), 2);

    cache.update_hashtags("A", &vec!["y".to_string()]);

    cache.add_phantom("Z");
    assert!(cache.is_phantom("Z"));
    cache.add_phantom("Z");
    assert!(cache.is_phantom("Z"));
    cache.remove_phantom("Z");
    assert!(!cache.is_phantom("Z"));

    cache.remove_file("B");
    assert!(!cache.node_exists("B"));
    assert_eq!(cache.get_all_file_names(), vec!["A".to_string()]);
    assert_eq!(cache.count_incoming_links("C"), 1);

    cache.add_file("B", "/n/B.md", &vec!["A".to_string()], &Vec::new());
    assert!(cache.node_exists("B"));
    assert_eq!(cache.count_incoming_links("A"), 1);
}

#[test]
fn empty_cache() {
    let cache = GraphCache::new();
    assert!(!cache.node_exists("A"));
    assert!(!cache.is_phantom("A"));
    assert_eq!(cache.count_incoming_links("A"), 0);
    assert!(cache.get_all_file_names().is_empty());
    assert_eq!(cache.total_link_count(), 0);
}
