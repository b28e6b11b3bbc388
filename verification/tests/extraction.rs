use mdgraph::parser::{parse_markdown, extract_wiki_links, extract_hashtags};
use mdgraph::scanner::stem_of_path;
use mdgraph::watch::{is_markdown_path, classify_event, FileEventKind};

#[test]
fn single_wiki_link() {
    let links = extract_wiki_links("see [[B]]");
    assert_eq!(links, vec!["B".to_string()]);
}

#[test]
fn wiki_links_keep_order_and_duplicates() {
    let links = extract_wiki_links("[[a]] then [[b]] and [[a]] again");
    assert_eq!(links, vec!["a".to_string(), "b".to_string(), "a".to_string()]);
}

#[test]
fn wiki_link_with_spaces_and_dashes() {
    let links = extract_wiki_links("x [[multi word text]] y [[text-with-dashes]]");
    assert_eq!(
        links,
        vec!["multi word text".to_string(), "text-with-dashes".to_string()]
    );
}

#[test]
fn unbalanced_brackets_do_not_match() {
    assert!(extract_wiki_links("[single bracket]").is_empty());
    assert!(extract_wiki_links("[[a]b]]").is_empty());
    assert!(extract_wiki_links("[[]]").is_empty());
    assert!(extract_wiki_links("[[open").is_empty());
}

#[test]
fn extra_brackets_around_link() {
    assert_eq!(extract_wiki_links("[[x]]]"), vec!["x".to_string()]);
    assert_eq!(extract_wiki_links("[[[x]]"), vec!["[x".to_string()]);
}

#[test]
fn hashtags_basic() {
    let tags = extract_hashtags("intro #tag1 mid #tag_2 end x#y");
    assert_eq!(
        tags,
        vec!["tag1".to_string(), "tag_2".to_string(), "y".to_string()]
    );
}

#[test]
fn hashtag_stops_at_dash_and_space() {
    assert_eq!(extract_hashtags("#tag-with-dashes"), vec!["tag".to_string()]);
    assert!(extract_hashtags("# tag").is_empty());
    assert_eq!(extract_hashtags("##double"), vec!["double".to_string()]);
}

#[test]
fn parse_markdown_combines_both() {
    let p = parse_markdown("# Title\n\nSome [[link]] with #tag");
    assert_eq!(p.wiki_links, vec!["link".to_string()]);
    assert_eq!(p.hashtags, vec!["tag".to_string()]);
}

#[test]
fn stem_of_plain_file() {
    assert_eq!(stem_of_path("note.md"), Some("note".to_string()));
    assert_eq!(stem_of_path("/a/b/C.md"), Some("C".to_string()));
}

#[test]
fn stem_keeps_leading_dot_and_inner_dots() {
    assert_eq!(stem_of_path(".md"), Some(".md".to_string()));
    assert_eq!(stem_of_path("a.b.md"), Some("a.b".to_string()));
    assert_eq!(stem_of_path("dir/archive.tar.gz"), Some("archive.tar".to_string()));
}

#[test]
fn stem_of_empty_component_is_none() {
    assert_eq!(stem_of_path(""), None);
    assert_eq!(stem_of_path("dir/"), None);
}

#[test]
fn markdown_path_detection() {
    assert!(is_markdown_path("x.md"));
    assert!(is_markdown_path("/notes/a.b.md"));
    assert!(!is_markdown_path(".md"));
    assert!(!is_markdown_path("a/.md"));
    assert!(!is_markdown_path("a/b.txt"));
    assert!(!is_markdown_path("amd"));
}

#[test]
fn classify_all_cases() {
    assert_eq!(classify_event(false, false), FileEventKind::Deleted);
    assert_eq!(classify_event(false, true), FileEventKind::Deleted);
    assert_eq!(classify_event(true, true), FileEventKind::Modified);
    assert_eq!(classify_event(true, false), FileEventKind::Created);
}
