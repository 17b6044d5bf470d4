use check_markdown::links::Link;
use check_markdown::links::LinkType;
use check_markdown::links::collect_links;
use check_markdown::links::finish_link_validation;
use check_markdown::links::line_column;
use check_markdown::links::relative_link_targets;
use check_markdown::links::resolve_link_url;
use check_markdown::links::validate_external_links;
use check_markdown::links::validate_links;
use check_markdown::node::MdNode;
use check_markdown::node::NodeKind;
use check_markdown::stats::gather_document_statistics;
use check_markdown::toc::find_heading_ids;

fn text_node(s: &str, offset: usize) -> MdNode {
    MdNode { kind: NodeKind::Text { content: s.to_string() }, offset, children: vec![] }
}

fn heading(level: u32, text: &str, offset: usize) -> MdNode {
    MdNode {
        kind: NodeKind::Heading { level },
        offset,
        children: vec![text_node(text, offset)],
    }
}

fn link(url: &str, offset: usize) -> MdNode {
    MdNode { kind: NodeKind::Link { url: url.to_string() }, offset, children: vec![] }
}

fn doc(children: Vec<MdNode>) -> MdNode {
    MdNode { kind: NodeKind::Other, offset: 0, children }
}

fn base() -> String {
    "https://example.com/docs/README.md".to_string()
}

#[test]
fn line_column_counts_newlines() {
    let source = b"ab\ncd\n\nef".to_vec();
    assert_eq!(line_column(&source, 0), (1, 1));
    assert_eq!(line_column(&source, 1), (1, 2));
    assert_eq!(line_column(&source, 3), (2, 1));
    assert_eq!(line_column(&source, 4), (2, 2));
    assert_eq!(line_column(&source, 6), (3, 1));
    assert_eq!(line_column(&source, 7), (4, 1));
    assert_eq!(line_column(&source, 9), (4, 3));
}

#[test]
fn resolve_joins_relative_links_against_base() {
    let resolved = resolve_link_url(&"./other.md".to_string(), &base());
    assert_eq!(resolved, "https://example.com/docs/other.md");
    let parent = resolve_link_url(&"../up.md".to_string(), &base());
    assert_eq!(parent, "https://example.com/up.md");
    let unchanged = resolve_link_url(&"https://example.net/x".to_string(), &base());
    assert_eq!(unchanged, "https://example.net/x");
}

#[test]
fn resolve_keeps_target_when_base_is_invalid() {
    let resolved = resolve_link_url(&"./other.md".to_string(), &"not a base".to_string());
    assert_eq!(resolved, "./other.md");
}

#[test]
fn collect_links_classifies_and_positions() {
    let source = b"see [x](#intro)\nand [y](./sub.md) plus [z](https://example.net/)".to_vec();
    let root = doc(vec![
        link("#intro", 4),
        link("./sub.md", 20),
        link("https://example.net/", 39),
    ]);
    let links = collect_links(&root, &source, &base());
    assert_eq!(links.len(), 3);
    assert_eq!(links[0].link_type, LinkType::InternalAnchor);
    assert_eq!((links[0].line, links[0].column), (1, 5));
    assert_eq!(links[1].link_type, LinkType::RelativePath);
    assert_eq!((links[1].line, links[1].column), (2, 5));
    assert_eq!(links[1].resolved_url, "https://example.com/docs/sub.md");
    assert_eq!(links[2].link_type, LinkType::ExternalUrl);
    assert_eq!(links[2].resolved_url, "https://example.net/");
}

#[test]
fn missing_internal_anchor_yields_one_error_with_position() {
    let source = b"see [x](#missing)".to_vec();
    let root = doc(vec![link("#missing", 4)]);
    let links = collect_links(&root, &source, &base());
    let ids: Vec<String> = Vec::new();
    let flags: Vec<bool> = Vec::new();
    let (errors, worklist) = validate_links(&links, &ids, &flags);
    assert_eq!(worklist.len(), 0);
    assert_eq!(errors.len(), 1);
    assert_eq!(
        errors[0],
        "internal link '#missing' points to a non-existing heading at line 1, column 5"
    );
}

#[test]
fn present_internal_anchor_round_trips_without_error() {
    let source = b"# Intro\nsee [x](#intro)".to_vec();
    let root = doc(vec![heading(1, "Intro", 0), link("#intro", 12)]);
    let ids = find_heading_ids(&root);
    assert_eq!(ids, vec!["intro".to_string()]);
    let links = collect_links(&root, &source, &base());
    let flags: Vec<bool> = Vec::new();
    let (errors, worklist) = validate_links(&links, &ids, &flags);
    assert_eq!(errors.len(), 0);
    assert_eq!(worklist.len(), 0);
}

#[test]
fn malformed_external_url_yields_one_error() {
    let source = b"[bad](http://not a url)".to_vec();
    let root = doc(vec![link("http://not a url", 0)]);
    let links = collect_links(&root, &source, &base());
    assert_eq!(links[0].link_type, LinkType::ExternalUrl);
    let ids: Vec<String> = Vec::new();
    let flags: Vec<bool> = Vec::new();
    let (errors, worklist) = validate_links(&links, &ids, &flags);
    assert_eq!(worklist.len(), 0);
    assert_eq!(errors.len(), 1);
    assert_eq!(
        errors[0],
        "external link 'http://not a url' has an invalid URL format at line 1, column 1"
    );
}

#[test]
fn valid_external_url_is_queued_and_unreachable_is_reported() {
    let source = b"[ok](https://example.invalid/x)".to_vec();
    let root = doc(vec![link("https://example.invalid/x", 0)]);
    let links = collect_links(&root, &source, &base());
    let ids: Vec<String> = Vec::new();
    let flags: Vec<bool> = Vec::new();
    let (errors, worklist) = validate_links(&links, &ids, &flags);
    assert_eq!(errors.len(), 0);
    assert_eq!(worklist, vec!["https://example.invalid/x".to_string()]);
    let unreachable = validate_external_links(&worklist, &vec![false]);
    assert_eq!(unreachable.len(), 1);
    assert_eq!(unreachable[0], "external link 'https://example.invalid/x' is not reachable");
    let reachable = validate_external_links(&worklist, &vec![true]);
    assert_eq!(reachable.len(), 0);
}

#[test]
fn directory_link_is_valid_without_syntax_check() {
    let source = b"[dir](./sub)".to_vec();
    let root = doc(vec![link("./sub", 0)]);
    let links = collect_links(&root, &source, &base());
    let targets = relative_link_targets(&links);
    assert_eq!(targets, vec!["https://example.com/docs/sub".to_string()]);
    let ids: Vec<String> = Vec::new();
    let (errors, _) = validate_links(&links, &ids, &vec![true]);
    assert_eq!(errors.len(), 0);
}

#[test]
fn unresolved_relative_link_is_malformed_when_not_a_directory() {
    let source = b"[rel](./sub)".to_vec();
    let root = doc(vec![link("./sub", 0)]);
    // An invalid base leaves the target as written; "./sub" is no URL.
    let links = collect_links(&root, &source, &"no scheme".to_string());
    let ids: Vec<String> = Vec::new();
    let (errors, _) = validate_links(&links, &ids, &vec![false]);
    assert_eq!(errors.len(), 1);
    assert_eq!(errors[0], "external link './sub' has an invalid URL format at line 1, column 1");
}

#[test]
fn finish_combines_error_lists() {
    let ok = finish_link_validation(Vec::new(), Vec::new());
    assert!(matches!(ok, Ok(())));
    let err = finish_link_validation(vec!["a".to_string()], vec!["b".to_string()]);
    assert_eq!(err.err().expect("expected errors"), vec!["a".to_string(), "b".to_string()]);
}

#[test]
fn statistics_count_headings_words_and_links() {
    let root = doc(vec![
        heading(1, "Hi there", 0),
        text_node("one two  three", 10),
        MdNode {
            kind: NodeKind::Link { url: "https://example.net/".to_string() },
            offset: 30,
            children: vec![text_node("click", 31)],
        },
    ]);
    let stats = gather_document_statistics(&root);
    assert_eq!(stats.headings, 1);
    assert_eq!(stats.words, 6);
    assert_eq!(stats.links, 1);
}

#[test]
fn statistics_of_empty_document_are_zero() {
    let stats = gather_document_statistics(&doc(vec![]));
    assert_eq!(stats.headings, 0);
    assert_eq!(stats.words, 0);
    assert_eq!(stats.links, 0);
}

#[test]
fn link_records_keep_raw_and_resolved_targets() {
    let l = Link {
        raw_url: "./a.md".to_string(),
        resolved_url: "https://example.com/docs/a.md".to_string(),
        link_type: LinkType::RelativePath,
        line: 3,
        column: 7,
    };
    assert_eq!(l.raw_url, "./a.md");
    assert_eq!(l.resolved_url, "https://example.com/docs/a.md");
}
