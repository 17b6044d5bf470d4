use check_markdown::node::MdNode;
use check_markdown::node::NodeKind;
use check_markdown::toc::HeadingInfo;
use check_markdown::toc::collect_heading_info;
use check_markdown::toc::find_heading_ids;
use check_markdown::toc::generate_toc;
use check_markdown::toc::generate_unique_id;
use check_markdown::toc::slug;

fn text_node(s: &str, offset: usize) -> MdNode {
    MdNode { kind: NodeKind::Text { content: s.to_string() }, offset, children: vec![] }
}

fn heading(level: u32, text: &str, offset: usize) -> MdNode {
    MdNode {
        kind: NodeKind::Heading { level },
        offset,
        children: vec![text_node(text, offset)],
    }
}

fn doc(children: Vec<MdNode>) -> MdNode {
    MdNode { kind: NodeKind::Other, offset: 0, children }
}

#[test]
fn slug_lowercases_and_hyphenates() {
    assert_eq!(slug("AbC dEf"), "abc-def");
    assert_eq!(slug("Getting  Started"), "getting-started");
    assert_eq!(slug("plain"), "plain");
    assert_eq!(slug(""), "");
}

#[test]
fn unique_id_appends_smallest_free_counter() {
    let infos = vec![
        HeadingInfo { level: 1, id: "title".to_string(), text: "Title".to_string() },
        HeadingInfo { level: 2, id: "title-1".to_string(), text: "Title".to_string() },
    ];
    assert_eq!(generate_unique_id("Title", &infos), "title-2");
    assert_eq!(generate_unique_id("Other", &infos), "other");
}

#[test]
fn second_and_third_duplicates_get_suffixes() {
    let mut infos: Vec<HeadingInfo> = Vec::new();
    let first = generate_unique_id("Usage", &infos);
    assert_eq!(first, "usage");
    infos.push(HeadingInfo { level: 2, id: first, text: "Usage".to_string() });
    let second = generate_unique_id("Usage", &infos);
    assert_eq!(second, "usage-1");
    infos.push(HeadingInfo { level: 2, id: second, text: "Usage".to_string() });
    let third = generate_unique_id("Usage", &infos);
    assert_eq!(third, "usage-2");
}

#[test]
fn collects_heading_records_with_unique_ids() {
    // The document "# A\n## B\n## B\n### C".
    let root = doc(vec![
        heading(1, "A", 0),
        heading(2, "B", 4),
        heading(2, "B", 9),
        heading(3, "C", 15),
    ]);
    let infos = collect_heading_info(&root);
    assert_eq!(infos.len(), 4);
    assert_eq!((infos[0].level, infos[0].text.as_str(), infos[0].id.as_str()), (1, "A", "a"));
    assert_eq!((infos[1].level, infos[1].text.as_str(), infos[1].id.as_str()), (2, "B", "b"));
    assert_eq!((infos[2].level, infos[2].text.as_str(), infos[2].id.as_str()), (2, "B", "b-1"));
    assert_eq!((infos[3].level, infos[3].text.as_str(), infos[3].id.as_str()), (3, "C", "c"));
}

#[test]
fn collection_is_idempotent() {
    let root = doc(vec![
        heading(1, "A", 0),
        heading(2, "B", 4),
        heading(2, "B", 9),
        heading(3, "C", 15),
    ]);
    let once = collect_heading_info(&root);
    let twice = collect_heading_info(&root);
    assert_eq!(once, twice);
}

#[test]
fn heading_text_is_flattened_from_descendants() {
    let nested = MdNode {
        kind: NodeKind::Heading { level: 1 },
        offset: 0,
        children: vec![
            text_node("Hello ", 2),
            MdNode {
                kind: NodeKind::Other,
                offset: 8,
                children: vec![text_node("World", 8)],
            },
        ],
    };
    let infos = collect_heading_info(&doc(vec![nested]));
    assert_eq!(infos.len(), 1);
    assert_eq!(infos[0].text, "Hello World");
    assert_eq!(infos[0].id, "hello-world");
}

#[test]
fn heading_ids_follow_collection() {
    let root = doc(vec![heading(1, "A", 0), heading(2, "B", 4), heading(2, "B", 9)]);
    let ids = find_heading_ids(&root);
    assert_eq!(ids, vec!["a".to_string(), "b".to_string(), "b-1".to_string()]);
}

#[test]
fn toc_indents_by_level_and_links_anchors() {
    let root = doc(vec![
        heading(1, "A", 0),
        heading(2, "B", 4),
        heading(2, "B", 9),
        heading(3, "C", 15),
    ]);
    let infos = collect_heading_info(&root);
    let toc = generate_toc(&infos);
    assert_eq!(toc, "- [A](#a)\n  - [B](#b)\n  - [B](#b-1)\n    - [C](#c)\n");
}

#[test]
fn empty_document_yields_no_headings() {
    let root = doc(vec![]);
    let infos = collect_heading_info(&root);
    assert_eq!(infos.len(), 0);
    let toc = generate_toc(&infos);
    assert_eq!(toc, "");
}
