use check_markdown::node::MdNode;
use check_markdown::node::NodeKind;
use check_markdown::toc::collect_heading_info;
use check_markdown::validate::validate_document_structure;
use check_markdown::validate::validate_structure;

fn text_node(s: &str, offset: usize) -> MdNode {
    MdNode { kind: NodeKind::Text { content: s.to_string() }, offset, children: vec![] }
}

fn heading(level: u32, text: &str, offset: usize) -> MdNode {
    MdNode {
        kind: NodeKind::Heading { level },
        offset,
        children: vec![text_node(text, offset)],
    }
}

fn doc(children: Vec<MdNode>) -> MdNode {
    MdNode { kind: NodeKind::Other, offset: 0, children }
}

#[test]
fn well_formed_document_has_no_structure_errors() {
    let root = doc(vec![
        heading(1, "Title", 0),
        heading(2, "Install", 10),
        heading(3, "From source", 25),
        heading(2, "Usage", 45),
    ]);
    let infos = collect_heading_info(&root);
    let errors = validate_structure(&infos, &"doc.md".to_string());
    assert_eq!(errors.len(), 0);
    assert!(matches!(validate_document_structure(&root, &"doc.md".to_string()), Ok(())));
}

#[test]
fn duplicate_heading_at_same_level_is_reported_once() {
    // The document "# A\n## B\n## B\n### C".
    let root = doc(vec![
        heading(1, "A", 0),
        heading(2, "B", 4),
        heading(2, "B", 9),
        heading(3, "C", 15),
    ]);
    let result = validate_document_structure(&root, &"doc.md".to_string());
    let errors = result.err().expect("expected structure errors");
    assert_eq!(errors.len(), 1);
    assert_eq!(errors[0].error, "Repeated heading 'B' at level 2.");
    assert_eq!(errors[0].heading, Some("B".to_string()));
    assert_eq!(errors[0].file, "doc.md".to_string());
}

#[test]
fn same_text_at_different_levels_is_permitted() {
    let root = doc(vec![heading(1, "Notes", 0), heading(2, "Notes", 10)]);
    assert!(matches!(validate_document_structure(&root, &"doc.md".to_string()), Ok(())));
}

#[test]
fn level_skip_is_reported_once() {
    // The document "# A\n### B".
    let root = doc(vec![heading(1, "A", 0), heading(3, "B", 4)]);
    let result = validate_document_structure(&root, &"doc.md".to_string());
    let errors = result.err().expect("expected structure errors");
    assert_eq!(errors.len(), 1);
    assert_eq!(errors[0].error, "Invalid heading level order.");
    assert_eq!(errors[0].heading, Some("B".to_string()));
}

#[test]
fn second_h1_is_reported() {
    let root = doc(vec![heading(1, "A", 0), heading(1, "Z", 4)]);
    let result = validate_document_structure(&root, &"doc.md".to_string());
    let errors = result.err().expect("expected structure errors");
    assert_eq!(errors.len(), 1);
    assert_eq!(errors[0].error, "More than one H1 heading found.");
    assert_eq!(errors[0].heading, Some("Z".to_string()));
}

#[test]
fn violations_accumulate_without_stopping() {
    // Three rules broken at once: a second H1, a skip, and a duplicate.
    let root = doc(vec![
        heading(1, "A", 0),
        heading(3, "B", 4),
        heading(3, "B", 10),
        heading(1, "A", 16),
    ]);
    let result = validate_document_structure(&root, &"doc.md".to_string());
    let errors = result.err().expect("expected structure errors");
    // Heading 2 skips (3 after 1); heading 3 duplicates "B" at level 3;
    // heading 4 is a second H1 and also duplicates "A" at level 1.
    assert_eq!(errors.len(), 4);
    assert_eq!(errors[0].error, "Invalid heading level order.");
    assert_eq!(errors[1].error, "Repeated heading 'B' at level 3.");
    assert_eq!(errors[2].error, "More than one H1 heading found.");
    assert_eq!(errors[3].error, "Repeated heading 'A' at level 1.");
}

#[test]
fn level_skip_after_deeper_heading_is_local() {
    // 1, 2, 3 then back to 2: always within one step of the previous
    // heading, so no error.
    let root = doc(vec![
        heading(1, "A", 0),
        heading(2, "B", 4),
        heading(3, "C", 10),
        heading(2, "D", 16),
        heading(3, "E", 22),
    ]);
    assert!(matches!(validate_document_structure(&root, &"doc.md".to_string()), Ok(())));
}
