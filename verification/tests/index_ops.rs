use florg::{LoadEntry, Node, NodeIndex, StoreError, TreePath};

fn entry(dir: &str, raw: &str) -> LoadEntry {
    LoadEntry { dir: dir.to_string(), raw: raw.to_string() }
}

fn human(p: &str) -> TreePath {
    TreePath::from_human(p).unwrap()
}

fn load(entries: Vec<LoadEntry>) -> NodeIndex {
    let (index, skipped) = NodeIndex::load(&entries);
    assert!(skipped.is_empty(), "unexpected skips: {skipped:?}");
    index
}

#[test]
fn load_collects_and_sorts() {
    let index = load(vec![
        entry("3", "Three"),
        entry("1", "One"),
        entry("1/2", "OneTwo"),
    ]);
    let p1 = TreePath::from_file_path("1").unwrap();
    assert_eq!(index.get_node(&p1).unwrap().content(), "One");
    let p12 = TreePath::from_file_path("1/2").unwrap();
    assert_eq!(index.get_node(&p12).unwrap().content(), "OneTwo");
    // sorted by path: root placeholder first, then 1, 1/2, 3
    assert_eq!(index.len(), 4);
    assert!(index.at(0).path.is_empty());
    assert_eq!(index.at(1).path.display(), "1");
    assert_eq!(index.at(2).path.display(), "1/2");
    assert_eq!(index.at(3).path.display(), "3");
}

#[test]
fn load_synthesizes_ancestors() {
    // a deep node alone gets a full chain of placeholder ancestors
    let index = load(vec![entry("3/4/5", "Deep")]);
    for dir in ["3/4", "3", ""] {
        let p = TreePath::from_file_path(dir).unwrap();
        let n = index.get_node(&p).expect("ancestor must exist");
        assert_eq!(n.header.title, "(empty node)");
        assert_eq!(n.content(), "");
    }
    assert_eq!(index.len(), 4);
}

#[test]
fn load_skips_bad_and_duplicate_dirs() {
    let entries = vec![
        entry("1", "first"),
        entry("oops", "bad dir"),
        entry("01", "duplicate of 1"),
    ];
    let (index, skipped) = NodeIndex::load(&entries);
    assert_eq!(skipped, vec!["oops".to_string(), "01".to_string()]);
    let p1 = TreePath::from_file_path("1").unwrap();
    assert_eq!(index.get_node(&p1).unwrap().content(), "first");
}

#[test]
fn missing_sibling_reads_as_placeholder() {
    // nodes at "A" and "AC", nothing at "AB"
    let index = load(vec![entry("0", "A node"), entry("0/2", "AC node")]);
    let ab = human("AB");
    assert!(index.get_node(&ab).is_none());
    let ph = index.get_node_or_placeholder(&ab);
    assert_eq!(ph.header.title, "(empty node)");
    assert_eq!(ph.content(), "");
    assert_eq!(ph.header.has_more_content, false);
}

#[test]
fn children_and_levels() {
    let index = load(vec![
        entry("0", "= Parent\n"),
        entry("0/0", "First child"),
        entry("0/2", "Third child"),
        entry("5", "Other"),
    ]);
    let children = index.children_for(&human("A"));
    assert_eq!(children.len(), 2);
    assert_eq!(children[0].content(), "First child");
    assert_eq!(children[1].content(), "Third child");
    let levels = index.levels(&human("AC"));
    assert_eq!(levels, vec![
        ("0".to_string(), "Parent".to_string()),
        ("2".to_string(), "Third child".to_string()),
    ]);
    // a missing level shows an empty title
    let levels2 = index.levels(&human("BA"));
    assert_eq!(levels2, vec![
        ("1".to_string(), "".to_string()),
        ("0".to_string(), "".to_string()),
    ]);
}

#[test]
fn next_empty_child_takes_first_gap() {
    // children at "AA" and "AB" make "AC" the next free slot
    let index = load(vec![entry("0", "A"), entry("0/0", "AA"), entry("0/1", "AB")]);
    let free = index.find_next_empty_child(&human("A"));
    assert_eq!(free.to_human(), "AC");
    // a gap before existing children is taken first
    let index2 = load(vec![entry("0/1", "AB only")]);
    assert_eq!(index2.find_next_empty_child(&human("A")).to_human(), "AA");
    // no children at all
    assert_eq!(index2.find_next_empty_child(&human("Z")).to_human(), "ZA");
}

#[test]
fn reload_replaces_contents() {
    let mut index = load(vec![entry("1", "old")]);
    let skipped = index.reload(&vec![entry("2", "new")]);
    assert!(skipped.is_empty());
    assert!(index.get_node(&TreePath::from_file_path("1").unwrap()).is_none());
    assert!(index.get_node(&TreePath::from_file_path("2").unwrap()).is_some());
}

#[test]
fn replace_node_inserts_and_updates() {
    let mut index = NodeIndex::empty();
    let a = human("A");
    let node = Node::new(&a, "Title\n\nBody");
    let plan = index.plan_replace(&node, None);
    assert_eq!(plan.message, "Added node 0 'Title'");
    assert_eq!(plan.content, "Title\n\nBody");
    index.apply_replace(node);
    assert_eq!(index.get_node(&a).unwrap().header.title, "Title");

    let node2 = Node::new(&a, "  New\n");
    let prior = "Title\n\nBody".to_string();
    let plan2 = index.plan_replace(&node2, Some(&prior));
    assert_eq!(plan2.message, "Changed node 0 'New'");
    assert_eq!(plan2.content, "New");
    // a prior placeholder marker file still words the commit as an addition
    let marker = "(placeholder)".to_string();
    let plan3 = index.plan_replace(&node2, Some(&marker));
    assert_eq!(plan3.message, "Added node 0 'New'");
    index.apply_replace(node2);
    assert_eq!(index.get_node(&a).unwrap().content(), "  New\n");
    assert_eq!(index.len(), 1);
}

#[test]
fn delete_removes_subtree() {
    let mut index = load(vec![entry("1", "a"), entry("1/2", "b"), entry("3", "c")]);
    let p1 = TreePath::from_file_path("1").unwrap();
    let plan = index.plan_delete(&p1).unwrap();
    assert_eq!(plan.message, "Deleted node 1 and children");
    index.apply_delete(&p1);
    assert!(index.get_node(&p1).is_none());
    assert!(index.get_node(&TreePath::from_file_path("1/2").unwrap()).is_none());
    assert!(index.get_node(&TreePath::from_file_path("3").unwrap()).is_some());
    // deleting a missing node reports NotFound
    assert_eq!(index.plan_delete(&p1).unwrap_err(), StoreError::NotFound);
}

#[test]
fn remove_node_removes_the_subtree() {
    let mut index = load(vec![entry("1", "a"), entry("1/2", "b"), entry("3", "c")]);
    let p1 = TreePath::from_file_path("1").unwrap();
    index.remove_node(&p1);
    assert!(index.get_node(&p1).is_none());
    assert!(index.get_node(&TreePath::from_file_path("1/2").unwrap()).is_none());
    assert!(index.get_node(&TreePath::from_file_path("3").unwrap()).is_some());
}
