use florg::{LoadEntry, NodeIndex, StoreError, TreePath};

fn entry(dir: &str, raw: &str) -> LoadEntry {
    LoadEntry { dir: dir.to_string(), raw: raw.to_string() }
}

fn human(p: &str) -> TreePath {
    TreePath::from_human(p).unwrap()
}

fn load(entries: Vec<LoadEntry>) -> NodeIndex {
    let (index, skipped) = NodeIndex::load(&entries);
    assert!(skipped.is_empty());
    index
}

fn contents(index: &NodeIndex) -> Vec<(String, String)> {
    let mut out = Vec::new();
    let mut i = 0;
    while i < index.len() {
        let n = index.at(i);
        out.push((n.path.display(), n.content().to_string()));
        i += 1;
    }
    out
}

#[test]
fn move_fails_with_already_exists_exactly_when_target_occupied() {
    let index = load(vec![entry("1", "a"), entry("2", "b")]);
    let p1 = TreePath::from_file_path("1").unwrap();
    let p2 = TreePath::from_file_path("2").unwrap();
    let p3 = TreePath::from_file_path("3").unwrap();
    // occupied target
    assert_eq!(index.plan_move(&p1, &p2).unwrap_err(), StoreError::AlreadyExists);
    // free target, missing source
    assert_eq!(index.plan_move(&p3, &human("Z")).unwrap_err(), StoreError::NotFound);
    // free target, present source
    let plan = index.plan_move(&p1, &p3).unwrap();
    assert_eq!(plan.message, "moved node 1 to 3");
}

#[test]
fn move_rewrites_the_whole_subtree() {
    let mut index = load(vec![
        entry("1", "root of subtree"),
        entry("1/5", "child"),
        entry("1/5/7", "grandchild"),
        entry("2", "bystander"),
    ]);
    let from = TreePath::from_file_path("1").unwrap();
    let to = TreePath::from_file_path("9").unwrap();
    index.plan_move(&from, &to).unwrap();
    index.apply_move(&from, &to).unwrap();
    // every node that sat under the old prefix now sits under the new one
    assert_eq!(
        index.get_node(&TreePath::from_file_path("9").unwrap()).unwrap().content(),
        "root of subtree"
    );
    assert_eq!(
        index.get_node(&TreePath::from_file_path("9/5/7").unwrap()).unwrap().content(),
        "grandchild"
    );
    // nothing remains under the old prefix, others are untouched
    assert!(index.get_node(&from).is_none());
    assert!(index.get_node(&TreePath::from_file_path("1/5").unwrap()).is_none());
    assert_eq!(
        index.get_node(&TreePath::from_file_path("2").unwrap()).unwrap().content(),
        "bystander"
    );
}

#[test]
fn move_into_occupied_subtree_conflicts_in_memory() {
    let mut index = load(vec![entry("1", "a"), entry("2/3", "below target")]);
    let from = TreePath::from_file_path("1").unwrap();
    let to = TreePath::from_file_path("2").unwrap();
    let before = contents(&index);
    assert_eq!(index.apply_move(&from, &to).unwrap_err(), StoreError::Conflict);
    assert_eq!(contents(&index), before);
}

#[test]
fn swap_with_next_then_previous_restores_order() {
    let mut index = load(vec![
        entry("0", "first"),
        entry("0/9", "first child"),
        entry("1", "second"),
    ]);
    let before = contents(&index);
    let a = TreePath::from_file_path("0").unwrap();
    // swap down
    let plan = index.plan_swap_with_next(&a).unwrap();
    assert_eq!(plan.sibling.display(), "1");
    assert_eq!(plan.message, "Swapped nodes down: 0 and 1");
    assert_eq!(plan.renames.len(), 3);
    index.apply_swap(&a, &plan.sibling).unwrap();
    assert_eq!(
        index.get_node(&TreePath::from_file_path("1").unwrap()).unwrap().content(),
        "first"
    );
    assert_eq!(
        index.get_node(&TreePath::from_file_path("1/9").unwrap()).unwrap().content(),
        "first child"
    );
    // swap back up
    let b = TreePath::from_file_path("1").unwrap();
    let plan2 = index.plan_swap_with_previous(&b).unwrap();
    assert_eq!(plan2.sibling.display(), "0");
    assert_eq!(plan2.message, "Swapped nodes up: 1 and 0");
    index.apply_swap(&b, &plan2.sibling).unwrap();
    assert_eq!(contents(&index), before);
}

#[test]
fn swap_conflicts() {
    let mut index = load(vec![entry("0", "a"), entry("1", "b")]);
    // the first sibling has nothing before it
    assert_eq!(
        index.plan_swap_with_previous(&TreePath::from_file_path("0").unwrap()).unwrap_err(),
        StoreError::Conflict
    );
    // the last sibling has nothing after it
    assert_eq!(
        index.plan_swap_with_next(&TreePath::from_file_path("1").unwrap()).unwrap_err(),
        StoreError::Conflict
    );
    // an occupied sentinel path blocks swapping
    let mut sentinel = TreePath::new();
    sentinel.push(u32::MAX);
    index.apply_replace(florg::Node::new(&sentinel, "stale"));
    assert_eq!(
        index.plan_swap_with_next(&TreePath::from_file_path("0").unwrap()).unwrap_err(),
        StoreError::Conflict
    );
}

#[test]
fn sibling_queries() {
    let index = load(vec![entry("0/1", "AB"), entry("0/4", "AE"), entry("0/9", "AJ")]);
    let p = human("AE");
    assert_eq!(index.find_previous_sibling(&p).unwrap().to_human(), "AB");
    assert_eq!(index.find_next_sibling(&p).unwrap().to_human(), "AJ");
    assert!(index.find_previous_sibling(&human("AB")).is_none());
    assert!(index.find_next_sibling(&human("AJ")).is_none());
    assert!(index.find_previous_sibling(&human("AC")).is_none());
}

#[test]
fn sort_children_natural_order() {
    // three children titled "10", "2", "1" come out as "1", "2", "10"
    let mut index = load(vec![
        entry("0", "Parent"),
        entry("0/0", "10"),
        entry("0/1", "2"),
        entry("0/2", "1"),
    ]);
    let parent = human("A");
    let plan = index.plan_sort_children(&parent);
    assert_eq!(plan.message, "Sorted children of 0");
    assert_eq!(plan.staging.display(), format!("0/{}", u32::MAX));
    assert_eq!(plan.mapping.len(), 3);
    assert_eq!(plan.stage.len(), 3);
    assert_eq!(plan.unstage.len(), 3);
    index.apply_remap(&plan.mapping).unwrap();
    let titles: Vec<String> = index
        .children_for(&parent)
        .iter()
        .map(|n| n.header.title.clone())
        .collect();
    assert_eq!(titles, vec!["1".to_string(), "2".to_string(), "10".to_string()]);
}

#[test]
fn compact_children_closes_gaps() {
    let mut index = load(vec![entry("0", "P"), entry("0/3", "x"), entry("0/7", "y")]);
    let parent = human("A");
    let plan = index.plan_compact_children(&parent);
    assert_eq!(plan.message, "");
    index.apply_remap(&plan.mapping).unwrap();
    assert_eq!(index.get_node(&human("AA")).unwrap().content(), "x");
    assert_eq!(index.get_node(&human("AB")).unwrap().content(), "y");
    assert!(index.get_node(&human("AD")).is_none());
}

#[test]
fn placeholder_removal_is_guarded() {
    let mut index = florg::NodeIndex::empty();
    let p = human("A");
    index.apply_replace(florg::Node::new(&p, "(placeholder)"));
    // removable only while nothing else lives in its directory
    assert!(index.plan_remove_placeholder(&p, true).is_none());
    let found = index.plan_remove_placeholder(&p, false).unwrap();
    assert_eq!(found.to_human(), "A");
    // a node with real content never counts as a placeholder
    index.apply_replace(florg::Node::new(&p, "real content"));
    assert!(index.plan_remove_placeholder(&p, false).is_none());
    assert!(index.plan_remove_placeholder(&human("B"), false).is_none());
}

#[test]
fn remap_rejects_unsafe_lists() {
    let mut index = load(vec![entry("1", "a"), entry("2", "b")]);
    // a missing source
    let bad = vec![(TreePath::from_file_path("9").unwrap(), TreePath::from_file_path("8").unwrap())];
    assert_eq!(index.apply_remap(&bad).unwrap_err(), StoreError::Conflict);
    // overlapping new paths
    let bad2 = vec![
        (TreePath::from_file_path("1").unwrap(), TreePath::from_file_path("5").unwrap()),
        (TreePath::from_file_path("2").unwrap(), TreePath::from_file_path("5/1").unwrap()),
    ];
    assert_eq!(index.apply_remap(&bad2).unwrap_err(), StoreError::Conflict);
}
