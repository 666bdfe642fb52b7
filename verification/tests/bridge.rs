use florg::{LoadEntry, NodeIndex, StoreError, TreePath};

fn entry(dir: &str, raw: &str) -> LoadEntry {
    LoadEntry { dir: dir.to_string(), raw: raw.to_string() }
}

#[test]
fn git_history_parses_blocks() {
    let raw = "2 hours ago\nabc123\nAdded node 0 'Title'\n\n\
               3 hours ago\ndef456\nInitial commit\n\n";
    let entries = florg::versioning::parse_git_history(raw);
    assert_eq!(entries.len(), 2);
    assert_eq!(entries[0].date, "2 hours ago");
    assert_eq!(entries[0].hash, "abc123");
    assert_eq!(entries[0].message, "Added node 0 'Title'");
    assert_eq!(entries[1].hash, "def456");
    // short or blank blocks are skipped
    let odd = "only\ntwo\n\n   \n\none\ntwo\nthree";
    let entries2 = florg::versioning::parse_git_history(odd);
    assert_eq!(entries2.len(), 1);
    assert_eq!(entries2[0].hash, "two");
    assert_eq!(florg::versioning::parse_git_history("").len(), 0);
}

#[test]
fn undo_message_wording() {
    assert_eq!(florg::versioning::undo_message("abc123"), "Undo to state of abc123");
}

#[test]
fn string_history_round_trips_through_json() {
    let entries = vec!["alpha".to_string(), "two words".to_string(), "".to_string()];
    let encoded = florg::versioning::history_store(&entries).unwrap();
    assert_eq!(encoded, "[\"alpha\",\"two words\",\"\"]");
    let decoded = florg::versioning::history_get(&encoded).unwrap();
    assert_eq!(decoded, entries);
    assert_eq!(
        florg::versioning::history_get("not json").unwrap_err(),
        StoreError::ParseError
    );
}

#[test]
fn date_paths_follow_quarters_and_weeks() {
    // week 14 of the year: quarter 2, week 1 within it, a Wednesday
    let p = florg::calendar::date_to_path(2023, 2023, 14, 3);
    assert_eq!(p.iter().as_slice(), &[1, 1, 3]);
    // a day counted into the previous ISO year lands in week zero
    let q = florg::calendar::date_to_path(2023, 2022, 52, 7);
    assert_eq!(q.iter().as_slice(), &[0, 0, 7]);
    // week 53 folds into the last quarter
    let r = florg::calendar::date_to_path(2020, 2020, 53, 1);
    assert_eq!(r.iter().as_slice(), &[3, 1, 1]);
}

#[test]
fn calendar_plan_lists_quarters_weeks_and_days() {
    let index = NodeIndex::empty();
    let parent = TreePath::from_human("A").unwrap();
    let days = vec![
        florg::calendar::CalendarDay {
            iso_year: 2024,
            iso_week: 1,
            weekday: 1,
            label: "2024-01-01 Mon\n".to_string(),
        },
        florg::calendar::CalendarDay {
            iso_year: 2024,
            iso_week: 1,
            weekday: 2,
            label: "2024-01-02 Tue\n".to_string(),
        },
        florg::calendar::CalendarDay {
            iso_year: 2024,
            iso_week: 2,
            weekday: 1,
            label: "2024-01-08 Mon\n".to_string(),
        },
    ];
    let plan = index.plan_create_calendar(&parent, 2024, &days).unwrap();
    assert_eq!(plan.message, "Added date notes below 0");
    // four quarters, two week nodes, three day nodes
    assert_eq!(plan.nodes.len(), 9);
    assert_eq!(plan.nodes[0].0.display(), "0/0");
    assert_eq!(plan.nodes[0].1, "Q1/2024");
    assert_eq!(plan.nodes[3].1, "Q4/2024");
    assert_eq!(plan.nodes[4].0.display(), "0/0/1");
    assert_eq!(plan.nodes[4].1, "KW 2\n");
    assert_eq!(plan.nodes[5].0.display(), "0/0/1/1");
    assert_eq!(plan.nodes[5].1, "2024-01-01 Mon\n");
    assert_eq!(plan.nodes[6].1, "2024-01-02 Tue\n");
    assert_eq!(plan.nodes[7].1, "KW 3\n");
    assert_eq!(plan.nodes[8].1, "2024-01-08 Mon\n");
    // a parent with children is refused
    let (busy, _) = NodeIndex::load(&vec![entry("0/1", "child")]);
    assert_eq!(
        busy.plan_create_calendar(&parent, 2024, &days).unwrap_err(),
        StoreError::Conflict
    );
}

#[test]
fn editor_preamble_shows_breadcrumbs() {
    let (index, _) = NodeIndex::load(&vec![entry("0", "Top\n"), entry("0/27", "Inner\n")]);
    let root = TreePath::new();
    let (text, skip) = index.editor_preamble(&root);
    assert_eq!(text, "(root)\n");
    assert_eq!(skip, 3);
    // each level shows its mark, indentation, and the title one level up
    let p = TreePath::from_file_path("0/27").unwrap();
    let (text2, skip2) = index.editor_preamble(&p);
    assert_eq!(text2, "A (empty node)\n27  Top\n");
    assert_eq!(skip2, 6);
}

#[test]
fn search_output_is_annotated() {
    let (index, _) = NodeIndex::load(&vec![
        entry("1", "= Root one\nbody\n"),
        entry("1/2", "= Leaf\nwith #tagged text\n"),
    ]);
    let q = TreePath::new();
    // the tool prints the deeper hit last; results come back sorted by path
    let stdout = "9/node.adoc\n1:hit in unknown node\n\n\
                  1/2/x.temp.adoc\n1:skipped\n\n\
                  1/2/node.adoc\n3:with #tagged text\nbare line\n\n";
    let results = index.annotate_search_results(&q, stdout);
    assert_eq!(results.len(), 2);
    assert_eq!(results[0].path, "BC");
    assert_eq!(results[0].title, "Leaf");
    assert_eq!(results[0].parent_titles, vec![
        "Root one".to_string(),
        "(empty node)".to_string(),
    ]);
    assert_eq!(results[0].lines, vec![(3, "with #tagged text".to_string())]);
    assert_eq!(results[0].tags, vec!["#tagged".to_string()]);
    assert_eq!(results[1].path, "J");
    assert_eq!(results[1].title, "(empty node)");
    assert_eq!(results[1].lines, vec![(1, "hit in unknown node".to_string())]);
    assert!(results[1].tags.is_empty());
}
