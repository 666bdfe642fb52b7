use florg::{Node, StoreError, TreePath};

#[test]
fn header_title_and_body() {
    // creating a node with a title line, a blank line, and a body
    let path = TreePath::from_human("A").unwrap();
    let node = Node::new(&path, "Title\n\nBody");
    assert_eq!(node.header.title, "Title");
    assert_eq!(node.header.first_paragraph, "Body");
    assert_eq!(node.header.has_more_content, false);
    assert_eq!(node.content(), "Title\n\nBody");
}

#[test]
fn header_without_blank_line() {
    let path = TreePath::new();
    let node = Node::new(&path, "Only a line");
    assert_eq!(node.header.title, "Only a line");
    assert_eq!(node.header.first_paragraph, "Only a line");
    assert_eq!(node.header.has_more_content, true);
}

#[test]
fn header_strips_markup_marker() {
    let path = TreePath::new();
    let node = Node::new(&path, "== A Heading\nmore\n\nrest");
    assert_eq!(node.header.title, "A Heading");
    // the first chunk has a second line, so the paragraph is that chunk
    // without the title line
    assert_eq!(node.header.first_paragraph, "more");
    assert_eq!(node.header.has_more_content, false);
}

#[test]
fn header_single_line_chunk_takes_next_chunk() {
    let path = TreePath::new();
    let node = Node::new(&path, "Title\n\nSecond chunk\n\nThird");
    assert_eq!(node.header.first_paragraph, "Second chunk");
}

#[test]
fn empty_text_header() {
    let path = TreePath::new();
    let node = Node::new(&path, "");
    assert_eq!(node.header.title, "");
    assert_eq!(node.header.first_paragraph, "");
    assert_eq!(node.header.has_more_content, true);
}

#[test]
fn tags_are_distinct_in_first_occurrence_order() {
    let tags = Node::extract_tags("see #alpha and #b2, then #alpha again; #9bad #x #Ok1");
    assert_eq!(tags, vec!["#alpha".to_string(), "#b2".to_string(), "#Ok1".to_string()]);
    let node = Node::new(&TreePath::new(), "#one #two #one");
    assert_eq!(node.get_tags(), vec!["#one".to_string(), "#two".to_string()]);
}

#[test]
fn dirnames_mirror_the_tree() {
    let p = TreePath::from_file_path("3/27/1").unwrap();
    assert_eq!(Node::dirname_from_path("/data", &p), "/data/3/27/1");
    assert_eq!(Node::dirname_from_path("/data", &TreePath::new()), "/data");
    let n = Node::new(&p, "x");
    assert_eq!(n.dirname("/data"), "/data/3/27/1");
}

#[test]
fn parse_raw_content_cuts_at_separator() {
    let text = "A breadcrumb\nContent after the next line. First line = new title \n--\n\nNew text\n";
    assert_eq!(florg::edit::parse_raw_content(text), "New text");
    assert_eq!(florg::edit::parse_raw_content("no separator here"), "no separator here");
}

#[test]
fn cache_round_trip_and_miss() {
    // a fresh entry reads back while the raw text is unchanged
    let entry = florg::cache::set_cached_node("raw text", "rendered html");
    assert_eq!(florg::cache::get_cached_node("raw text", &entry), Some("rendered html".to_string()));
    // after the raw text changes without a matching store, the lookup misses
    assert_eq!(florg::cache::get_cached_node("raw text v2", &entry), None);
    // a file that does not follow the hash/payload layout misses too
    assert_eq!(florg::cache::get_cached_node("raw text", "no newline"), None);
    // the stored entry starts with the 64 hex digits of the hash, not the raw text
    assert_eq!(entry.find('\n'), Some(64));
    assert!(entry.chars().take(64).all(|c| c.is_ascii_hexdigit()));
}

#[test]
fn error_messages() {
    assert_eq!(StoreError::ParseError.message(), "malformed path");
    assert_eq!(StoreError::NotFound.message(), "node not found");
    assert_eq!(StoreError::AlreadyExists.message(), "new path already exists");
    assert_eq!(StoreError::Conflict.message(), "conflicting node in the way");
    assert_eq!(StoreError::IoFailure.message(), "filesystem or external tool failure");
}

#[test]
fn decimal_rendering() {
    assert_eq!(florg::chars::u32_to_string(0), "0");
    assert_eq!(florg::chars::u32_to_string(1234), "1234");
    assert_eq!(florg::chars::u32_to_string(u32::MAX), "4294967295");
}
