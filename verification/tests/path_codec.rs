use florg::TreePath;

fn path_of(components: &[u32]) -> TreePath {
    TreePath::from_components(components.to_vec())
}

#[test]
fn to_human_letters_and_numbers() {
    assert_eq!(path_of(&[0]).to_human(), "A");
    assert_eq!(path_of(&[25]).to_human(), "Z");
    assert_eq!(path_of(&[0, 2]).to_human(), "AC");
    assert_eq!(path_of(&[26]).to_human(), "26");
    assert_eq!(path_of(&[26, 27]).to_human(), "26/27");
    assert_eq!(path_of(&[0, 26]).to_human(), "A26");
    assert_eq!(path_of(&[26, 0]).to_human(), "26A");
    assert_eq!(path_of(&[]).to_human(), "");
}

#[test]
fn round_trip_small_and_large_components() {
    // components across the letter/number boundary and adjacent digit runs
    let cases: Vec<Vec<u32>> = vec![
        vec![],
        vec![0],
        vec![25],
        vec![26],
        vec![0, 25, 26, 27],
        vec![999999, 123456],
        vec![26, 26, 26],
        vec![5, 100, 5, 100],
        vec![u32::MAX],
    ];
    for comps in cases {
        let p = path_of(&comps);
        let h = p.to_human();
        let back = TreePath::from_human(&h).expect("round trip must parse");
        assert_eq!(back.iter().as_slice(), p.iter().as_slice(), "case {h}");
    }
}

#[test]
fn from_human_rejects_malformed_tokens() {
    assert!(TreePath::from_human("a").is_err());
    assert!(TreePath::from_human("A B").is_err());
    assert!(TreePath::from_human("12/").is_err());
    assert!(TreePath::from_human("/A").is_err());
    assert!(TreePath::from_human("99999999999999999999").is_err());
    assert!(TreePath::from_human("").unwrap().is_empty());
}

#[test]
fn from_file_path_parses_decimal_segments() {
    let p = TreePath::from_file_path("1/2/3").unwrap();
    assert_eq!(p.iter().as_slice(), &[1, 2, 3]);
    // empty segments are skipped, leading zeros are plain decimal
    let q = TreePath::from_file_path("/01//2/").unwrap();
    assert_eq!(q.iter().as_slice(), &[1, 2]);
    assert!(TreePath::from_file_path("x/1").is_err());
    assert!(TreePath::from_file_path("1/4294967296").is_err());
}

#[test]
fn from_str_requires_every_segment() {
    let p = TreePath::from_str("1/2").unwrap();
    assert_eq!(p.iter().as_slice(), &[1, 2]);
    assert!(TreePath::from_str("").is_err());
    assert!(TreePath::from_str("1//2").is_err());
}

#[test]
fn display_joins_decimal_components() {
    assert_eq!(path_of(&[1, 2, 3]).display(), "1/2/3");
    assert_eq!(path_of(&[]).display(), "");
    assert_eq!(path_of(&[7]).display(), "7");
}

#[test]
fn path_operations() {
    let mut p = path_of(&[1, 2]);
    assert_eq!(p.len(), 2);
    assert!(!p.is_empty());
    let q = p.append(3);
    assert_eq!(q.iter().as_slice(), &[1, 2, 3]);
    let r = p.concat(&path_of(&[9, 8]));
    assert_eq!(r.iter().as_slice(), &[1, 2, 9, 8]);
    assert_eq!(q.parent().iter().as_slice(), &[1, 2]);
    assert!(q.starts_with(&p));
    assert!(!p.starts_with(&q));
    assert!(q.ends_with(&path_of(&[2, 3])));
    assert!(!q.ends_with(&path_of(&[1, 3])));
    assert_eq!(p.pop(), Some(2));
    assert_eq!(p.iter().as_slice(), &[1]);
    assert!(path_of(&[]).parent().is_empty());
}

#[test]
fn ancestor_sorts_before_descendant() {
    // the ordering law on concrete paths: a strict ancestor compares Less
    let a = path_of(&[1]);
    let b = path_of(&[1, 5]);
    assert!(matches!(a.compare(&b), florg::Rank::Less));
    assert!(matches!(b.compare(&a), florg::Rank::Greater));
    assert!(matches!(a.compare(&path_of(&[1])), florg::Rank::Equal));
    let root = path_of(&[]);
    assert!(matches!(root.compare(&a), florg::Rank::Less));
}
