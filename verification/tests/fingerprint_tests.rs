use glassy_sync::change::ChangeType;
use glassy_sync::fingerprint::{
    carry_over, diff_snapshots, hash_dir, is_key_in_list, FileMeta, LocalCADFile, ScanError,
    WalkedItem,
};

fn file(path: &str, size: u64, hash: &str) -> LocalCADFile {
    LocalCADFile { path: path.to_string(), size, hash: hash.to_string() }
}

fn item(path: &str, hash: &[u8], meta: Option<FileMeta>) -> WalkedItem {
    WalkedItem { relative_path: path.to_string(), hash: hash.to_vec(), meta }
}

fn regular(len: u64) -> Option<FileMeta> {
    Some(FileMeta { is_file: true, len })
}

fn directory() -> Option<FileMeta> {
    Some(FileMeta { is_file: false, len: 4096 })
}

fn triples(files: &[LocalCADFile]) -> Vec<(String, u64, String)> {
    files.iter().map(|f| (f.path.clone(), f.size, f.hash.clone())).collect()
}

#[test]
fn key_in_list_finds_exact_text_only() {
    let list = vec!["a.txt".to_string(), "dir/b.txt".to_string()];
    assert!(is_key_in_list(&"a.txt".to_string(), &list));
    assert!(is_key_in_list(&"dir/b.txt".to_string(), &list));
    assert!(!is_key_in_list(&"b.txt".to_string(), &list));
    assert!(!is_key_in_list(&"a.txt".to_string(), &Vec::new()));
}

#[test]
fn carry_over_follows_the_ignore_list() {
    let base = vec![file("a", 1, "ha"), file("b", 2, "hb"), file("c", 3, "hc")];
    let ignore = vec!["c".to_string(), "x".to_string(), "a".to_string()];
    let kept = carry_over(&base, &ignore);
    assert_eq!(
        triples(&kept),
        vec![("c".to_string(), 3, "hc".to_string()), ("a".to_string(), 1, "ha".to_string())]
    );
}

#[test]
fn hash_dir_records_regular_files_in_walk_order() {
    let items = vec![
        item("", &[0x00], None),
        item("sub", &[0x01], directory()),
        item("a.sldprt", &[0xde, 0xad], regular(10)),
        item("~$a.sldprt", &[0x02], regular(1)),
        item("skip.txt", &[0x03], regular(5)),
        item("b.sldasm", &[0x00, 0x0f, 0xf0], regular(0)),
    ];
    let ignore = vec!["skip.txt".to_string()];
    let files = hash_dir(None, &ignore, &items).unwrap();
    assert_eq!(
        triples(&files),
        vec![
            ("a.sldprt".to_string(), 10, "dead".to_string()),
            ("b.sldasm".to_string(), 0, "000ff0".to_string()),
        ]
    );
}

#[test]
fn hash_dir_carries_ignored_files_over_first() {
    let base = vec![file("skip.txt", 5, "old"), file("gone.txt", 7, "g")];
    let items = vec![
        item("skip.txt", &[0x03], regular(6)),
        item("a", &[0xab], regular(1)),
    ];
    let ignore = vec!["skip.txt".to_string()];
    let files = hash_dir(Some(&base), &ignore, &items).unwrap();
    assert_eq!(
        triples(&files),
        vec![("skip.txt".to_string(), 5, "old".to_string()), ("a".to_string(), 1, "ab".to_string())]
    );
}

#[test]
fn hash_dir_gives_up_on_unreadable_metadata() {
    let items = vec![item("a", &[0x01], regular(1)), item("b", &[0x02], None)];
    let r = hash_dir(None, &Vec::new(), &items);
    assert!(matches!(r, Err(ScanError::Unreadable)));
    // a path-less bookkeeping item needs no metadata
    let ok = hash_dir(None, &Vec::new(), &vec![item("", &[0x01], None)]).unwrap();
    assert!(ok.is_empty());
}

#[test]
fn second_pass_over_unchanged_directory_has_no_change() {
    let items = vec![
        item("a", &[0x01], regular(1)),
        item("b", &[0x02], regular(2)),
        item("c", &[0x03], regular(3)),
    ];
    let ignore = vec!["b".to_string()];
    let base = vec![file("b", 9, "bb")];
    let first = hash_dir(Some(&base), &ignore, &items).unwrap();
    let second = hash_dir(Some(&first), &ignore, &items).unwrap();
    assert_eq!(triples(&first), triples(&second));
    let changes = diff_snapshots(&first, &second);
    assert_eq!(changes.len(), 3);
    for c in &changes {
        assert_eq!(c.change, ChangeType::NoChange);
    }
}

#[test]
fn diff_classifies_created_updated_deleted() {
    let previous = vec![file("a.txt", 1, "H1"), file("keep.txt", 2, "K"), file("old.txt", 3, "O")];
    let current = vec![file("a.txt", 4, "H2"), file("b.txt", 5, "B"), file("keep.txt", 2, "K")];
    let changes = diff_snapshots(&previous, &current);
    let seen: Vec<(String, String, ChangeType)> =
        changes.iter().map(|c| (c.file.path.clone(), c.file.hash.clone(), c.change)).collect();
    assert_eq!(
        seen,
        vec![
            ("a.txt".to_string(), "H2".to_string(), ChangeType::Update),
            ("b.txt".to_string(), "B".to_string(), ChangeType::Create),
            ("keep.txt".to_string(), "K".to_string(), ChangeType::NoChange),
            ("old.txt".to_string(), "O".to_string(), ChangeType::Delete),
        ]
    );
}

#[test]
fn lock_marker_anywhere_in_the_path_excludes_the_file() {
    let items = vec![
        item("~$dir/part.sldprt", &[0x01], regular(1)),
        item("tilde~only", &[0x02], regular(2)),
        item("dollar$only", &[0x03], regular(3)),
        item("apart~ $", &[0x04], regular(4)),
        item("end~$", &[0x05], regular(5)),
    ];
    // even a lock file on the ignore list is neither walked nor carried over
    let files = hash_dir(None, &vec!["other".to_string()], &items).unwrap();
    let paths: Vec<&str> = files.iter().map(|f| f.path.as_str()).collect();
    assert_eq!(paths, vec!["tilde~only", "dollar$only", "apart~ $"]);
}

#[test]
fn carry_over_repeats_for_a_path_ignored_twice() {
    let base = vec![file("a", 1, "ha")];
    let ignore = vec!["a".to_string(), "a".to_string()];
    assert_eq!(carry_over(&base, &ignore).len(), 2);
    assert!(carry_over(&Vec::new(), &ignore).is_empty());
}

#[test]
fn diff_of_empty_snapshots() {
    assert!(diff_snapshots(&Vec::new(), &Vec::new()).is_empty());
    let only = vec![file("a", 1, "h")];
    let created = diff_snapshots(&Vec::new(), &only);
    assert_eq!(created.len(), 1);
    assert_eq!(created[0].change, ChangeType::Create);
    let deleted = diff_snapshots(&only, &Vec::new());
    assert_eq!(deleted.len(), 1);
    assert_eq!(deleted[0].change, ChangeType::Delete);
    assert_eq!(deleted[0].file.path, "a");
}

#[test]
fn second_pass_with_a_path_ignored_twice_has_no_change() {
    let base = vec![file("a", 1, "ha")];
    let ignore = vec!["a".to_string(), "a".to_string()];
    let items = vec![item("a", &[0x09], regular(9)), item("b", &[0x02], regular(2))];
    let first = hash_dir(Some(&base), &ignore, &items).unwrap();
    let second = hash_dir(Some(&first), &ignore, &items).unwrap();
    assert_eq!(first.len(), 3);
    assert_eq!(second.len(), 5);
    let mut one = triples(&first);
    let mut two = triples(&second);
    one.sort();
    one.dedup();
    two.sort();
    two.dedup();
    assert_eq!(one, two);
    let changes = diff_snapshots(&first, &second);
    assert_eq!(changes.len(), second.len());
    for c in &changes {
        assert_eq!(c.change, ChangeType::NoChange);
    }
}

#[test]
fn records_hold_the_path_relative_to_the_root() {
    let items = vec![
        item("", &[0xff], directory()),
        item("sub", &[0x01], directory()),
        item("sub/part.sldprt", &[0xab, 0xcd], regular(7)),
        item("top.sldasm", &[0x01], regular(3)),
    ];
    let files = hash_dir(None, &Vec::new(), &items).unwrap();
    assert_eq!(
        triples(&files),
        vec![
            ("sub/part.sldprt".to_string(), 7, "abcd".to_string()),
            ("top.sldasm".to_string(), 3, "01".to_string()),
        ]
    );
}
