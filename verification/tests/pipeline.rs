use fscan::aggregate::scan_records;
use fscan::aggregate::threshold_bytes;
use fscan::aggregate::FileRec;
use fscan::aggregate::SkipLimit;
use fscan::entries::finalize_entries;
use fscan::entries::make_entry;
use fscan::entries::merge_entries;
use fscan::entries::EntryKind;
use fscan::entries::FileEntry;

fn rec(path: &str, size: u64) -> FileRec {
    FileRec { path: path.to_string(), size }
}

fn strings(v: &[&str]) -> Vec<String> {
    v.iter().map(|s| s.to_string()).collect()
}

fn fixture_entries(exclude_empty: bool, threshold: Option<u64>) -> Vec<FileEntry> {
    let files = vec![rec("root/a.txt", 100), rec("root/sub/b.txt", 200)];
    let dirs = strings(&["root", "root/sub", "root/sub/empty"]);
    let maps = scan_records(&files, &dirs, threshold);
    finalize_entries(merge_entries(&maps), exclude_empty)
}

fn find<'e>(entries: &'e [FileEntry], path: &str) -> Option<&'e FileEntry> {
    entries.iter().find(|e| e.path == path)
}

#[test]
fn end_to_end_unfiltered_tree() {
    let entries = fixture_entries(false, None);
    assert_eq!(entries.len(), 5);
    // Sorted largest first.
    for w in entries.windows(2) {
        assert!(w[0].size_bytes >= w[1].size_bytes);
    }
    let root = find(&entries, "root").unwrap();
    assert_eq!(root.size_bytes, 300);
    assert_eq!(root.kind, EntryKind::Directory);
    assert_eq!(root.size_human, "300.00 B");
    let sub = find(&entries, "root/sub").unwrap();
    assert_eq!(sub.size_bytes, 200);
    assert_eq!(sub.kind, EntryKind::Directory);
    let b = find(&entries, "root/sub/b.txt").unwrap();
    assert_eq!(b.size_bytes, 200);
    assert_eq!(b.kind, EntryKind::File);
    let a = find(&entries, "root/a.txt").unwrap();
    assert_eq!(a.size_bytes, 100);
    assert_eq!(a.kind, EntryKind::File);
    let empty = find(&entries, "root/sub/empty").unwrap();
    assert_eq!(empty.size_bytes, 0);
    assert_eq!(empty.kind, EntryKind::Directory);
    // The largest entry leads, the empty directory trails.
    assert_eq!(entries[0].path, "root");
    assert_eq!(entries[4].path, "root/sub/empty");
}

#[test]
fn end_to_end_with_threshold_is_empty() {
    let entries = fixture_entries(false, Some(threshold_bytes(SkipLimit::Skip64)));
    assert!(entries.is_empty());
}

#[test]
fn exclude_empty_drops_only_zero_directories() {
    let kept = fixture_entries(true, None);
    assert_eq!(kept.len(), 4);
    assert!(find(&kept, "root/sub/empty").is_none());
    assert!(kept
        .iter()
        .all(|e| !(e.kind == EntryKind::Directory && e.size_bytes == 0)));
    // A zero-size file is not a zero directory and stays.
    let with_zero_file = finalize_entries(
        vec![
            make_entry(&"z.txt".to_string(), 0, EntryKind::File),
            make_entry(&"d".to_string(), 0, EntryKind::Directory),
            make_entry(&"e".to_string(), 5, EntryKind::Directory),
        ],
        true,
    );
    assert_eq!(with_zero_file.len(), 2);
    assert!(find(&with_zero_file, "z.txt").is_some());
    assert!(find(&with_zero_file, "d").is_none());
    assert!(find(&with_zero_file, "e").is_some());
}

#[test]
fn without_exclude_zero_directories_are_retained() {
    let entries = fixture_entries(false, None);
    assert!(find(&entries, "root/sub/empty").is_some());
}

#[test]
fn sort_is_descending_on_adjacent_entries() {
    let entries = finalize_entries(
        vec![
            make_entry(&"a".to_string(), 3, EntryKind::File),
            make_entry(&"b".to_string(), 9, EntryKind::File),
            make_entry(&"c".to_string(), 1, EntryKind::File),
            make_entry(&"d".to_string(), 9, EntryKind::Directory),
            make_entry(&"e".to_string(), 4, EntryKind::File),
        ],
        false,
    );
    assert_eq!(entries.len(), 5);
    for w in entries.windows(2) {
        assert!(w[0].size_bytes >= w[1].size_bytes);
    }
    let sizes: Vec<u64> = entries.iter().map(|e| e.size_bytes).collect();
    assert_eq!(sizes, vec![9, 9, 4, 3, 1]);
}
