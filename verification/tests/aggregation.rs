use fscan::aggregate::scan_records;
use fscan::aggregate::threshold_bytes;
use fscan::aggregate::FileRec;
use fscan::aggregate::SkipLimit;
use fscan::pathmodel::ancestors_of;
use fscan::pathmodel::parent_of;

fn rec(path: &str, size: u64) -> FileRec {
    FileRec { path: path.to_string(), size }
}

fn strings(v: &[&str]) -> Vec<String> {
    v.iter().map(|s| s.to_string()).collect()
}

#[test]
fn parent_chain_of_relative_path() {
    assert_eq!(parent_of("root/sub/b.txt"), Some("root/sub".to_string()));
    assert_eq!(parent_of("root"), None);
    let chain: Vec<String> = ancestors_of(&"root/sub/b.txt".to_string());
    assert_eq!(chain, vec!["root/sub".to_string(), "root".to_string()]);
}

#[test]
fn parent_chain_of_absolute_path() {
    assert_eq!(parent_of("/a/b"), Some("/a".to_string()));
    assert_eq!(parent_of("/a"), Some("/".to_string()));
    assert_eq!(parent_of("/"), None);
    let chain: Vec<String> = ancestors_of(&"/a/b/c.bin".to_string());
    assert_eq!(
        chain,
        vec!["/a/b".to_string(), "/a".to_string(), "/".to_string()]
    );
}

#[test]
fn files_above_threshold_are_recorded_exactly() {
    let files = vec![rec("d/small.bin", 50), rec("d/edge.bin", 100), rec("d/big.bin", 150)];
    let maps = scan_records(&files, &strings(&[]), Some(100));
    // Only the strictly larger file survives; the one at the cutoff does not.
    assert_eq!(maps.files.len(), 1);
    assert_eq!(maps.files.get(&"d/big.bin".to_string()), Some(150));
    assert_eq!(maps.files.get(&"d/small.bin".to_string()), None);
    assert_eq!(maps.files.get(&"d/edge.bin".to_string()), None);
    assert_eq!(maps.dirs.get(&"d".to_string()), Some(150));
}

#[test]
fn files_without_threshold_are_recorded_exactly() {
    let files = vec![rec("d/a.bin", 0), rec("d/b.bin", 7)];
    let maps = scan_records(&files, &strings(&[]), None);
    assert_eq!(maps.files.get(&"d/a.bin".to_string()), Some(0));
    assert_eq!(maps.files.get(&"d/b.bin".to_string()), Some(7));
    assert_eq!(maps.files.len(), 2);
}

#[test]
fn directory_totals_sum_all_surviving_files_below() {
    let files = vec![
        rec("top/a.txt", 100),
        rec("top/mid/b.txt", 200),
        rec("top/mid/deep/c.txt", 400),
        rec("top/mid2/d.txt", 800),
    ];
    let maps = scan_records(&files, &strings(&[]), None);
    assert_eq!(maps.dirs.get(&"top".to_string()), Some(1500));
    assert_eq!(maps.dirs.get(&"top/mid".to_string()), Some(600));
    assert_eq!(maps.dirs.get(&"top/mid/deep".to_string()), Some(400));
    assert_eq!(maps.dirs.get(&"top/mid2".to_string()), Some(800));
}

#[test]
fn totals_do_not_depend_on_processing_order() {
    let a = vec![
        rec("t/x/one.bin", 10),
        rec("t/x/two.bin", 20),
        rec("t/y/three.bin", 40),
        rec("t/four.bin", 80),
    ];
    let b = vec![
        rec("t/four.bin", 80),
        rec("t/y/three.bin", 40),
        rec("t/x/two.bin", 20),
        rec("t/x/one.bin", 10),
    ];
    let dirs = strings(&["t", "t/x", "t/y"]);
    let ma = scan_records(&a, &dirs, None);
    let mb = scan_records(&b, &dirs, None);
    assert_eq!(ma.files.len(), mb.files.len());
    assert_eq!(ma.dirs.len(), mb.dirs.len());
    for key in ["t", "t/x", "t/y"] {
        assert_eq!(ma.dirs.get(&key.to_string()), mb.dirs.get(&key.to_string()));
    }
    for r in &a {
        assert_eq!(ma.files.get(&r.path), mb.files.get(&r.path));
        assert_eq!(ma.files.get(&r.path), Some(r.size));
    }
    assert_eq!(ma.dirs.get(&"t".to_string()), Some(150));
    assert_eq!(ma.dirs.get(&"t/x".to_string()), Some(30));
    assert_eq!(ma.dirs.get(&"t/y".to_string()), Some(40));
}

#[test]
fn threshold_filters_whole_scan_to_nothing() {
    // A 64 MB cutoff over files far below it: both maps stay empty.
    let files = vec![rec("root/a.txt", 100), rec("root/sub/b.txt", 200)];
    let dirs = strings(&["root", "root/sub", "root/sub/empty"]);
    let maps = scan_records(&files, &dirs, Some(threshold_bytes(SkipLimit::Skip64)));
    assert_eq!(maps.files.len(), 0);
    assert_eq!(maps.dirs.len(), 0);
}

#[test]
fn skip_limits_map_to_bytes() {
    assert_eq!(threshold_bytes(SkipLimit::Skip64), 64 * 1024 * 1024);
    assert_eq!(threshold_bytes(SkipLimit::Skip128), 128 * 1024 * 1024);
    assert_eq!(threshold_bytes(SkipLimit::Skip256), 256 * 1024 * 1024);
    assert_eq!(threshold_bytes(SkipLimit::Skip512), 512 * 1024 * 1024);
    assert_eq!(threshold_bytes(SkipLimit::Skip1024), 1024 * 1024 * 1024);
    assert_eq!(threshold_bytes(SkipLimit::Skip2048), 2048 * 1024 * 1024);
}

#[test]
fn unreadable_file_recorded_as_zero_still_creates_entries() {
    // A metadata failure is reported to the library as size 0: the file and
    // its ancestors appear, with nothing added to the totals.
    let files = vec![rec("r/gone.bin", 0)];
    let maps = scan_records(&files, &strings(&["r"]), None);
    assert_eq!(maps.files.get(&"r/gone.bin".to_string()), Some(0));
    assert_eq!(maps.dirs.get(&"r".to_string()), Some(0));
}
