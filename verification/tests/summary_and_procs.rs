use fscan::aggregate::scan_records;
use fscan::aggregate::FileRec;
use fscan::procs::memory_mb_string;
use fscan::procs::sort_procs_desc;
use fscan::procs::total_memory_kb;
use fscan::procs::ProcRec;
use fscan::summary::render_summary;
use fscan::summary::scan_total;
use fscan::summary::summary_inputs;

fn rec(path: &str, size: u64) -> FileRec {
    FileRec { path: path.to_string(), size }
}

fn strings(v: &[&str]) -> Vec<String> {
    v.iter().map(|s| s.to_string()).collect()
}

#[test]
fn summary_counts_totals_and_ranks() {
    let files = vec![rec("root/a.txt", 100), rec("root/sub/b.txt", 200)];
    let dirs = strings(&["root", "root/sub", "root/sub/empty"]);
    let maps = scan_records(&files, &dirs, None);
    let total = scan_total(&maps).unwrap();
    // Files sum to 300; directory totals are 300, 200 and 0; the combined
    // figure counts nested content once per ancestor, by design.
    assert_eq!(total, 800);
    let (ds, fs) = summary_inputs(&maps);
    let lines = render_summary(&maps, &ds, &fs, total);
    let expected = vec![
        "",
        "Scan Summary:",
        "-------------",
        "Total files: 2",
        "Total folders: 3",
        "Total size: 800.00 B",
        "",
        "Top 5 folders:",
        "1. root (300.00 B)",
        "2. root/sub (200.00 B)",
        "3. root/sub/empty (0.00 B)",
        "",
        "Top 5 files:",
        "1. root/sub/b.txt (200.00 B)",
        "2. root/a.txt (100.00 B)",
    ];
    let got: Vec<&str> = lines.iter().map(|s| s.as_str()).collect();
    assert_eq!(got, expected);
}

#[test]
fn summary_ranks_stop_at_five() {
    let files = vec![
        rec("r/d1/a", 10),
        rec("r/d2/a", 20),
        rec("r/d3/a", 30),
        rec("r/d4/a", 40),
        rec("r/d5/a", 50),
        rec("r/d6/a", 60),
    ];
    let maps = scan_records(&files, &strings(&[]), None);
    let total = scan_total(&maps).unwrap();
    let (ds, fs) = summary_inputs(&maps);
    let lines = render_summary(&maps, &ds, &fs, total);
    // Seven directories exist (r and six children), six files: each list
    // shows five ranked lines.
    let rank_starts: Vec<&String> =
        lines.iter().filter(|l| l.starts_with("5. ")).collect();
    assert_eq!(rank_starts.len(), 2);
    assert!(!lines.iter().any(|l| l.starts_with("6. ")));
    assert_eq!(lines[8], "1. r (210.00 B)");
    assert_eq!(lines[13], "", "exactly five folder lines before the blank");
    assert_eq!(lines[14], "Top 5 files:");
}

#[test]
fn processes_sort_by_memory_descending() {
    let procs = vec![
        ProcRec { pid: 1, name: "idle".to_string(), memory_kb: 10 },
        ProcRec { pid: 2, name: "browser".to_string(), memory_kb: 4096 },
        ProcRec { pid: 3, name: "editor".to_string(), memory_kb: 2048 },
    ];
    let sorted = sort_procs_desc(procs);
    let names: Vec<&str> = sorted.iter().map(|p| p.name.as_str()).collect();
    assert_eq!(names, vec!["browser", "editor", "idle"]);
    for w in sorted.windows(2) {
        assert!(w[0].memory_kb >= w[1].memory_kb);
    }
}

#[test]
fn process_memory_formats_as_mebibytes() {
    assert_eq!(memory_mb_string(0), "0.00");
    assert_eq!(memory_mb_string(1024), "1.00");
    assert_eq!(memory_mb_string(1536), "1.50");
    assert_eq!(memory_mb_string(4096), "4.00");
    assert_eq!(memory_mb_string(100), "0.10");
}

#[test]
fn total_memory_sums_all_records() {
    let procs = vec![
        ProcRec { pid: 1, name: "a".to_string(), memory_kb: 100 },
        ProcRec { pid: 2, name: "b".to_string(), memory_kb: 924 },
    ];
    assert_eq!(total_memory_kb(&procs), Some(1024));
    assert_eq!(memory_mb_string(total_memory_kb(&procs).unwrap()), "1.00");
    let empty: Vec<ProcRec> = Vec::new();
    assert_eq!(total_memory_kb(&empty), Some(0));
}

#[test]
fn totals_report_overflow_as_none() {
    let procs = vec![
        ProcRec { pid: 1, name: "a".to_string(), memory_kb: u64::MAX },
        ProcRec { pid: 2, name: "b".to_string(), memory_kb: 1 },
    ];
    assert_eq!(total_memory_kb(&procs), None);
}

#[test]
fn scan_total_reports_overflow_as_none() {
    // One file of the largest possible size: the file map sums to u64::MAX,
    // and its directory total doubles that, past the 64-bit ceiling.
    let files = vec![rec("d/huge.bin", u64::MAX)];
    let maps = scan_records(&files, &strings(&[]), None);
    assert_eq!(maps.files.get(&"d/huge.bin".to_string()), Some(u64::MAX));
    assert_eq!(maps.dirs.get(&"d".to_string()), Some(u64::MAX));
    assert_eq!(scan_total(&maps), None);
}
