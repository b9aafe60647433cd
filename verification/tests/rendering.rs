use fscan::entries::make_entry;
use fscan::entries::EntryKind;
use fscan::entries::FileEntry;
use fscan::render::console_line;
use fscan::render::console_lines;
use fscan::render::render_csv;
use fscan::render::render_json;
use serde_json::Value;

fn entry(path: &str, size: u64, kind: EntryKind) -> FileEntry {
    make_entry(&path.to_string(), size, kind)
}

#[test]
fn console_line_right_aligns_the_size() {
    let e = entry("root", 300, EntryKind::Directory);
    assert_eq!(console_line(&e), "  300.00 B [Directory] - root");
    let f = entry("root/a.txt", 1536, EntryKind::File);
    assert_eq!(console_line(&f), "   1.50 KB [File] - root/a.txt");
}

#[test]
fn console_line_with_wide_size_is_not_padded() {
    let e = entry("huge.bin", u64::MAX, EntryKind::File);
    assert_eq!(console_line(&e), "16777216.00 TB [File] - huge.bin");
}

#[test]
fn console_lines_follow_entry_order() {
    let v = vec![
        entry("b", 2, EntryKind::File),
        entry("a", 1, EntryKind::Directory),
    ];
    let lines = console_lines(&v);
    assert_eq!(lines.len(), 2);
    assert_eq!(lines[0], "    2.00 B [File] - b");
    assert_eq!(lines[1], "    1.00 B [Directory] - a");
}

#[test]
fn csv_has_header_and_quoted_paths() {
    let v = vec![
        entry("a.txt", 1536, EntryKind::File),
        entry("data", 0, EntryKind::Directory),
    ];
    let out = render_csv(&v);
    assert_eq!(
        out,
        "path,size_bytes,size_human,kind\n\"a.txt\",1536,1.50 KB,File\n\"data\",0,0.00 B,Directory\n"
    );
}

#[test]
fn csv_doubles_embedded_quotes() {
    let v = vec![entry("a\"b.txt", 1, EntryKind::File)];
    let out = render_csv(&v);
    assert_eq!(
        out,
        "path,size_bytes,size_human,kind\n\"a\"\"b.txt\",1,1.00 B,File\n"
    );
}

#[test]
fn csv_of_no_entries_is_just_the_header() {
    let v: Vec<FileEntry> = Vec::new();
    assert_eq!(render_csv(&v), "path,size_bytes,size_human,kind\n");
}

#[test]
fn json_of_no_entries_is_an_empty_array() {
    let v: Vec<FileEntry> = Vec::new();
    assert_eq!(render_json(&v), "[]");
}

#[test]
fn json_is_pretty_printed_with_two_space_indent() {
    let v = vec![
        entry("root", 300, EntryKind::Directory),
        entry("root/a.txt", 100, EntryKind::File),
    ];
    let out = render_json(&v);
    let expected = "[\n  {\n    \"path\": \"root\",\n    \"size_bytes\": 300,\n    \"size_human\": \"300.00 B\",\n    \"kind\": \"Directory\"\n  },\n  {\n    \"path\": \"root/a.txt\",\n    \"size_bytes\": 100,\n    \"size_human\": \"100.00 B\",\n    \"kind\": \"File\"\n  }\n]";
    assert_eq!(out, expected);
}

#[test]
fn json_escapes_quotes_backslashes_and_controls() {
    let tricky = "dir/q\"x\\y\nz\u{1}w.txt";
    let v = vec![entry(tricky, 1024, EntryKind::File)];
    let out = render_json(&v);
    assert!(out.contains("\\\"x\\\\y\\nz\\u0001w"));
    // The escaped text parses back to the original path.
    let parsed: Value = serde_json::from_str(&out).unwrap();
    assert_eq!(parsed[0]["path"], Value::String(tricky.to_string()));
    assert_eq!(parsed[0]["size_bytes"], Value::from(1024u64));
    assert_eq!(parsed[0]["size_human"], Value::String("1.00 KB".to_string()));
    assert_eq!(parsed[0]["kind"], Value::String("File".to_string()));
}

#[test]
fn json_matches_what_a_json_parser_reads() {
    let v = vec![
        entry("root", 300, EntryKind::Directory),
        entry("root/a.txt", 100, EntryKind::File),
    ];
    let parsed: Value = serde_json::from_str(&render_json(&v)).unwrap();
    let arr = parsed.as_array().unwrap();
    assert_eq!(arr.len(), 2);
    assert_eq!(arr[0]["kind"], Value::String("Directory".to_string()));
    assert_eq!(arr[1]["path"], Value::String("root/a.txt".to_string()));
}
