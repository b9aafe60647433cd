//! Rendering of the final entry list.
//!
//! Every mode starts from the same sorted entries.  The console form is one
//! line per entry, its human-readable size right-aligned to ten characters.
//! The CSV form holds a header row and one row per entry with the path
//! double-quoted; a quote inside a path is doubled, the one convention this
//! library fixes where the format leaves it open.  The JSON form is a
//! pretty-printed array of objects, two-space indent, with `"` and `\` and
//! control characters escaped in strings.  The summary counts both maps,
//! adds every file and every directory total into one figure (nested content
//! counts once per ancestor, by design), and ranks the five largest
//! directories and files.

use vstd::prelude::*;
use vstd::string::StrSliceExecFns;
use vstd::string::StringExecFns;
use crate::aggregate::ScanMaps;
use crate::entries::{entries_view, EntryKind, FileEntry, FileEntryV};
use crate::human::{dec_string, digit_char, format_size, spec_dec, spec_format_size};

verus! {

/// The label of an entry kind.
pub open spec fn kind_label(k: EntryKind) -> Seq<char> {
    if k == EntryKind::File {
        "File"@
    } else {
        "Directory"@
    }
}

/// The label of an entry kind.
pub fn kind_str(k: EntryKind) -> (r: &'static str)
    ensures
        r@ == kind_label(k),
{
    match k {
        EntryKind::File => "File",
        EntryKind::Directory => "Directory",
    }
}

/// `n` spaces.
pub open spec fn spec_spaces(n: nat) -> Seq<char>
    decreases n,
{
    if n == 0 {
        Seq::empty()
    } else {
        spec_spaces((n - 1) as nat) + " "@
    }
}

/// `s` padded on the left with spaces to at least width `w`.
pub open spec fn spec_pad_left(s: Seq<char>, w: nat) -> Seq<char> {
    if s.len() >= w {
        s
    } else {
        spec_spaces((w - s.len()) as nat) + s
    }
}

/// One console line: the human size right-aligned to ten characters, the
/// kind in brackets, a dash, the path.
pub open spec fn spec_console_line(e: FileEntryV) -> Seq<char> {
    spec_pad_left(e.size_human, 10) + " ["@ + kind_label(e.kind) + "] - "@ + e.path
}

/// Render one console line.
pub fn console_line(e: &FileEntry) -> (s: String)
    ensures
        s@ == spec_console_line(e@),
{
    let w = e.size_human.as_str().unicode_len();
    let mut s = String::new();
    if w < 10 {
        let pad = 10 - w;
        let mut i: usize = 0;
        while i < pad
            invariant
                i <= pad,
                s@ == spec_spaces(i as nat),
            decreases pad - i,
        {
            s.append(" ");
            i += 1;
        }
    }
    s.append(e.size_human.as_str());
    s.append(" [");
    s.append(kind_str(e.kind));
    s.append("] - ");
    s.append(e.path.as_str());
    proof {
        assert(s@ =~= spec_console_line(e@));
    }
    s
}

/// Render every console line, in entry order.
pub fn console_lines(entries: &Vec<FileEntry>) -> (v: Vec<String>)
    ensures
        v@.len() == entries@.len(),
        forall|i: int|
            0 <= i < v@.len() ==> (#[trigger] v@[i])@ == spec_console_line(entries@[i]@),
{
    let mut v: Vec<String> = Vec::new();
    let mut i: usize = 0;
    while i < entries.len()
        invariant
            i <= entries@.len(),
            v@.len() == i,
            forall|m: int|
                0 <= m < i ==> (#[trigger] v@[m])@ == spec_console_line(entries@[m]@),
        decreases entries@.len() - i,
    {
        let line = console_line(&entries[i]);
        v.push(line);
        i += 1;
    }
    v
}

/// A path in a CSV field: every embedded `"` is doubled.
pub open spec fn spec_csv_escape(s: Seq<char>) -> Seq<char>
    decreases s.len(),
{
    if s.len() == 0 {
        Seq::empty()
    } else {
        spec_csv_escape(s.drop_last()) + (if s.last() == '"' {
            "\"\""@
        } else {
            seq![s.last()]
        })
    }
}

/// Double every `"` in a path.
fn csv_escape(p: &str) -> (r: String)
    ensures
        r@ == spec_csv_escape(p@),
{
    let n = p.unicode_len();
    let mut r = String::new();
    let mut i: usize = 0;
    while i < n
        invariant
            i <= n,
            n == p@.len(),
            r@ == spec_csv_escape(p@.take(i as int)),
        decreases n - i,
    {
        proof {
            assert(p@.take(i + 1).drop_last() =~= p@.take(i as int));
            assert(p@.take(i + 1).last() == p@[i as int]);
        }
        let c = p.get_char(i);
        if c == '"' {
            r.append("\"\"");
        } else {
            push_char(&mut r, c);
            proof {
                assert(r@ =~= spec_csv_escape(p@.take(i as int)) + seq![p@[i as int]]);
            }
        }
        i += 1;
    }
    proof {
        assert(p@.take(n as int) =~= p@);
    }
    r
}

/// Append one character.
///
/// Relies on String::push: it appends exactly the given character.
#[verifier::external_body]
fn push_char(s: &mut String, c: char)
    ensures
        final(s)@ == old(s)@.push(c),
{
    s.push(c);
}

/// One CSV row: the quoted, escaped path, then the raw size, the human
/// size, and the kind, comma-separated.
pub open spec fn spec_csv_row(e: FileEntryV) -> Seq<char> {
    "\""@ + spec_csv_escape(e.path) + "\","@ + spec_dec(e.size_bytes as nat) + ","@ + e.size_human
        + ","@ + kind_label(e.kind) + "\n"@
}

/// The CSV rows of a list of entries, in order.
pub open spec fn spec_csv_rows(s: Seq<FileEntryV>) -> Seq<char>
    decreases s.len(),
{
    if s.len() == 0 {
        Seq::empty()
    } else {
        spec_csv_rows(s.drop_last()) + spec_csv_row(s.last())
    }
}

/// The whole CSV text: the fixed header, then one row per entry.
pub open spec fn spec_csv_text(s: Seq<FileEntryV>) -> Seq<char> {
    "path,size_bytes,size_human,kind\n"@ + spec_csv_rows(s)
}

/// Render one CSV row.
fn csv_row(e: &FileEntry) -> (s: String)
    ensures
        s@ == spec_csv_row(e@),
{
    let mut s = String::from_str("\"");
    s.append(csv_escape(e.path.as_str()).as_str());
    s.append("\",");
    s.append(dec_string(e.size_bytes).as_str());
    s.append(",");
    s.append(e.size_human.as_str());
    s.append(",");
    s.append(kind_str(e.kind));
    s.append("\n");
    proof {
        assert(s@ =~= spec_csv_row(e@));
    }
    s
}

/// Render the whole CSV text for the final entry list.
pub fn render_csv(entries: &Vec<FileEntry>) -> (s: String)
    ensures
        s@ == spec_csv_text(entries_view(entries@)),
{
    let ghost whole = entries_view(entries@);
    let mut s = String::from_str("path,size_bytes,size_human,kind\n");
    let mut i: usize = 0;
    while i < entries.len()
        invariant
            i <= entries@.len(),
            whole == entries_view(entries@),
            whole.len() == entries@.len(),
            s@ == "path,size_bytes,size_human,kind\n"@ + spec_csv_rows(whole.take(i as int)),
        decreases entries@.len() - i,
    {
        proof {
            assert(whole.take(i + 1).drop_last() =~= whole.take(i as int));
            assert(whole.take(i + 1).last() == whole[i as int]);
            assert(whole[i as int] == entries@[i as int]@);
        }
        let row = csv_row(&entries[i]);
        s.append(row.as_str());
        proof {
            assert(s@ =~= "path,size_bytes,size_human,kind\n"@ + spec_csv_rows(
                whole.take(i + 1),
            ));
        }
        i += 1;
    }
    proof {
        assert(whole.take(whole.len() as int) =~= whole);
    }
    s
}

/// A hexadecimal digit, lower case.
pub open spec fn hex_char(d: nat) -> char {
    if d < 10 {
        digit_char(d)
    } else if d == 10 {
        'a'
    } else if d == 11 {
        'b'
    } else if d == 12 {
        'c'
    } else if d == 13 {
        'd'
    } else if d == 14 {
        'e'
    } else {
        'f'
    }
}

/// The one-character string of a hexadecimal digit.
fn hex_str(d: u32) -> (r: &'static str)
    requires
        d < 16,
    ensures
        r@ == seq![hex_char(d as nat)],
{
    proof {
        reveal_strlit("0");
        reveal_strlit("1");
        reveal_strlit("2");
        reveal_strlit("3");
        reveal_strlit("4");
        reveal_strlit("5");
        reveal_strlit("6");
        reveal_strlit("7");
        reveal_strlit("8");
        reveal_strlit("9");
        reveal_strlit("a");
        reveal_strlit("b");
        reveal_strlit("c");
        reveal_strlit("d");
        reveal_strlit("e");
        reveal_strlit("f");
        assert("0"@ =~= seq![hex_char(0)]);
        assert("1"@ =~= seq![hex_char(1)]);
        assert("2"@ =~= seq![hex_char(2)]);
        assert("3"@ =~= seq![hex_char(3)]);
        assert("4"@ =~= seq![hex_char(4)]);
        assert("5"@ =~= seq![hex_char(5)]);
        assert("6"@ =~= seq![hex_char(6)]);
        assert("7"@ =~= seq![hex_char(7)]);
        assert("8"@ =~= seq![hex_char(8)]);
        assert("9"@ =~= seq![hex_char(9)]);
        assert("a"@ =~= seq![hex_char(10)]);
        assert("b"@ =~= seq![hex_char(11)]);
        assert("c"@ =~= seq![hex_char(12)]);
        assert("d"@ =~= seq![hex_char(13)]);
        assert("e"@ =~= seq![hex_char(14)]);
        assert("f"@ =~= seq![hex_char(15)]);
    }
    match d {
        0 => "0",
        1 => "1",
        2 => "2",
        3 => "3",
        4 => "4",
        5 => "5",
        6 => "6",
        7 => "7",
        8 => "8",
        9 => "9",
        10 => "a",
        11 => "b",
        12 => "c",
        13 => "d",
        14 => "e",
        _ => "f",
    }
}

/// The JSON escape of one character: `"` and `\` get a backslash, the named
/// control characters their short form, other control characters the
/// `\u00..` form, and everything else stands as it is.
pub open spec fn spec_json_escape_char(c: char) -> Seq<char> {
    if c == '"' {
        "\\\""@
    } else if c == '\\' {
        "\\\\"@
    } else if c == '\u{8}' {
        "\\b"@
    } else if c == '\t' {
        "\\t"@
    } else if c == '\n' {
        "\\n"@
    } else if c == '\u{c}' {
        "\\f"@
    } else if c == '\r' {
        "\\r"@
    } else if (c as u32) < 32 {
        "\\u00"@ + seq![hex_char((c as u32 / 16) as nat), hex_char((c as u32 % 16) as nat)]
    } else {
        seq![c]
    }
}

/// The JSON escape of a string.
pub open spec fn spec_json_escape(s: Seq<char>) -> Seq<char>
    decreases s.len(),
{
    if s.len() == 0 {
        Seq::empty()
    } else {
        spec_json_escape(s.drop_last()) + spec_json_escape_char(s.last())
    }
}

/// Escape a string for a JSON string literal.
fn json_escape(p: &str) -> (r: String)
    ensures
        r@ == spec_json_escape(p@),
{
    let n = p.unicode_len();
    let mut r = String::new();
    let mut i: usize = 0;
    while i < n
        invariant
            i <= n,
            n == p@.len(),
            r@ == spec_json_escape(p@.take(i as int)),
        decreases n - i,
    {
        proof {
            assert(p@.take(i + 1).drop_last() =~= p@.take(i as int));
            assert(p@.take(i + 1).last() == p@[i as int]);
        }
        let c = p.get_char(i);
        if c == '"' {
            r.append("\\\"");
        } else if c == '\\' {
            r.append("\\\\");
        } else if c == '\u{8}' {
            r.append("\\b");
        } else if c == '\t' {
            r.append("\\t");
        } else if c == '\n' {
            r.append("\\n");
        } else if c == '\u{c}' {
            r.append("\\f");
        } else if c == '\r' {
            r.append("\\r");
        } else if (c as u32) < 32 {
            let u = c as u32;
            r.append("\\u00");
            r.append(hex_str(u / 16));
            r.append(hex_str(u % 16));
            proof {
                assert(r@ =~= spec_json_escape(p@.take(i as int)) + spec_json_escape_char(
                    p@[i as int],
                ));
            }
        } else {
            push_char(&mut r, c);
            proof {
                assert(r@ =~= spec_json_escape(p@.take(i as int)) + spec_json_escape_char(
                    p@[i as int],
                ));
            }
        }
        i += 1;
    }
    proof {
        assert(p@.take(n as int) =~= p@);
    }
    r
}

/// One pretty-printed JSON object for an entry: two-space indent, the four
/// fields in order.
pub open spec fn spec_json_object(e: FileEntryV) -> Seq<char> {
    "  {\n    \"path\": \""@ + spec_json_escape(e.path) + "\",\n    \"size_bytes\": "@ + spec_dec(
        e.size_bytes as nat,
    ) + ",\n    \"size_human\": \""@ + e.size_human + "\",\n    \"kind\": \""@ + kind_label(e.kind)
        + "\"\n  }"@
}

/// The comma-separated objects of a non-empty entry list.
pub open spec fn spec_json_objects(s: Seq<FileEntryV>) -> Seq<char>
    decreases s.len(),
{
    if s.len() <= 1 {
        if s.len() == 0 {
            Seq::empty()
        } else {
            spec_json_object(s[0])
        }
    } else {
        spec_json_objects(s.drop_last()) + ",\n"@ + spec_json_object(s.last())
    }
}

/// The whole pretty-printed JSON array.
pub open spec fn spec_json_text(s: Seq<FileEntryV>) -> Seq<char> {
    if s.len() == 0 {
        "[]"@
    } else {
        "[\n"@ + spec_json_objects(s) + "\n]"@
    }
}

/// Render one JSON object.
fn json_object(e: &FileEntry) -> (s: String)
    ensures
        s@ == spec_json_object(e@),
{
    let mut s = String::from_str("  {\n    \"path\": \"");
    s.append(json_escape(e.path.as_str()).as_str());
    s.append("\",\n    \"size_bytes\": ");
    s.append(dec_string(e.size_bytes).as_str());
    s.append(",\n    \"size_human\": \"");
    s.append(e.size_human.as_str());
    s.append("\",\n    \"kind\": \"");
    s.append(kind_str(e.kind));
    s.append("\"\n  }");
    proof {
        assert(s@ =~= spec_json_object(e@));
    }
    s
}

/// Render the final entry list as a pretty-printed JSON array, exactly as a
/// two-space pretty printer writes it.
pub fn render_json(entries: &Vec<FileEntry>) -> (s: String)
    ensures
        s@ == spec_json_text(entries_view(entries@)),
{
    let ghost whole = entries_view(entries@);
    if entries.len() == 0 {
        let s = String::from_str("[]");
        return s;
    }
    let mut s = String::from_str("[\n");
    let mut i: usize = 0;
    while i < entries.len()
        invariant
            i <= entries@.len(),
            entries@.len() > 0,
            whole == entries_view(entries@),
            whole.len() == entries@.len(),
            s@ == "[\n"@ + spec_json_objects(whole.take(i as int)),
        decreases entries@.len() - i,
    {
        proof {
            assert(whole.take(i + 1).drop_last() =~= whole.take(i as int));
            assert(whole.take(i + 1).last() == whole[i as int]);
            assert(whole[i as int] == entries@[i as int]@);
            if i == 0 {
                assert(whole.take(1)[0] == whole[0]);
            }
        }
        if i > 0 {
            s.append(",\n");
        }
        let obj = json_object(&entries[i]);
        s.append(obj.as_str());
        proof {
            assert(s@ =~= "[\n"@ + spec_json_objects(whole.take(i + 1)));
        }
        i += 1;
    }
    s.append("\n]");
    proof {
        assert(whole.take(whole.len() as int) =~= whole);
        assert(s@ =~= spec_json_text(whole));
    }
    s
}

} // verus!
