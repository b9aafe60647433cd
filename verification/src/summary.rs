//! The scan summary.
//!
//! The summary counts the entries of both maps, adds every file size and
//! every directory total into one combined figure — nested content counts
//! once per ancestor, a deliberate double count — and ranks the five
//! largest directories and the five largest files.

use vstd::prelude::*;
use vstd::string::StringExecFns;
use crate::aggregate::ScanMaps;
use crate::entries::{
    entries_view, entry_of, sort_entries_desc, sorted_desc, EntryKind, FileEntry, FileEntryV,
};
use crate::entries::make_entry;
use crate::human::{dec_string, format_size, spec_dec, spec_format_size};
use crate::size_map::SizeMap;

verus! {

/// The views of a vector of lines.
pub open spec fn lines_view(v: Seq<String>) -> Seq<Seq<char>> {
    v.map_values(|s: String| s@)
}

/// The entry views one map merges into, in map order.
pub open spec fn spec_map_entry_views(m: Seq<(Seq<char>, u64)>, kind: EntryKind) -> Seq<
    FileEntryV,
> {
    m.map_values(|p: (Seq<char>, u64)| entry_of(p, kind))
}

/// The sum of all totals a map holds.
pub open spec fn spec_values_sum(m: Seq<(Seq<char>, u64)>) -> nat
    decreases m.len(),
{
    if m.len() == 0 {
        0
    } else {
        spec_values_sum(m.drop_last()) + m.last().1 as nat
    }
}

/// Prefix sums never exceed the whole sum.
proof fn lemma_values_sum_prefix(m: Seq<(Seq<char>, u64)>, i: int)
    requires
        0 <= i <= m.len(),
    ensures
        spec_values_sum(m.take(i)) <= spec_values_sum(m),
    decreases m.len() - i,
{
    if i == m.len() {
        assert(m.take(i) =~= m);
    } else {
        lemma_values_sum_prefix(m, i + 1);
        assert(m.take(i + 1).drop_last() =~= m.take(i));
        assert(m.take(i + 1).last() == m[i]);
    }
}

/// The sum of a map's totals, when it fits a machine word.
pub fn values_total(m: &SizeMap) -> (r: Option<u64>)
    ensures
        r matches Some(t) ==> t == spec_values_sum(m@),
        r is None ==> spec_values_sum(m@) > u64::MAX,
{
    let mut acc: u64 = 0;
    let mut i: usize = 0;
    while i < m.pairs.len()
        invariant
            i <= m@.len(),
            acc == spec_values_sum(m@.take(i as int)),
        decreases m@.len() - i,
    {
        proof {
            assert(m@.take(i + 1).drop_last() =~= m@.take(i as int));
            assert(m@.take(i + 1).last() == m@[i as int]);
        }
        acc = match acc.checked_add(m.pairs[i].1) {
            Some(a) => a,
            None => {
                proof {
                    lemma_values_sum_prefix(m@, i + 1);
                }
                return None;
            },
        };
        i += 1;
    }
    proof {
        assert(m@.take(m@.len() as int) =~= m@);
    }
    Some(acc)
}

/// The combined total of a scan: every file size plus every directory
/// total, when it fits a machine word.
pub fn scan_total(maps: &ScanMaps) -> (r: Option<u64>)
    ensures
        r matches Some(t) ==> t == spec_values_sum(maps.files@) + spec_values_sum(maps.dirs@),
        r is None ==> spec_values_sum(maps.files@) + spec_values_sum(maps.dirs@) > u64::MAX,
{
    let ft = match values_total(&maps.files) {
        Some(t) => t,
        None => {
            return None;
        },
    };
    let dt = match values_total(&maps.dirs) {
        Some(t) => t,
        None => {
            return None;
        },
    };
    ft.checked_add(dt)
}

/// The entries of one map, in map order, all of one kind.
pub fn entries_of_map(m: &SizeMap, kind: EntryKind) -> (v: Vec<FileEntry>)
    ensures
        v@.len() == m@.len(),
        forall|i: int|
            0 <= i < v@.len() ==> (#[trigger] v@[i])@ == crate::entries::entry_of(m@[i], kind),
{
    let mut v: Vec<FileEntry> = Vec::new();
    let mut i: usize = 0;
    while i < m.pairs.len()
        invariant
            i <= m@.len(),
            v@.len() == i,
            forall|j: int|
                0 <= j < i ==> (#[trigger] v@[j])@ == crate::entries::entry_of(m@[j], kind),
        decreases m@.len() - i,
    {
        let e = make_entry(&m.pairs[i].0, m.pairs[i].1, kind);
        v.push(e);
        i += 1;
    }
    v
}

/// One ranked line of the summary.
pub open spec fn spec_rank_line(rank: nat, e: FileEntryV) -> Seq<char> {
    spec_dec(rank) + ". "@ + e.path + " ("@ + e.size_human + ")"@
}

/// The ranked lines for the up-to-five largest entries of a sorted list.
pub open spec fn spec_rank_lines(s: Seq<FileEntryV>) -> Seq<Seq<char>> {
    Seq::new(
        if s.len() < 5 {
            s.len()
        } else {
            5
        },
        |i: int| spec_rank_line((i + 1) as nat, s[i]),
    )
}

/// Every line of the summary, given both counts, the combined total and the
/// two sorted entry lists.
pub open spec fn spec_summary_lines(
    nf: nat,
    nd: nat,
    total: u64,
    ds: Seq<FileEntryV>,
    fs: Seq<FileEntryV>,
) -> Seq<Seq<char>> {
    seq![
        ""@,
        "Scan Summary:"@,
        "-------------"@,
        "Total files: "@ + spec_dec(nf),
        "Total folders: "@ + spec_dec(nd),
        "Total size: "@ + spec_format_size(total),
        ""@,
        "Top 5 folders:"@,
    ] + spec_rank_lines(ds) + seq![""@, "Top 5 files:"@] + spec_rank_lines(fs)
}

/// Append the up-to-five ranked lines of a sorted entry list.
fn push_rank_lines(v: &mut Vec<String>, s: &Vec<FileEntry>)
    ensures
        final(v)@.len() == old(v)@.len() + spec_rank_lines(entries_view(s@)).len(),
        forall|m: int|
            0 <= m < old(v)@.len() ==> #[trigger] final(v)@[m] == old(v)@[m],
        forall|m: int|
            old(v)@.len() <= m < final(v)@.len() ==> (#[trigger] final(v)@[m])@ == spec_rank_lines(
                entries_view(s@),
            )[m - old(v)@.len()],
{
    let top = if s.len() < 5 {
        s.len()
    } else {
        5
    };
    let mut i: usize = 0;
    while i < top
        invariant
            i <= top,
            top == spec_rank_lines(entries_view(s@)).len(),
            top <= s@.len(),
            v@.len() == old(v)@.len() + i,
            forall|m: int| 0 <= m < old(v)@.len() ==> #[trigger] v@[m] == old(v)@[m],
            forall|m: int|
                old(v)@.len() <= m < v@.len() ==> (#[trigger] v@[m])@ == spec_rank_lines(
                    entries_view(s@),
                )[m - old(v)@.len()],
        decreases top - i,
    {
        let mut line = dec_string((i as u64) + 1);
        line.append(". ");
        line.append(s[i].path.as_str());
        line.append(" (");
        line.append(s[i].size_human.as_str());
        line.append(")");
        proof {
            assert(line@ =~= spec_rank_line((i + 1) as nat, entries_view(s@)[i as int]));
        }
        v.push(line);
        i += 1;
    }
}

/// The ranked halves of the summary: the directory entries and the file
/// entries, each sorted largest first, holding exactly the map's rows.
pub fn summary_inputs(maps: &ScanMaps) -> (r: (Vec<FileEntry>, Vec<FileEntry>))
    ensures
        sorted_desc(entries_view(r.0@)),
        sorted_desc(entries_view(r.1@)),
        entries_view(r.0@).to_multiset() == spec_map_entry_views(
            maps.dirs@,
            EntryKind::Directory,
        ).to_multiset(),
        entries_view(r.1@).to_multiset() == spec_map_entry_views(
            maps.files@,
            EntryKind::File,
        ).to_multiset(),
{
    let de = entries_of_map(&maps.dirs, EntryKind::Directory);
    let fe = entries_of_map(&maps.files, EntryKind::File);
    proof {
        assert(entries_view(de@) =~= spec_map_entry_views(maps.dirs@, EntryKind::Directory));
        assert(entries_view(fe@) =~= spec_map_entry_views(maps.files@, EntryKind::File));
    }
    let ds = sort_entries_desc(de);
    let fs = sort_entries_desc(fe);
    (ds, fs)
}

/// Render the whole summary: the fixed heading, the counts, the combined
/// total, and the five largest directories and files with 1-based ranks.
pub fn render_summary(
    maps: &ScanMaps,
    dirs_sorted: &Vec<FileEntry>,
    files_sorted: &Vec<FileEntry>,
    total: u64,
) -> (v: Vec<String>)
    ensures
        lines_view(v@) =~= spec_summary_lines(
            maps.files@.len(),
            maps.dirs@.len(),
            total,
            entries_view(dirs_sorted@),
            entries_view(files_sorted@),
        ),
{
    let mut v: Vec<String> = Vec::new();
    v.push(String::new());
    v.push(String::from_str("Scan Summary:"));
    v.push(String::from_str("-------------"));
    let mut l3 = String::from_str("Total files: ");
    l3.append(dec_string(maps.files.len() as u64).as_str());
    v.push(l3);
    let mut l4 = String::from_str("Total folders: ");
    l4.append(dec_string(maps.dirs.len() as u64).as_str());
    v.push(l4);
    let mut l5 = String::from_str("Total size: ");
    l5.append(format_size(total).as_str());
    v.push(l5);
    v.push(String::new());
    v.push(String::from_str("Top 5 folders:"));
    push_rank_lines(&mut v, dirs_sorted);
    v.push(String::new());
    v.push(String::from_str("Top 5 files:"));
    push_rank_lines(&mut v, files_sorted);
    proof {
        reveal_strlit("");
        let ds = entries_view(dirs_sorted@);
        let fs = entries_view(files_sorted@);
        let spec = spec_summary_lines(maps.files@.len(), maps.dirs@.len(), total, ds, fs);
        let nd_top = spec_rank_lines(ds).len() as int;
        let nf_top = spec_rank_lines(fs).len() as int;
        assert(""@ =~= Seq::<char>::empty());
        assert(v@.len() == 10 + nd_top + nf_top);
        assert(spec.len() == 10 + nd_top + nf_top);
        assert forall|m: int| 0 <= m < v@.len() implies #[trigger] lines_view(v@)[m] == spec[m] by {
            assert(lines_view(v@)[m] == v@[m]@);
            if m < 8 {
                assert(spec[m] == spec_summary_lines(
                    maps.files@.len(),
                    maps.dirs@.len(),
                    total,
                    ds,
                    fs,
                )[m]);
            } else if m < 8 + nd_top {
                assert(spec[m] == spec_rank_lines(ds)[m - 8]);
            } else if m < 10 + nd_top {
                assert(spec[m] == seq![""@, "Top 5 files:"@][m - 8 - nd_top]);
            } else {
                assert(spec[m] == spec_rank_lines(fs)[m - 10 - nd_top]);
            }
        }
        assert(lines_view(v@) =~= spec);
    }
    v
}

} // verus!
