//! The report entries and the filter/sort pipeline.
//!
//! The two maps of a scan are merged into one list holding an entry per file
//! and per directory.  The pipeline then drops empty directories when asked
//! to and sorts the list by size, largest first; it never invents or loses
//! an entry beyond that.

use vstd::prelude::*;
use vstd::multiset::Multiset;
use vstd::seq_lib::lemma_multiset_commutative;
use crate::aggregate::ScanMaps;
use crate::human::{format_size, spec_format_size};

verus! {

/// What a report entry stands for.
#[derive(Clone, Copy, PartialEq, Eq, Structural, Debug)]
pub enum EntryKind {
    File,
    Directory,
}

/// One row of the final report: a file, or the transitive total of a
/// directory.
pub struct FileEntry {
    pub path: String,
    pub size_bytes: u64,
    pub size_human: String,
    pub kind: EntryKind,
}

/// The mathematical shadow of a report entry.
pub ghost struct FileEntryV {
    pub path: Seq<char>,
    pub size_bytes: u64,
    pub size_human: Seq<char>,
    pub kind: EntryKind,
}

impl View for FileEntry {
    type V = FileEntryV;

    open spec fn view(&self) -> FileEntryV {
        FileEntryV {
            path: self.path@,
            size_bytes: self.size_bytes,
            size_human: self.size_human@,
            kind: self.kind,
        }
    }
}

/// The entry a map pair becomes, with its formatted size.
pub open spec fn entry_of(p: (Seq<char>, u64), kind: EntryKind) -> FileEntryV {
    FileEntryV { path: p.0, size_bytes: p.1, size_human: spec_format_size(p.1), kind }
}

/// The views of a vector of entries.
pub open spec fn entries_view(v: Seq<FileEntry>) -> Seq<FileEntryV> {
    v.map_values(|e: FileEntry| e@)
}

/// An entry survives the empty-directory filter unless it is a directory
/// with total 0.
pub open spec fn keeps(e: FileEntryV) -> bool {
    !(e.kind == EntryKind::Directory && e.size_bytes == 0)
}

/// The filter predicate as one shared closure value.
pub open spec fn keeps_pred() -> spec_fn(FileEntryV) -> bool {
    |e: FileEntryV| keeps(e)
}

/// Sorted by size, largest first.
pub open spec fn sorted_desc(s: Seq<FileEntryV>) -> bool {
    forall|i: int, j: int|
        0 <= i < j < s.len() ==> (#[trigger] s[i]).size_bytes >= (#[trigger] s[j]).size_bytes
}

/// Build one entry.
pub fn make_entry(path: &String, size: u64, kind: EntryKind) -> (e: FileEntry)
    ensures
        e@ == entry_of((path@, size), kind),
{
    FileEntry { path: path.clone(), size_bytes: size, size_human: format_size(size), kind }
}

/// Merge the two maps of a scan into one entry list: an entry per file, then
/// an entry per directory, each carrying its formatted size.
pub fn merge_entries(maps: &ScanMaps) -> (v: Vec<FileEntry>)
    ensures
        v@.len() == maps.files@.len() + maps.dirs@.len(),
        forall|m: int|
            0 <= m < maps.files@.len() ==> (#[trigger] v@[m])@ == entry_of(
                maps.files@[m],
                EntryKind::File,
            ),
        forall|m: int|
            maps.files@.len() <= m < v@.len() ==> (#[trigger] v@[m])@ == entry_of(
                maps.dirs@[m - maps.files@.len()],
                EntryKind::Directory,
            ),
{
    let mut v: Vec<FileEntry> = Vec::new();
    let nf = maps.files.pairs.len();
    let mut i: usize = 0;
    while i < nf
        invariant
            i <= nf,
            nf == maps.files@.len(),
            v@.len() == i,
            forall|m: int|
                0 <= m < i ==> (#[trigger] v@[m])@ == entry_of(maps.files@[m], EntryKind::File),
        decreases nf - i,
    {
        let e = make_entry(&maps.files.pairs[i].0, maps.files.pairs[i].1, EntryKind::File);
        v.push(e);
        i += 1;
    }
    let nd = maps.dirs.pairs.len();
    let mut j: usize = 0;
    while j < nd
        invariant
            j <= nd,
            nf == maps.files@.len(),
            nd == maps.dirs@.len(),
            v@.len() == nf + j,
            forall|m: int|
                0 <= m < nf ==> (#[trigger] v@[m])@ == entry_of(maps.files@[m], EntryKind::File),
            forall|m: int|
                nf <= m < v@.len() ==> (#[trigger] v@[m])@ == entry_of(
                    maps.dirs@[m - nf],
                    EntryKind::Directory,
                ),
        decreases nd - j,
    {
        let e = make_entry(&maps.dirs.pairs[j].0, maps.dirs.pairs[j].1, EntryKind::Directory);
        v.push(e);
        j += 1;
    }
    v
}

/// Keep only the entries the empty-directory filter keeps.
fn filter_empty_dirs(v: Vec<FileEntry>) -> (r: Vec<FileEntry>)
    ensures
        entries_view(r@) =~= entries_view(v@).filter(keeps_pred()),
{
    broadcast use vstd::seq_lib::group_filter_ensures;

    let mut r: Vec<FileEntry> = Vec::new();
    let mut i: usize = 0;
    proof {
        reveal(Seq::filter);
    }
    while i < v.len()
        invariant
            i <= v.len(),
            entries_view(r@) =~= entries_view(v@).take(i as int).filter(keeps_pred()),
        decreases v.len() - i,
    {
        proof {
            reveal(Seq::filter);
            assert(entries_view(v@).take(i + 1).drop_last() =~= entries_view(v@).take(i as int));
            assert(entries_view(v@).take(i + 1).last() == v@[i as int]@);
        }
        let keep = !(matches!(v[i].kind, EntryKind::Directory) && v[i].size_bytes == 0);
        if keep {
            let e = FileEntry {
                path: v[i].path.clone(),
                size_bytes: v[i].size_bytes,
                size_human: v[i].size_human.clone(),
                kind: v[i].kind,
            };
            r.push(e);
        }
        i += 1;
    }
    proof {
        assert(entries_view(v@).take(v@.len() as int) =~= entries_view(v@));
    }
    r
}

/// The multiset of a sequence with one element slotted in at `j` is the old
/// multiset plus that element.
proof fn lemma_to_multiset_insert(s: Seq<FileEntryV>, j: int, e: FileEntryV)
    requires
        0 <= j <= s.len(),
    ensures
        s.insert(j, e).to_multiset() =~= s.to_multiset().insert(e),
{
    broadcast use vstd::seq_lib::group_to_multiset_ensures;

    assert(s.insert(j, e) =~= s.take(j) + seq![e] + s.skip(j));
    assert(s =~= s.take(j) + s.skip(j));
    lemma_multiset_commutative(s.take(j) + seq![e], s.skip(j));
    lemma_multiset_commutative(s.take(j), seq![e]);
    lemma_multiset_commutative(s.take(j), s.skip(j));
    assert(seq![e].to_multiset() =~= Multiset::<FileEntryV>::empty().insert(e));
}

/// Put one entry into a list that is sorted largest first, in front of the
/// first strictly smaller entry, keeping the list sorted.
fn insert_desc(r: &mut Vec<FileEntry>, e: FileEntry)
    requires
        sorted_desc(entries_view(old(r)@)),
    ensures
        sorted_desc(entries_view(final(r)@)),
        entries_view(final(r)@).to_multiset() =~= entries_view(old(r)@).to_multiset().insert(e@),
        final(r)@.len() == old(r)@.len() + 1,
{
    let mut j: usize = 0;
    while j < r.len() && r[j].size_bytes >= e.size_bytes
        invariant
            j <= r@.len(),
            forall|m: int|
                0 <= m < j ==> (#[trigger] entries_view(r@)[m]).size_bytes >= e.size_bytes,
            sorted_desc(entries_view(r@)),
            r@ == old(r)@,
        decreases r@.len() - j,
    {
        j += 1;
    }
    r.insert(j, e);
    proof {
        assert(entries_view(r@) =~= entries_view(old(r)@).insert(j as int, e@));
        lemma_to_multiset_insert(entries_view(old(r)@), j as int, e@);
        let s = entries_view(r@);
        let s0 = entries_view(old(r)@);
        assert forall|a: int, b: int|
            0 <= a < b < s.len() implies (#[trigger] s[a]).size_bytes
            >= (#[trigger] s[b]).size_bytes by {
            if a < j && b == j {
            } else if a == j && b > j {
                assert(s[b] == s0[b - 1]);
                assert(s0[j as int].size_bytes < e.size_bytes || j == s0.len());
            } else if a < j && b > j {
                assert(s[a] == s0[a]);
                assert(s[b] == s0[b - 1]);
            } else if a > j && b > j {
                assert(s[a] == s0[a - 1]);
                assert(s[b] == s0[b - 1]);
            }
        }
    }
}

/// Sort the entries by size, largest first.  The result holds exactly the
/// entries it was given.
pub fn sort_entries_desc(v: Vec<FileEntry>) -> (r: Vec<FileEntry>)
    ensures
        sorted_desc(entries_view(r@)),
        entries_view(r@).to_multiset() =~= entries_view(v@).to_multiset(),
{
    broadcast use vstd::seq_lib::group_to_multiset_ensures;

    let ghost total = entries_view(v@).to_multiset();
    let mut rest = v;
    let mut r: Vec<FileEntry> = Vec::new();
    while rest.len() > 0
        invariant
            sorted_desc(entries_view(r@)),
            entries_view(r@).to_multiset().add(entries_view(rest@).to_multiset()) =~= total,
        decreases rest@.len(),
    {
        let ghost pre_rest = entries_view(rest@);
        let ghost pre_r = entries_view(r@);
        let e = rest.pop().unwrap();
        proof {
            entries_view(rest@).to_multiset_ensures();
            assert(pre_rest =~= entries_view(rest@).push(e@));
            assert((entries_view(rest@).push(e@)).to_multiset() =~= entries_view(
                rest@,
            ).to_multiset().insert(e@));
            assert(pre_rest.to_multiset() =~= entries_view(rest@).to_multiset().insert(e@));
        }
        insert_desc(&mut r, e);
        proof {
            assert(entries_view(r@).to_multiset() =~= pre_r.to_multiset().insert(e@));
            assert(entries_view(r@).to_multiset().add(entries_view(rest@).to_multiset())
                =~= pre_r.to_multiset().add(pre_rest.to_multiset()));
        }
    }
    proof {
        assert(entries_view(rest@).to_multiset() =~= Multiset::<FileEntryV>::empty());
        assert(entries_view(r@).to_multiset() =~= total);
    }
    r
}

/// Run the whole pipeline: drop empty directories when `exclude_empty` is
/// set, then sort largest first.  The result is sorted, holds exactly the
/// surviving entries, and under the filter shows no directory of total 0.
pub fn finalize_entries(v: Vec<FileEntry>, exclude_empty: bool) -> (r: Vec<FileEntry>)
    ensures
        sorted_desc(entries_view(r@)),
        entries_view(r@).to_multiset() =~= (if exclude_empty {
            entries_view(v@).filter(keeps_pred())
        } else {
            entries_view(v@)
        }).to_multiset(),
        exclude_empty ==> forall|i: int|
            0 <= i < r@.len() ==> keeps(#[trigger] entries_view(r@)[i]),
{
    broadcast use vstd::seq_lib::group_to_multiset_ensures;

    let filtered = if exclude_empty {
        filter_empty_dirs(v)
    } else {
        v
    };
    let ghost fview = entries_view(filtered@);
    let r = sort_entries_desc(filtered);
    proof {
        if exclude_empty {
            assert forall|i: int| 0 <= i < r@.len() implies keeps(
                #[trigger] entries_view(r@)[i],
            ) by {
                let s = entries_view(r@);
                assert(s.to_multiset().count(s[i]) > 0);
                assert(fview.to_multiset().count(s[i]) > 0);
                assert(fview.contains(s[i]));
                let m = choose|m: int| 0 <= m < fview.len() && fview[m] == s[i];
                assert(fview[m] == s[i]);
                entries_view(v@).lemma_filter_pred(keeps_pred(), m);
            }
        }
    }
    r
}

} // verus!
