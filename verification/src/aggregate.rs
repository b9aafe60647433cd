//! Bottom-up size aggregation.
//!
//! Each surviving file is recorded under its path, and its size is added to
//! the running total of every directory on its ancestor chain, so directory
//! totals are built without a second pass.  A file at or below the threshold
//! contributes to neither map.  In an unfiltered scan the directories seen by
//! the walk are recorded too, so that a directory holding no surviving file
//! still appears with total 0; under a threshold only files above it leave
//! any trace.  The final totals depend only on which records were processed,
//! never on their order.

use vstd::prelude::*;
use crate::pathmodel::{ancestor_seq, ancestors_of, is_ancestor_of, lemma_ancestors_distinct};
use crate::size_map::{map_contains, map_get, SizeMap};

verus! {

/// A regular file found by the walk: its path and its byte size.
pub struct FileRec {
    pub path: String,
    pub size: u64,
}

/// The mathematical shadow of a file record.
pub ghost struct FileRecV {
    pub path: Seq<char>,
    pub size: u64,
}

impl View for FileRec {
    type V = FileRecV;

    open spec fn view(&self) -> FileRecV {
        FileRecV { path: self.path@, size: self.size }
    }
}

/// The records of a vector of file records.
pub open spec fn recs_view(v: Seq<FileRec>) -> Seq<FileRecV> {
    v.map_values(|r: FileRec| r@)
}

/// The selectable minimum-size filters, each a count of mebibytes.
#[derive(Clone, Copy, PartialEq, Eq, Structural, Debug)]
pub enum SkipLimit {
    Skip64,
    Skip128,
    Skip256,
    Skip512,
    Skip1024,
    Skip2048,
}

/// The byte cutoff of a filter: its mebibyte count times 1024 * 1024.
pub open spec fn spec_threshold_bytes(s: SkipLimit) -> u64 {
    match s {
        SkipLimit::Skip64 => 67108864,
        SkipLimit::Skip128 => 134217728,
        SkipLimit::Skip256 => 268435456,
        SkipLimit::Skip512 => 536870912,
        SkipLimit::Skip1024 => 1073741824,
        SkipLimit::Skip2048 => 2147483648,
    }
}

/// The byte cutoff of a filter.
pub fn threshold_bytes(s: SkipLimit) -> (r: u64)
    ensures
        r == spec_threshold_bytes(s),
{
    match s {
        SkipLimit::Skip64 => 64 * 1024 * 1024,
        SkipLimit::Skip128 => 128 * 1024 * 1024,
        SkipLimit::Skip256 => 256 * 1024 * 1024,
        SkipLimit::Skip512 => 512 * 1024 * 1024,
        SkipLimit::Skip1024 => 1024 * 1024 * 1024,
        SkipLimit::Skip2048 => 2048 * 1024 * 1024,
    }
}

/// Whether a file of this size survives the threshold: no threshold keeps
/// everything, a threshold keeps strictly larger files only.
pub open spec fn passes(threshold: Option<u64>, size: u64) -> bool {
    match threshold {
        None => true,
        Some(limit) => size > limit,
    }
}

/// What one record adds to the total of directory `d`.
pub open spec fn contribution_of(d: Seq<char>, r: FileRecV, threshold: Option<u64>) -> nat {
    if passes(threshold, r.size) && is_ancestor_of(d, r.path) {
        r.size as nat
    } else {
        0
    }
}

/// The total attributed to directory `d` by a sequence of records: the sum
/// of the sizes of the surviving files whose ancestor chain holds `d`.
pub open spec fn dir_total(d: Seq<char>, recs: Seq<FileRecV>, threshold: Option<u64>) -> nat
    decreases recs.len(),
{
    if recs.len() == 0 {
        0
    } else {
        dir_total(d, recs.drop_last(), threshold) + contribution_of(d, recs.last(), threshold)
    }
}

/// The sum of all record sizes, surviving or not.
pub open spec fn sum_sizes(recs: Seq<FileRecV>) -> nat
    decreases recs.len(),
{
    if recs.len() == 0 {
        0
    } else {
        sum_sizes(recs.drop_last()) + recs.last().size as nat
    }
}

/// No two records name the same path.
pub open spec fn distinct_paths(recs: Seq<FileRecV>) -> bool {
    forall|i: int, j: int|
        0 <= i < j < recs.len() ==> (#[trigger] recs[i]).path != (#[trigger] recs[j]).path
}

/// A directory's total never exceeds the sum of all record sizes.
pub proof fn lemma_dir_total_le_sum(d: Seq<char>, recs: Seq<FileRecV>, threshold: Option<u64>)
    ensures
        dir_total(d, recs, threshold) <= sum_sizes(recs),
    decreases recs.len(),
{
    if recs.len() > 0 {
        lemma_dir_total_le_sum(d, recs.drop_last(), threshold);
    }
}

/// Prefix sums never exceed the whole sum.
pub proof fn lemma_sum_sizes_prefix(recs: Seq<FileRecV>, i: int)
    requires
        0 <= i <= recs.len(),
    ensures
        sum_sizes(recs.take(i)) <= sum_sizes(recs),
    decreases recs.len() - i,
{
    if i == recs.len() {
        assert(recs.take(i) =~= recs);
    } else {
        lemma_sum_sizes_prefix(recs, i + 1);
        assert(recs.take(i + 1).drop_last() =~= recs.take(i));
        assert(recs.take(i + 1).last() == recs[i]);
    }
}

/// Removing one record takes exactly its contribution out of a directory's
/// total.
pub proof fn lemma_dir_total_remove(
    d: Seq<char>,
    recs: Seq<FileRecV>,
    j: int,
    threshold: Option<u64>,
)
    requires
        0 <= j < recs.len(),
    ensures
        dir_total(d, recs.remove(j), threshold) + contribution_of(d, recs[j], threshold) == dir_total(
            d,
            recs,
            threshold,
        ),
    decreases recs.len(),
{
    if j == recs.len() - 1 {
        assert(recs.remove(j) =~= recs.drop_last());
    } else {
        assert(recs.remove(j).drop_last() =~= recs.drop_last().remove(j));
        assert(recs.remove(j).last() == recs.last());
        lemma_dir_total_remove(d, recs.drop_last(), j, threshold);
    }
}

/// Directory totals do not depend on the order in which the files are
/// processed: any two sequences holding the same records give every
/// directory the same total.
pub proof fn lemma_dir_total_order_independent(
    d: Seq<char>,
    s1: Seq<FileRecV>,
    s2: Seq<FileRecV>,
    threshold: Option<u64>,
)
    requires
        s1.to_multiset() == s2.to_multiset(),
    ensures
        dir_total(d, s1, threshold) == dir_total(d, s2, threshold),
    decreases s1.len(),
{
    broadcast use vstd::seq_lib::group_to_multiset_ensures;

    if s1.len() == 0 {
        assert(s1.to_multiset().len() == 0);
        assert(s2.to_multiset().len() == s2.len());
        assert(s2.len() == 0);
    } else {
        let r = s1.last();
        assert(s1 =~= s1.drop_last().push(r));
        assert(s1.to_multiset() =~= s1.drop_last().to_multiset().insert(r));
        assert(s2.to_multiset().count(r) > 0);
        assert(s2.contains(r));
        let j = choose|j: int| 0 <= j < s2.len() && s2[j] == r;
        assert(s2.remove(j).to_multiset() =~= s2.to_multiset().remove(r));
        assert(s1.drop_last().to_multiset() =~= s2.remove(j).to_multiset());
        lemma_dir_total_order_independent(d, s1.drop_last(), s2.remove(j), threshold);
        lemma_dir_total_remove(d, s2, j, threshold);
    }
}

/// The two maps of one scan: each surviving file's size under its path, and
/// each directory's accumulated total.
pub struct ScanMaps {
    pub files: SizeMap,
    pub dirs: SizeMap,
}

impl ScanMaps {
    pub open spec fn wf(&self) -> bool {
        self.files.wf() && self.dirs.wf()
    }

    pub fn new() -> (r: Self)
        ensures
            r.wf(),
            r.files@ =~= Seq::<(Seq<char>, u64)>::empty(),
            r.dirs@ =~= Seq::<(Seq<char>, u64)>::empty(),
    {
        ScanMaps { files: SizeMap::new(), dirs: SizeMap::new() }
    }

    /// Note a directory seen by the walk.  In an unfiltered scan it enters
    /// the directory map with total 0 if it is new; under a threshold the
    /// sighting leaves no trace.
    pub fn record_dir(&mut self, path: &String, threshold: Option<u64>)
        requires
            old(self).wf(),
        ensures
            final(self).wf(),
            final(self).files@ == old(self).files@,
            forall|k: Seq<char>|
                map_contains(final(self).dirs@, k) <==> map_contains(old(self).dirs@, k) || (
                threshold is None && k == path@),
            forall|k: Seq<char>| map_get(final(self).dirs@, k) == map_get(old(self).dirs@, k),
    {
        if threshold.is_none() {
            self.dirs.ensure_key(path);
        }
    }

    /// Process one file record: a file at or below the threshold is
    /// discarded whole; a surviving file is recorded under its path, and its
    /// size is added to the total of every directory on its ancestor chain.
    #[verifier::loop_isolation(false)]
    pub fn record_file(&mut self, rec: &FileRec, threshold: Option<u64>)
        requires
            old(self).wf(),
            !map_contains(old(self).files@, rec.path@),
            forall|d: Seq<char>| map_get(old(self).dirs@, d) + rec.size <= u64::MAX,
        ensures
            final(self).wf(),
            final(self).files@ == if passes(threshold, rec.size) {
                old(self).files@.push((rec.path@, rec.size))
            } else {
                old(self).files@
            },
            forall|k: Seq<char>|
                #![trigger map_contains(final(self).files@, k)]
                map_contains(final(self).files@, k) <==> map_contains(old(self).files@, k) || (
                passes(threshold, rec.size) && k == rec.path@),
            forall|k: Seq<char>|
                map_get(final(self).files@, k) == if passes(threshold, rec.size) && k == rec.path@ {
                    rec.size
                } else {
                    map_get(old(self).files@, k)
                },
            forall|d: Seq<char>|
                #![trigger map_contains(final(self).dirs@, d)]
                map_contains(final(self).dirs@, d) <==> map_contains(old(self).dirs@, d) || (
                passes(threshold, rec.size) && is_ancestor_of(d, rec.path@)),
            forall|d: Seq<char>|
                map_get(final(self).dirs@, d) == map_get(old(self).dirs@, d) + contribution_of(
                    d,
                    rec@,
                    threshold,
                ),
    {
        if let Some(limit) = threshold {
            if rec.size <= limit {
                return ;
            }
        }
        self.files.insert_new(&rec.path, rec.size);
        let ancs = ancestors_of(&rec.path);
        let ghost chain = ancestor_seq(rec.path@);
        let ghost dirs0 = self.dirs@;
        let mut k: usize = 0;
        while k < ancs.len()
            invariant
                self.files.wf(),
                self.dirs.wf(),
                self.files@ == old(self).files@.push((rec.path@, rec.size)),
                k <= ancs.len(),
                ancs@.len() == chain.len(),
                forall|m: int| 0 <= m < chain.len() ==> #[trigger] ancs@[m]@ == chain[m],
                chain == ancestor_seq(rec.path@),
                dirs0 == old(self).dirs@,
                forall|d: Seq<char>|
                    #![trigger map_contains(self.dirs@, d)]
                    map_contains(self.dirs@, d) <==> map_contains(dirs0, d) || in_first(
                        chain,
                        k as int,
                        d,
                    ),
                forall|d: Seq<char>|
                    #![trigger map_get(self.dirs@, d)]
                    map_get(self.dirs@, d) == map_get(dirs0, d) + if in_first(chain, k as int, d) {
                        rec.size as int
                    } else {
                        0
                    },
            decreases ancs.len() - k,
        {
            let ghost pre_dirs = self.dirs@;
            proof {
                lemma_ancestors_distinct(rec.path@);
                // The ancestor at `k` has not been counted yet: the chain
                // holds no path twice.
                assert(!in_first(chain, k as int, chain[k as int]));
                assert(map_get(self.dirs@, chain[k as int]) == map_get(dirs0, chain[k as int]));
            }
            self.dirs.add_to(&ancs[k], rec.size);
            proof {
                assert forall|d: Seq<char>|
                    in_first(chain, k + 1, d) <==> in_first(chain, k as int, d) || d == chain[k as int] by {
                    if in_first(chain, k + 1, d) {
                        let m = choose|m: int|
                            0 <= m < k + 1 && m < chain.len() && chain[m] == d;
                        if m < k {
                            assert(in_first(chain, k as int, d));
                        }
                    }
                    if in_first(chain, k as int, d) {
                        let m = choose|m: int| 0 <= m < k && m < chain.len() && chain[m] == d;
                        assert(0 <= m < k + 1 && m < chain.len() && chain[m] == d);
                        assert(in_first(chain, k + 1, d));
                    }
                    if d == chain[k as int] {
                        assert(0 <= k < k + 1 && (k as int) < chain.len() && chain[k as int] == d);
                        assert(in_first(chain, k + 1, d));
                    }
                }
                assert forall|d: Seq<char>|
                    map_contains(self.dirs@, d) <==> map_contains(dirs0, d) || in_first(
                        chain,
                        k + 1,
                        d,
                    ) by {
                    assert(map_contains(pre_dirs, d) <==> map_contains(dirs0, d) || in_first(
                        chain,
                        k as int,
                        d,
                    ));
                    assert(map_contains(self.dirs@, d) <==> map_contains(pre_dirs, d) || d
                        == chain[k as int]);
                }
                assert forall|d: Seq<char>|
                    map_get(self.dirs@, d) == map_get(dirs0, d) + (if in_first(chain, k + 1, d) {
                        rec.size as int
                    } else {
                        0
                    }) by {
                    assert(map_get(pre_dirs, d) == map_get(dirs0, d) + (if in_first(
                        chain,
                        k as int,
                        d,
                    ) {
                        rec.size as int
                    } else {
                        0
                    }));
                    assert(map_get(self.dirs@, d) == map_get(pre_dirs, d) + (if d == chain[
                        k as int
                    ] {
                        rec.size as int
                    } else {
                        0
                    }));
                    if d == chain[k as int] {
                        assert(!in_first(chain, k as int, d));
                    }
                }
            }
            k += 1;
        }
        proof {
            assert forall|d: Seq<char>|
                in_first(chain, chain.len() as int, d) <==> is_ancestor_of(d, rec.path@) by {
                if is_ancestor_of(d, rec.path@) {
                    let m = choose|m: int| 0 <= m < chain.len() && chain[m] == d;
                    assert(0 <= m < chain.len() as int && m < chain.len() && chain[m] == d);
                    assert(in_first(chain, chain.len() as int, d));
                }
                if in_first(chain, chain.len() as int, d) {
                    let m = choose|m: int|
                        0 <= m < chain.len() as int && m < chain.len() && chain[m] == d;
                    assert(chain[m] == d);
                    assert(chain.contains(d));
                }
            }
        }
    }
}

/// Whether `d` occurs among the first `k` links of the chain.
pub open spec fn in_first(chain: Seq<Seq<char>>, k: int, d: Seq<char>) -> bool {
    exists|m: int| 0 <= m < k && m < chain.len() && chain[m] == d
}

/// Run a whole scan: note every directory the walk saw, then process every
/// file record.  The resulting maps are a function of the record set alone:
/// every surviving file sits in the file map under its exact size, and every
/// directory total equals the sum of the surviving files below it.
#[verifier::loop_isolation(false)]
pub fn scan_records(
    file_recs: &Vec<FileRec>,
    dir_paths: &Vec<String>,
    threshold: Option<u64>,
) -> (r: ScanMaps)
    requires
        distinct_paths(recs_view(file_recs@)),
        sum_sizes(recs_view(file_recs@)) <= u64::MAX,
    ensures
        r.wf(),
        forall|p: Seq<char>|
            map_contains(r.files@, p) <==> exists|i: int|
                0 <= i < file_recs@.len() && (#[trigger] recs_view(file_recs@)[i]).path == p
                    && passes(threshold, recs_view(file_recs@)[i].size),
        forall|i: int|
            0 <= i < file_recs@.len() && passes(threshold, (#[trigger] recs_view(file_recs@)[i]).size)
                ==> map_get(r.files@, recs_view(file_recs@)[i].path) == recs_view(file_recs@)[i].size,
        forall|d: Seq<char>|
            map_get(r.dirs@, d) == dir_total(d, recs_view(file_recs@), threshold),
        forall|d: Seq<char>|
            map_contains(r.dirs@, d) <==> (exists|i: int|
                0 <= i < file_recs@.len() && passes(
                    threshold,
                    (#[trigger] recs_view(file_recs@)[i]).size,
                ) && is_ancestor_of(d, recs_view(file_recs@)[i].path)) || (threshold is None
                && exists|j: int| 0 <= j < dir_paths@.len() && #[trigger] dir_paths@[j]@ == d),
{
    let ghost recs = recs_view(file_recs@);
    let mut maps = ScanMaps::new();
    let mut j: usize = 0;
    while j < dir_paths.len()
        invariant
            maps.wf(),
            j <= dir_paths.len(),
            maps.files@ =~= Seq::<(Seq<char>, u64)>::empty(),
            forall|d: Seq<char>|
                map_contains(maps.dirs@, d) <==> (threshold is None && exists|m: int|
                    0 <= m < j && #[trigger] dir_paths@[m]@ == d),
            forall|d: Seq<char>| map_get(maps.dirs@, d) == 0,
        decreases dir_paths.len() - j,
    {
        maps.record_dir(&dir_paths[j], threshold);
        proof {
            assert forall|d: Seq<char>|
                map_contains(maps.dirs@, d) <==> (threshold is None && exists|m: int|
                    0 <= m < j + 1 && #[trigger] dir_paths@[m]@ == d) by {
                if threshold is None && d == dir_paths@[j as int]@ {
                    assert(dir_paths@[j as int]@ == d);
                }
            }
        }
        j += 1;
    }
    let mut i: usize = 0;
    while i < file_recs.len()
        invariant
            maps.wf(),
            i <= file_recs.len(),
            recs == recs_view(file_recs@),
            distinct_paths(recs),
            sum_sizes(recs) <= u64::MAX,
            forall|p: Seq<char>|
                map_contains(maps.files@, p) <==> exists|m: int|
                    0 <= m < i && (#[trigger] recs[m]).path == p && passes(threshold, recs[m].size),
            forall|m: int|
                0 <= m < i && passes(threshold, (#[trigger] recs[m]).size) ==> map_get(
                    maps.files@,
                    recs[m].path,
                ) == recs[m].size,
            forall|d: Seq<char>|
                #![trigger map_get(maps.dirs@, d)]
                map_get(maps.dirs@, d) == dir_total(d, recs.take(i as int), threshold),
            forall|d: Seq<char>|
                #![trigger map_contains(maps.dirs@, d)]
                map_contains(maps.dirs@, d) <==> (exists|m: int|
                    0 <= m < i && passes(threshold, (#[trigger] recs[m]).size) && is_ancestor_of(
                        d,
                        recs[m].path,
                    )) || (threshold is None && exists|m: int|
                    0 <= m < dir_paths@.len() && #[trigger] dir_paths@[m]@ == d),
        decreases file_recs.len() - i,
    {
        proof {
            assert(recs[i as int] == file_recs@[i as int]@);
            // The path is new: records carry distinct paths.
            if map_contains(maps.files@, file_recs@[i as int]@.path) {
                let m = choose|m: int|
                    0 <= m < i && (#[trigger] recs[m]).path == recs[i as int].path && passes(
                        threshold,
                        recs[m].size,
                    );
                assert(false);
            }
            // No directory total can overflow: each is bounded by the sum of
            // the records seen so far, and one more size still fits.
            assert forall|d: Seq<char>|
                map_get(maps.dirs@, d) + file_recs@[i as int]@.size <= u64::MAX by {
                lemma_dir_total_le_sum(d, recs.take(i as int), threshold);
                lemma_sum_sizes_prefix(recs, i + 1);
                assert(recs.take(i + 1).drop_last() =~= recs.take(i as int));
                assert(recs.take(i + 1).last() == recs[i as int]);
            }
        }
        let ghost pre_dirs = maps.dirs@;
        maps.record_file(&file_recs[i], threshold);
        proof {
            assert(recs.take(i + 1).drop_last() =~= recs.take(i as int));
            assert(recs.take(i + 1).last() == recs[i as int]);
            assert forall|d: Seq<char>|
                map_contains(maps.dirs@, d) <==> (exists|m: int|
                    0 <= m < i + 1 && passes(threshold, (#[trigger] recs[m]).size)
                        && is_ancestor_of(d, recs[m].path)) || (threshold is None && exists|m: int|
                    0 <= m < dir_paths@.len() && #[trigger] dir_paths@[m]@ == d) by {
                assert(recs[i as int] == file_recs@[i as int]@);
                assert(map_contains(maps.dirs@, d) <==> map_contains(pre_dirs, d) || (passes(
                    threshold,
                    recs[i as int].size,
                ) && is_ancestor_of(d, recs[i as int].path)));
                assert(map_contains(pre_dirs, d) <==> (exists|m: int|
                    0 <= m < i && passes(threshold, (#[trigger] recs[m]).size) && is_ancestor_of(
                        d,
                        recs[m].path,
                    )) || (threshold is None && exists|m: int|
                    0 <= m < dir_paths@.len() && #[trigger] dir_paths@[m]@ == d));
                if map_contains(maps.dirs@, d) {
                    if passes(threshold, recs[i as int].size) && is_ancestor_of(
                        d,
                        recs[i as int].path,
                    ) {
                        assert(0 <= i < i + 1 && passes(threshold, recs[i as int].size)
                            && is_ancestor_of(d, recs[i as int].path));
                    }
                }
                if exists|m: int|
                    0 <= m < i + 1 && passes(threshold, (#[trigger] recs[m]).size)
                        && is_ancestor_of(d, recs[m].path) {
                    let m = choose|m: int|
                        0 <= m < i + 1 && passes(threshold, (#[trigger] recs[m]).size)
                            && is_ancestor_of(d, recs[m].path);
                    if m < i {
                        assert(exists|m2: int|
                            0 <= m2 < i && passes(threshold, (#[trigger] recs[m2]).size)
                                && is_ancestor_of(d, recs[m2].path));
                    }
                }
            }
            assert forall|p: Seq<char>|
                map_contains(maps.files@, p) <==> exists|m: int|
                    0 <= m < i + 1 && (#[trigger] recs[m]).path == p && passes(
                        threshold,
                        recs[m].size,
                    ) by {
                if map_contains(maps.files@, p) {
                    if passes(threshold, recs[i as int].size) && p == recs[i as int].path {
                        assert(0 <= i < i + 1 && recs[i as int].path == p && passes(
                            threshold,
                            recs[i as int].size,
                        ));
                    }
                }
            }
        }
        i += 1;
    }
    proof {
        assert(recs.take(file_recs@.len() as int) =~= recs);
    }
    maps
}

} // verus!
