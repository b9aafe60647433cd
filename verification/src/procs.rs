//! Process records ordered by memory use.
//!
//! The system-information provider is an outside collaborator: this module
//! only consumes plain records of pid, name and memory, sorts them largest
//! first, totals their memory, and formats kibibytes as mebibytes with two
//! decimals, as the process table shows them.

use vstd::prelude::*;
use vstd::multiset::Multiset;
use crate::human::{fixed2, spec_fixed2};

verus! {

/// One running process: its id, name, and memory in kibibytes.
pub struct ProcRec {
    pub pid: u32,
    pub name: String,
    pub memory_kb: u64,
}

/// The mathematical shadow of a process record.
pub ghost struct ProcRecV {
    pub pid: u32,
    pub name: Seq<char>,
    pub memory_kb: u64,
}

impl View for ProcRec {
    type V = ProcRecV;

    open spec fn view(&self) -> ProcRecV {
        ProcRecV { pid: self.pid, name: self.name@, memory_kb: self.memory_kb }
    }
}

/// The views of a vector of process records.
pub open spec fn procs_view(v: Seq<ProcRec>) -> Seq<ProcRecV> {
    v.map_values(|r: ProcRec| r@)
}

/// Sorted by memory, largest first.
pub open spec fn sorted_desc_mem(s: Seq<ProcRecV>) -> bool {
    forall|i: int, j: int|
        0 <= i < j < s.len() ==> (#[trigger] s[i]).memory_kb >= (#[trigger] s[j]).memory_kb
}

/// The memory of a process in mebibytes, two decimals.
pub open spec fn spec_memory_mb(kb: u64) -> Seq<char> {
    spec_fixed2(kb, 1024)
}

/// Format a memory amount in kibibytes as mebibytes with two decimals.
pub fn memory_mb_string(kb: u64) -> (s: String)
    ensures
        s@ == spec_memory_mb(kb),
{
    fixed2(kb, 1024)
}

/// The total memory of a sequence of records, in kibibytes.
pub open spec fn spec_total_kb(s: Seq<ProcRecV>) -> nat
    decreases s.len(),
{
    if s.len() == 0 {
        0
    } else {
        spec_total_kb(s.drop_last()) + s.last().memory_kb as nat
    }
}

/// Prefix totals never exceed the whole total.
proof fn lemma_total_kb_prefix(s: Seq<ProcRecV>, i: int)
    requires
        0 <= i <= s.len(),
    ensures
        spec_total_kb(s.take(i)) <= spec_total_kb(s),
    decreases s.len() - i,
{
    if i == s.len() {
        assert(s.take(i) =~= s);
    } else {
        lemma_total_kb_prefix(s, i + 1);
        assert(s.take(i + 1).drop_last() =~= s.take(i));
        assert(s.take(i + 1).last() == s[i]);
    }
}

/// The total memory of the records, when it fits a machine word.
pub fn total_memory_kb(v: &Vec<ProcRec>) -> (r: Option<u64>)
    ensures
        r matches Some(t) ==> t == spec_total_kb(procs_view(v@)),
        r is None ==> spec_total_kb(procs_view(v@)) > u64::MAX,
{
    let ghost recs = procs_view(v@);
    let mut acc: u64 = 0;
    let mut i: usize = 0;
    while i < v.len()
        invariant
            i <= v@.len(),
            recs == procs_view(v@),
            recs.len() == v@.len(),
            acc == spec_total_kb(recs.take(i as int)),
        decreases v@.len() - i,
    {
        proof {
            assert(recs.take(i + 1).drop_last() =~= recs.take(i as int));
            assert(recs.take(i + 1).last() == recs[i as int]);
            assert(recs[i as int] == v@[i as int]@);
        }
        acc = match acc.checked_add(v[i].memory_kb) {
            Some(a) => a,
            None => {
                proof {
                    lemma_total_kb_prefix(recs, i + 1);
                }
                return None;
            },
        };
        i += 1;
    }
    proof {
        assert(recs.take(recs.len() as int) =~= recs);
    }
    Some(acc)
}

/// The multiset of a sequence with one record slotted in at `j` is the old
/// multiset plus that record.
proof fn lemma_procs_to_multiset_insert(s: Seq<ProcRecV>, j: int, e: ProcRecV)
    requires
        0 <= j <= s.len(),
    ensures
        s.insert(j, e).to_multiset() =~= s.to_multiset().insert(e),
{
    broadcast use vstd::seq_lib::group_to_multiset_ensures;

    assert(s.insert(j, e) =~= s.take(j) + seq![e] + s.skip(j));
    assert(s =~= s.take(j) + s.skip(j));
    vstd::seq_lib::lemma_multiset_commutative(s.take(j) + seq![e], s.skip(j));
    vstd::seq_lib::lemma_multiset_commutative(s.take(j), seq![e]);
    vstd::seq_lib::lemma_multiset_commutative(s.take(j), s.skip(j));
    assert(seq![e].to_multiset() =~= Multiset::<ProcRecV>::empty().insert(e));
}

/// Put one record into a list that is sorted largest first, in front of the
/// first strictly smaller record, keeping the list sorted.
fn insert_proc_desc(r: &mut Vec<ProcRec>, e: ProcRec)
    requires
        sorted_desc_mem(procs_view(old(r)@)),
    ensures
        sorted_desc_mem(procs_view(final(r)@)),
        procs_view(final(r)@).to_multiset() =~= procs_view(old(r)@).to_multiset().insert(e@),
        final(r)@.len() == old(r)@.len() + 1,
{
    let mut j: usize = 0;
    while j < r.len() && r[j].memory_kb >= e.memory_kb
        invariant
            j <= r@.len(),
            forall|m: int|
                0 <= m < j ==> (#[trigger] procs_view(r@)[m]).memory_kb >= e.memory_kb,
            sorted_desc_mem(procs_view(r@)),
            r@ == old(r)@,
        decreases r@.len() - j,
    {
        j += 1;
    }
    r.insert(j, e);
    proof {
        assert(procs_view(r@) =~= procs_view(old(r)@).insert(j as int, e@));
        lemma_procs_to_multiset_insert(procs_view(old(r)@), j as int, e@);
        let s = procs_view(r@);
        let s0 = procs_view(old(r)@);
        assert forall|a: int, b: int|
            0 <= a < b < s.len() implies (#[trigger] s[a]).memory_kb
            >= (#[trigger] s[b]).memory_kb by {
            if a < j && b == j {
            } else if a == j && b > j {
                assert(s[b] == s0[b - 1]);
                assert(s0[j as int].memory_kb < e.memory_kb || j == s0.len());
            } else if a < j && b > j {
                assert(s[a] == s0[a]);
                assert(s[b] == s0[b - 1]);
            } else if a > j && b > j {
                assert(s[a] == s0[a - 1]);
                assert(s[b] == s0[b - 1]);
            }
        }
    }
}

/// Sort the records by memory, largest first.  The result holds exactly the
/// records it was given.
pub fn sort_procs_desc(v: Vec<ProcRec>) -> (r: Vec<ProcRec>)
    ensures
        sorted_desc_mem(procs_view(r@)),
        procs_view(r@).to_multiset() =~= procs_view(v@).to_multiset(),
{
    broadcast use vstd::seq_lib::group_to_multiset_ensures;

    let ghost total = procs_view(v@).to_multiset();
    let mut rest = v;
    let mut r: Vec<ProcRec> = Vec::new();
    while rest.len() > 0
        invariant
            sorted_desc_mem(procs_view(r@)),
            procs_view(r@).to_multiset().add(procs_view(rest@).to_multiset()) =~= total,
        decreases rest@.len(),
    {
        let ghost pre_rest = procs_view(rest@);
        let ghost pre_r = procs_view(r@);
        let e = rest.pop().unwrap();
        proof {
            procs_view(rest@).to_multiset_ensures();
            assert(pre_rest =~= procs_view(rest@).push(e@));
            assert((procs_view(rest@).push(e@)).to_multiset() =~= procs_view(
                rest@,
            ).to_multiset().insert(e@));
            assert(pre_rest.to_multiset() =~= procs_view(rest@).to_multiset().insert(e@));
        }
        insert_proc_desc(&mut r, e);
        proof {
            assert(procs_view(r@).to_multiset() =~= pre_r.to_multiset().insert(e@));
            assert(procs_view(r@).to_multiset().add(procs_view(rest@).to_multiset())
                =~= pre_r.to_multiset().add(pre_rest.to_multiset()));
        }
    }
    proof {
        assert(procs_view(rest@).to_multiset() =~= Multiset::<ProcRecV>::empty());
        assert(procs_view(r@).to_multiset() =~= total);
    }
    r
}

} // verus!
