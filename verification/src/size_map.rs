//! A map from path strings to byte totals, kept as a vector of pairs.
//!
//! The vector holds each key at most once; reading an absent key gives 0, so
//! adding to a key is one lookup-or-insert-then-add step, the indivisible
//! update the aggregator builds on.  The pair order is the insertion order.

use vstd::prelude::*;

verus! {

/// Index of the last pair with key `k`, or `-1` when there is none.  With
/// unique keys this is the only occurrence.
pub open spec fn find_key(m: Seq<(Seq<char>, u64)>, k: Seq<char>) -> int
    decreases m.len(),
{
    if m.len() == 0 {
        -1
    } else if m.last().0 == k {
        m.len() - 1
    } else {
        find_key(m.drop_last(), k)
    }
}

/// Whether the map holds key `k`.
pub open spec fn map_contains(m: Seq<(Seq<char>, u64)>, k: Seq<char>) -> bool {
    find_key(m, k) >= 0
}

/// The total stored under `k`, or 0 when `k` is absent.
pub open spec fn map_get(m: Seq<(Seq<char>, u64)>, k: Seq<char>) -> u64 {
    if find_key(m, k) >= 0 {
        m[find_key(m, k)].1
    } else {
        0
    }
}

/// Keys are pairwise distinct.
pub open spec fn map_wf(m: Seq<(Seq<char>, u64)>) -> bool {
    forall|i: int, j: int| 0 <= i < j < m.len() ==> (#[trigger] m[i]).0 != (#[trigger] m[j]).0
}

pub proof fn lemma_find_key(m: Seq<(Seq<char>, u64)>, k: Seq<char>)
    ensures
        -1 <= find_key(m, k) < m.len(),
        find_key(m, k) >= 0 ==> m[find_key(m, k)].0 == k,
        forall|j: int| find_key(m, k) < j < m.len() ==> (#[trigger] m[j]).0 != k,
    decreases m.len(),
{
    if m.len() == 0 {
    } else if m.last().0 == k {
    } else {
        lemma_find_key(m.drop_last(), k);
        assert forall|j: int| find_key(m, k) < j < m.len() implies (#[trigger] m[j]).0 != k by {
            if j < m.len() - 1 {
                assert(m.drop_last()[j] == m[j]);
            }
        }
    }
}

/// Appending a pair moves `find_key` to it for its key and leaves every
/// other key where it was.
pub proof fn lemma_find_key_push(m: Seq<(Seq<char>, u64)>, p: (Seq<char>, u64), k: Seq<char>)
    ensures
        find_key(m.push(p), k) == if p.0 == k {
            m.len() as int
        } else {
            find_key(m, k)
        },
{
    assert(m.push(p).drop_last() =~= m);
    assert(m.push(p).last() == p);
}

/// Replacing the pair at `i` by one with the same key leaves `find_key`
/// unchanged for every key.
pub proof fn lemma_find_key_update(
    m: Seq<(Seq<char>, u64)>,
    i: int,
    p: (Seq<char>, u64),
    k: Seq<char>,
)
    requires
        0 <= i < m.len(),
        m[i].0 == p.0,
    ensures
        find_key(m.update(i, p), k) == find_key(m, k),
    decreases m.len(),
{
    let u = m.update(i, p);
    if i == m.len() - 1 {
        assert(u.drop_last() =~= m.drop_last());
        assert(u.last() == p);
    } else {
        assert(u.drop_last() =~= m.drop_last().update(i, p));
        assert(u.last() == m.last());
        lemma_find_key_update(m.drop_last(), i, p, k);
    }
}

/// A map from path strings to byte totals.
pub struct SizeMap {
    pub pairs: Vec<(String, u64)>,
}

impl View for SizeMap {
    type V = Seq<(Seq<char>, u64)>;

    open spec fn view(&self) -> Seq<(Seq<char>, u64)> {
        self.pairs@.map_values(|p: (String, u64)| (p.0@, p.1))
    }
}

impl SizeMap {
    /// Keys are pairwise distinct.
    pub open spec fn wf(&self) -> bool {
        map_wf(self@)
    }

    pub fn new() -> (m: Self)
        ensures
            m@ =~= Seq::<(Seq<char>, u64)>::empty(),
            m.wf(),
    {
        SizeMap { pairs: Vec::new() }
    }

    pub fn len(&self) -> (n: usize)
        ensures
            n == self@.len(),
    {
        self.pairs.len()
    }

    /// Index of the pair holding `key`, if any.
    fn find(&self, key: &String) -> (r: Option<usize>)
        ensures
            r matches Some(i) ==> find_key(self@, key@) == i,
            r is None ==> find_key(self@, key@) == -1,
    {
        let n = self.pairs.len();
        let mut i: usize = n;
        while i > 0
            invariant
                i <= n,
                n == self@.len(),
                forall|j: int| i <= j < n ==> (#[trigger] self@[j]).0 != key@,
            decreases i,
        {
            i = i - 1;
            if self.pairs[i].0 == *key {
                proof {
                    // `find_key` points at the last occurrence; there is
                    // none beyond `i`, and `i` itself matches.
                    lemma_find_key(self@, key@);
                    let f = find_key(self@, key@);
                    assert(self@[i as int].0 == key@);
                    if f < i as int {
                        assert(self@[i as int].0 != key@);
                    }
                    if f > i as int {
                        assert(self@[f].0 != key@);
                    }
                }
                return Some(i);
            }
        }
        proof {
            lemma_find_key(self@, key@);
            let f = find_key(self@, key@);
            if f >= 0 {
                assert(self@[f].0 != key@);
            }
        }
        None
    }

    /// The total stored under `key`, if the key is present.
    pub fn get(&self, key: &String) -> (r: Option<u64>)
        ensures
            r matches Some(v) ==> map_contains(self@, key@) && v == map_get(self@, key@),
            r is None ==> !map_contains(self@, key@),
    {
        proof {
            lemma_find_key(self@, key@);
        }
        match self.find(key) {
            Some(i) => Some(self.pairs[i].1),
            None => None,
        }
    }

    /// Add `amount` to the total under `key`, inserting the key with total
    /// `amount` when it is absent: one indivisible lookup-or-insert-then-add.
    pub fn add_to(&mut self, key: &String, amount: u64)
        requires
            old(self).wf(),
            map_get(old(self)@, key@) + amount <= u64::MAX,
        ensures
            final(self).wf(),
            final(self)@.len() == if map_contains(old(self)@, key@) {
                old(self)@.len()
            } else {
                old(self)@.len() + 1
            },
            forall|k: Seq<char>|
                map_contains(final(self)@, k) <==> map_contains(old(self)@, k) || k == key@,
            forall|k: Seq<char>|
                map_get(final(self)@, k) == map_get(old(self)@, k) + if k == key@ {
                    amount as int
                } else {
                    0
                },
    {
        proof {
            lemma_find_key(old(self)@, key@);
        }
        match self.find(key) {
            Some(i) => {
                let total = self.pairs[i].1 + amount;
                let pair = (key.clone(), total);
                self.pairs.remove(i);
                self.pairs.insert(i, pair);
                proof {
                    assert(self@ =~= old(self)@.update(i as int, (key@, total)));
                    assert forall|k: Seq<char>|
                        map_get(self@, k) == map_get(old(self)@, k) + (if k == key@ {
                            amount as int
                        } else {
                            0
                        }) && (map_contains(self@, k) <==> map_contains(old(self)@, k) || k
                        == key@) by {
                        lemma_find_key(old(self)@, k);
                        lemma_find_key_update(old(self)@, i as int, (key@, total), k);
                    }
                }
            },
            None => {
                self.pairs.push((key.clone(), amount));
                proof {
                    assert(self@ =~= old(self)@.push((key@, amount)));
                    assert forall|k: Seq<char>|
                        map_get(self@, k) == map_get(old(self)@, k) + (if k == key@ {
                            amount as int
                        } else {
                            0
                        }) && (map_contains(self@, k) <==> map_contains(old(self)@, k) || k
                        == key@) by {
                        lemma_find_key(old(self)@, k);
                        lemma_find_key_push(old(self)@, (key@, amount), k);
                    }
                }
            },
        }
    }

    /// Record `key` with total `size`; the key must be new.
    pub fn insert_new(&mut self, key: &String, size: u64)
        requires
            old(self).wf(),
            !map_contains(old(self)@, key@),
        ensures
            final(self).wf(),
            final(self)@ =~= old(self)@.push((key@, size)),
            forall|k: Seq<char>|
                map_contains(final(self)@, k) <==> map_contains(old(self)@, k) || k == key@,
            forall|k: Seq<char>|
                map_get(final(self)@, k) == if k == key@ {
                    size
                } else {
                    map_get(old(self)@, k)
                },
    {
        proof {
            lemma_find_key(old(self)@, key@);
        }
        self.pairs.push((key.clone(), size));
        proof {
            assert(self@ =~= old(self)@.push((key@, size)));
            assert forall|k: Seq<char>|
                map_get(self@, k) == (if k == key@ {
                    size
                } else {
                    map_get(old(self)@, k)
                }) && (map_contains(self@, k) <==> map_contains(old(self)@, k) || k == key@) by {
                lemma_find_key(old(self)@, k);
                lemma_find_key_push(old(self)@, (key@, size), k);
            }
        }
    }

    /// Make sure `key` is present, inserting it with total 0 when absent;
    /// totals are untouched either way.
    pub fn ensure_key(&mut self, key: &String)
        requires
            old(self).wf(),
        ensures
            final(self).wf(),
            forall|k: Seq<char>|
                map_contains(final(self)@, k) <==> map_contains(old(self)@, k) || k == key@,
            forall|k: Seq<char>| map_get(final(self)@, k) == map_get(old(self)@, k),
            map_contains(old(self)@, key@) ==> final(self)@ =~= old(self)@,
    {
        proof {
            lemma_find_key(old(self)@, key@);
        }
        match self.find(key) {
            Some(_) => {},
            None => {
                self.pairs.push((key.clone(), 0));
                proof {
                    assert(self@ =~= old(self)@.push((key@, 0)));
                    assert forall|k: Seq<char>|
                        map_get(self@, k) == map_get(old(self)@, k) && (map_contains(self@, k)
                        <==> map_contains(old(self)@, k) || k == key@) by {
                        lemma_find_key(old(self)@, k);
                        lemma_find_key_push(old(self)@, (key@, 0), k);
                    }
                }
            },
        }
    }
}

} // verus!
