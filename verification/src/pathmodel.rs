//! Path strings and ancestor chains.
//!
//! A path is a plain string whose components are separated by `/`.  The
//! parent of a path is the text before its last separator; a path whose only
//! separator is its first character has the root `/` as parent, and `/`
//! itself, like a path without separators, has none.  The ancestor chain of a
//! path runs from its immediate parent up to the first component (or the
//! root `/` for an absolute path), and every link is strictly shorter than
//! the one before, so the chain holds no path twice.

use vstd::prelude::*;
use vstd::string::StrSliceExecFns;
use vstd::string::StringExecFns;

verus! {

/// Index of the last `/` in `s`, or `-1` when there is none.
pub open spec fn last_slash(s: Seq<char>) -> int
    decreases s.len(),
{
    if s.len() == 0 {
        -1
    } else if s.last() == '/' {
        s.len() - 1
    } else {
        last_slash(s.drop_last())
    }
}

pub proof fn lemma_last_slash(s: Seq<char>)
    ensures
        -1 <= last_slash(s) < s.len(),
        last_slash(s) >= 0 ==> s[last_slash(s)] == '/',
        forall|j: int| last_slash(s) < j < s.len() ==> s[j] != '/',
    decreases s.len(),
{
    if s.len() == 0 {
    } else if s.last() == '/' {
    } else {
        lemma_last_slash(s.drop_last());
        assert forall|j: int| last_slash(s) < j < s.len() implies s[j] != '/' by {
            if j < s.len() - 1 {
                assert(s.drop_last()[j] == s[j]);
            }
        }
    }
}

/// The parent of a path, if it has one.
pub open spec fn parent_view(s: Seq<char>) -> Option<Seq<char>> {
    let i = last_slash(s);
    if i < 0 {
        None
    } else if i == 0 {
        if s.len() == 1 {
            None
        } else {
            Some("/"@)
        }
    } else {
        Some(s.take(i))
    }
}

pub proof fn lemma_parent_shorter(s: Seq<char>)
    ensures
        parent_view(s) matches Some(p) ==> p.len() < s.len(),
{
    reveal_strlit("/");
    lemma_last_slash(s);
}

/// The ancestor chain of a path: its parent, then the parent's parent, and
/// so on while one exists.
pub open spec fn ancestor_seq(s: Seq<char>) -> Seq<Seq<char>>
    decreases s.len(),
    via ancestor_seq_decreases
{
    match parent_view(s) {
        None => Seq::empty(),
        Some(p) => seq![p] + ancestor_seq(p),
    }
}

#[via_fn]
proof fn ancestor_seq_decreases(s: Seq<char>) {
    lemma_parent_shorter(s);
}

/// Whether `d` lies on the ancestor chain of `p`.
pub open spec fn is_ancestor_of(d: Seq<char>, p: Seq<char>) -> bool {
    ancestor_seq(p).contains(d)
}

/// Every ancestor is strictly shorter than the path, and the chain's
/// lengths strictly decrease, so no ancestor appears twice.
pub proof fn lemma_ancestors_distinct(s: Seq<char>)
    ensures
        forall|k: int|
            0 <= k < ancestor_seq(s).len() ==> #[trigger] ancestor_seq(s)[k].len() < s.len(),
        forall|i: int, j: int|
            0 <= i < j < ancestor_seq(s).len() ==> #[trigger] ancestor_seq(s)[i].len()
                > #[trigger] ancestor_seq(s)[j].len(),
        forall|i: int, j: int|
            0 <= i < j < ancestor_seq(s).len() ==> ancestor_seq(s)[i] != ancestor_seq(s)[j],
    decreases s.len(),
{
    lemma_parent_shorter(s);
    match parent_view(s) {
        None => {},
        Some(p) => {
            lemma_ancestors_distinct(p);
            let a = ancestor_seq(s);
            assert(a[0] == p);
            assert(forall|k: int| 1 <= k < a.len() ==> a[k] == #[trigger] ancestor_seq(p)[k - 1]);
            assert forall|i: int, j: int| 0 <= i < j < a.len() implies a[i].len() > a[j].len() by {
                if i >= 1 {
                    assert(ancestor_seq(p)[i - 1].len() > ancestor_seq(p)[j - 1].len());
                }
            }
            assert forall|i: int, j: int| 0 <= i < j < a.len() implies a[i] != a[j] by {
                assert(a[i].len() > a[j].len());
            }
        },
    }
}

/// Each link of the chain continues the chain of the one before it.
pub proof fn lemma_ancestor_chain(s: Seq<char>)
    ensures
        forall|k: int|
            0 <= k < ancestor_seq(s).len() ==> #[trigger] ancestor_seq(ancestor_seq(s)[k])
                =~= ancestor_seq(s).skip(k + 1),
    decreases s.len(),
{
    lemma_parent_shorter(s);
    match parent_view(s) {
        None => {},
        Some(p) => {
            lemma_ancestor_chain(p);
            let a = ancestor_seq(s);
            assert(a[0] == p);
            assert(ancestor_seq(p) =~= a.skip(1));
            assert forall|k: int|
                0 <= k < a.len() implies ancestor_seq(a[k]) =~= a.skip(k + 1) by {
                if k >= 1 {
                    assert(a[k] == ancestor_seq(p)[k - 1]);
                    assert(ancestor_seq(ancestor_seq(p)[k - 1]) =~= ancestor_seq(p).skip(k));
                    assert(ancestor_seq(p).skip(k) =~= a.skip(k + 1));
                }
            }
        },
    }
}

/// The parent of a path string, by the `/` separator.
pub fn parent_of(s: &str) -> (r: Option<String>)
    ensures
        r is Some <==> parent_view(s@) is Some,
        r matches Some(x) ==> parent_view(s@) matches Some(p) && x@ == p,
{
    let n = s.unicode_len();
    let mut found: bool = false;
    let mut idx: usize = 0;
    let mut i: usize = 0;
    while i < n
        invariant
            i <= n,
            n == s@.len(),
            found <==> last_slash(s@.take(i as int)) >= 0,
            found ==> idx < i && idx == last_slash(s@.take(i as int)),
        decreases n - i,
    {
        proof {
            assert(s@.take(i + 1).drop_last() =~= s@.take(i as int));
            assert(s@.take(i + 1).last() == s@[i as int]);
        }
        if s.get_char(i) == '/' {
            found = true;
            idx = i;
        }
        i += 1;
    }
    proof {
        assert(s@.take(n as int) =~= s@);
    }
    if !found {
        None
    } else if idx == 0 {
        if n == 1 {
            None
        } else {
            Some(String::from_str("/"))
        }
    } else {
        Some(s.substring_char(0, idx).to_owned())
    }
}

/// The ancestor chain of a path string, nearest parent first.
pub fn ancestors_of(s: &String) -> (v: Vec<String>)
    ensures
        v@.len() == ancestor_seq(s@).len(),
        forall|k: int| 0 <= k < v@.len() ==> #[trigger] v@[k]@ == ancestor_seq(s@)[k],
{
    let ghost chain = ancestor_seq(s@);
    let mut v: Vec<String> = Vec::new();
    let mut cur: Option<String> = parent_of(s.as_str());
    proof {
        if chain.len() > 0 {
            assert(chain[0] == parent_view(s@).unwrap());
        }
    }
    while cur.is_some()
        invariant
            chain == ancestor_seq(s@),
            v@.len() <= chain.len(),
            forall|k: int| 0 <= k < v@.len() ==> #[trigger] v@[k]@ == chain[k],
            cur matches Some(c) ==> v@.len() < chain.len() && c@ == chain[v@.len() as int],
            cur is None ==> v@.len() == chain.len(),
        decreases chain.len() - v@.len(),
    {
        let c = cur.unwrap();
        let ghost k = v@.len() as int;
        proof {
            lemma_ancestor_chain(s@);
            assert(ancestor_seq(chain[k]) =~= chain.skip(k + 1));
        }
        let next = parent_of(c.as_str());
        proof {
            if k + 1 < chain.len() {
                // The chain of `chain[k]` starts with its parent.
                assert(ancestor_seq(chain[k]).len() > 0);
                assert(ancestor_seq(chain[k])[0] == chain[k + 1]);
                assert(parent_view(chain[k]) == Some(chain[k + 1]));
            } else {
                assert(ancestor_seq(chain[k]).len() == 0);
                assert(parent_view(chain[k]) is None);
            }
        }
        v.push(c);
        cur = next;
    }
    v
}

} // verus!
