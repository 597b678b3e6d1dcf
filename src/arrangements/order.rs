//! The stable descending sort of siblings by weight.

use vstd::prelude::*;

use crate::tree::{lemma_seq_sum_insert, seq_sum, weight, weight_of, weights, well_formed, Tree};

verus! {

/// Where a stable descending sort puts a node of weight `key` into the sorted
/// `s`: after every node at least as heavy.
pub open spec fn insert_pos(s: Seq<Tree>, key: int, p: int) -> int
    decreases s.len() - p,
{
    if p >= s.len() {
        s.len() as int
    } else if weight(s[p]) < key {
        p
    } else {
        insert_pos(s, key, p + 1)
    }
}

pub open spec fn insert_desc(s: Seq<Tree>, t: Tree) -> Seq<Tree> {
    s.insert(insert_pos(s, weight(t), 0), t)
}

/// The nodes of `s` by descending weight; nodes of equal weight keep their order.
pub open spec fn sort_desc(s: Seq<Tree>) -> Seq<Tree>
    decreases s.len(),
{
    if s.len() == 0 {
        s
    } else {
        insert_desc(sort_desc(s.drop_last()), s.last())
    }
}

pub open spec fn sorted_desc(s: Seq<Tree>) -> bool {
    forall|i: int, j: int| 0 <= i < j < s.len() ==> weight(#[trigger] s[i]) >= weight(#[trigger] s[j])
}

pub proof fn lemma_insert_pos(s: Seq<Tree>, key: int, p: int)
    requires
        0 <= p <= s.len(),
    ensures
        p <= insert_pos(s, key, p) <= s.len(),
        forall|q: int| p <= q < insert_pos(s, key, p) ==> weight(#[trigger] s[q]) >= key,
        insert_pos(s, key, p) < s.len() ==> weight(s[insert_pos(s, key, p)]) < key,
    decreases s.len() - p,
{
    if p < s.len() && weight(s[p]) >= key {
        lemma_insert_pos(s, key, p + 1);
    }
}

proof fn lemma_insert_pos_is(s: Seq<Tree>, key: int, p: int, r: int)
    requires
        0 <= p <= r <= s.len(),
        forall|q: int| p <= q < r ==> weight(#[trigger] s[q]) >= key,
        r < s.len() ==> weight(s[r]) < key,
    ensures
        insert_pos(s, key, p) == r,
    decreases r - p,
{
    if p < r {
        lemma_insert_pos_is(s, key, p + 1, r);
    }
}

/// Sorting keeps every node, the number of nodes and their total weight, and
/// orders them by descending weight.
pub proof fn lemma_sort_desc(s: Seq<Tree>)
    ensures
        sort_desc(s).len() == s.len(),
        sorted_desc(sort_desc(s)),
        forall|i: int|
            0 <= i < s.len() ==> exists|j: int| 0 <= j < s.len() && #[trigger] sort_desc(s)[i] == s[j],
        seq_sum(weights(sort_desc(s))) == seq_sum(weights(s)),
    decreases s.len(),
{
    if s.len() > 0 {
        let rest = s.drop_last();
        let t = s.last();
        lemma_sort_desc(rest);
        let sr = sort_desc(rest);
        let p = insert_pos(sr, weight(t), 0);
        lemma_insert_pos(sr, weight(t), 0);
        let out = sr.insert(p, t);
        assert(out == sort_desc(s));
        assert forall|i: int, j: int| 0 <= i < j < out.len() implies weight(#[trigger] out[i]) >= weight(
            #[trigger] out[j],
        ) by {
            if j < p {
            } else if j == p {
            } else if i < p {
                // out[j] == sr[j - 1], with j - 1 >= p
                if p < sr.len() {
                    assert(weight(sr[p]) >= weight(sr[j - 1]));
                }
            } else if i == p {
                assert(weight(sr[p]) >= weight(sr[j - 1]));
            } else {
            }
        }
        assert forall|i: int| 0 <= i < s.len() implies exists|j: int|
            0 <= j < s.len() && #[trigger] sort_desc(s)[i] == s[j] by {
            if i < p {
                let k = choose|k: int| 0 <= k < rest.len() && sr[i] == rest[k];
                assert(s[k] == rest[k]);
            } else if i == p {
                assert(out[i] == s[s.len() - 1]);
            } else {
                let k = choose|k: int| 0 <= k < rest.len() && sr[i - 1] == rest[k];
                assert(s[k] == rest[k]);
            }
        }
        assert(weights(out) =~= weights(sr).insert(p, weight(t)));
        lemma_seq_sum_insert(weights(sr), p, weight(t));
        assert(weights(s).drop_last() =~= weights(rest));
    }
}

/// The sorted children of a well-formed node are well-formed, each is one of
/// the children, and their weights are ordered, non-negative and sum to the
/// node's weight.
pub proof fn lemma_sorted_children(t: Tree)
    requires
        well_formed(t),
    ensures
        sort_desc(t.children@).len() == t.children@.len(),
        forall|i: int|
            0 <= i < t.children@.len() ==> well_formed(#[trigger] sort_desc(t.children@)[i]),
        forall|i: int|
            0 <= i < t.children@.len() ==> #[trigger] weights(sort_desc(t.children@))[i] >= 0,
        forall|i: int, j: int|
            0 <= i < j < t.children@.len() ==> #[trigger] weights(sort_desc(t.children@))[i]
                >= #[trigger] weights(sort_desc(t.children@))[j],
        seq_sum(weights(sort_desc(t.children@))) <= i64::MAX,
        t.children@.len() > 0 ==> seq_sum(weights(sort_desc(t.children@))) == weight(t),
        forall|i: int|
            0 <= i < t.children@.len() ==> exists|m: int|
                0 <= m < t.children@.len() && #[trigger] sort_desc(t.children@)[i]
                    == t.children@[m],
{
    let cs = t.children@;
    lemma_sort_desc(cs);
    let sorted = sort_desc(cs);
    let ws = weights(sorted);
    assert forall|i: int| 0 <= i < cs.len() implies well_formed(#[trigger] sorted[i]) by {
        let j = choose|j: int| 0 <= j < cs.len() && sorted[i] == cs[j];
        assert(well_formed(cs[j]));
    }
    assert forall|i: int| 0 <= i < cs.len() implies #[trigger] ws[i] >= 0 by {
        assert(well_formed(sorted[i]));
    }
    assert forall|i: int, j: int| 0 <= i < j < cs.len() implies #[trigger] ws[i] >= #[trigger] ws[j] by {
        assert(weight(sorted[i]) >= weight(sorted[j]));
    }
    if cs.len() == 0 {
        assert(ws =~= Seq::<int>::empty());
    }
}

/// Sorts the nodes by descending weight, keeping the order of equal weights.
pub fn sort_by_weight_desc(v: &mut Vec<Tree>)
    ensures
        final(v)@ == sort_desc(old(v)@),
{
    let n = v.len();
    let ghost orig = v@;
    let mut i: usize = 0;
    while i < n
        invariant
            orig == old(v)@,
            n == orig.len(),
            i <= n,
            v@.len() == n,
            v@.subrange(0, i as int) == sort_desc(orig.subrange(0, i as int)),
            v@.subrange(i as int, n as int) == orig.subrange(i as int, n as int),
        decreases n - i,
    {
        proof {
            lemma_sort_desc(orig.subrange(0, i as int));
        }
        let ghost sorted = v@.subrange(0, i as int);
        assert(v@[i as int] == orig[i as int]) by {
            assert(v@.subrange(i as int, n as int)[0] == orig.subrange(i as int, n as int)[0]);
        }
        let ghost pre = v@;
        let t = v.remove(i);
        assert(v@.subrange(0, i as int) == sorted);
        let key = weight_of(&t);
        let mut p: usize = 0;
        while p < i && weight_of(&v[p]) >= key
            invariant
                p <= i,
                i < n,
                v@.len() == n - 1,
                v@.subrange(0, i as int) == sorted,
                key == weight(t),
                forall|q: int| 0 <= q < p ==> weight(#[trigger] sorted[q]) >= key,
            decreases i - p,
        {
            assert(sorted[p as int] == v@[p as int]);
            p = p + 1;
        }
        proof {
            if p < i {
                assert(sorted[p as int] == v@[p as int]);
            }
            lemma_insert_pos_is(sorted, key as int, 0, p as int);
            let prefix = orig.subrange(0, i + 1);
            assert(prefix.drop_last() =~= orig.subrange(0, i as int));
            assert(prefix.last() == t);
        }
        let ghost before = v@;
        v.insert(p, t);
        proof {
            assert(v@.subrange(0, i + 1) =~= sorted.insert(p as int, t));
            assert(v@.subrange(i + 1, n as int) =~= before.subrange(i as int, n - 1));
            assert(before.subrange(i as int, n - 1) =~= orig.subrange(i + 1, n as int)) by {
                assert forall|k: int| 0 <= k < n - 1 - i implies #[trigger] before.subrange(i as int, n - 1)[k]
                    == orig.subrange(i + 1, n as int)[k] by {
                    assert(before[i + k] == pre[i + k + 1]);
                    assert(pre.subrange(i as int, n as int)[k + 1] == orig.subrange(i as int, n as int)[k + 1]);
                }
            }
        }
        i = i + 1;
    }
    assert(v@ =~= v@.subrange(0, n as int));
    assert(orig =~= orig.subrange(0, n as int));
}

} // verus!
