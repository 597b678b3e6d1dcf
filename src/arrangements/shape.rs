//! Layouts keep equal trees equal.

use vstd::prelude::*;

use crate::arrangements::bisect::{bisect_rects, bisected};
use crate::arrangements::linear::{linear_rects, padded, sliced};
use crate::arrangements::order::{insert_pos, lemma_insert_pos, lemma_sort_desc, sort_desc};
use crate::rect::Rect;
use crate::tree::{cleared, same_shape, weight, weights, Tree};

verus! {

/// Every tree has its own shape.
pub proof fn lemma_same_shape_reflexive(t: Tree)
    ensures
        same_shape(t, t),
    decreases t,
{
    assert forall|i: int| 0 <= i < t.children@.len() implies same_shape(
        #[trigger] t.children@[i],
        t.children@[i],
    ) by {
        lemma_same_shape_reflexive(t.children@[i]);
    }
}

pub open spec fn same_shapes(s: Seq<Tree>, t: Seq<Tree>) -> bool {
    &&& s.len() == t.len()
    &&& forall|i: int| 0 <= i < s.len() ==> same_shape(#[trigger] s[i], t[i])
}

proof fn lemma_insert_pos_same(s: Seq<Tree>, t: Seq<Tree>, key: int, p: int)
    requires
        same_shapes(s, t),
        0 <= p <= s.len(),
    ensures
        insert_pos(s, key, p) == insert_pos(t, key, p),
    decreases s.len() - p,
{
    if p < s.len() {
        assert(same_shape(s[p], t[p]));
        lemma_insert_pos_same(s, t, key, p + 1);
    }
}

proof fn lemma_sort_same_shape(s: Seq<Tree>, t: Seq<Tree>)
    requires
        same_shapes(s, t),
    ensures
        same_shapes(sort_desc(s), sort_desc(t)),
        weights(sort_desc(s)) == weights(sort_desc(t)),
    decreases s.len(),
{
    lemma_sort_desc(s);
    lemma_sort_desc(t);
    let a = sort_desc(s);
    let b = sort_desc(t);
    if s.len() > 0 {
        let n = s.len() - 1;
        assert(same_shape(s[n], t[n]));
        assert(same_shapes(s.drop_last(), t.drop_last())) by {
            assert forall|i: int| 0 <= i < n implies same_shape(
                #[trigger] s.drop_last()[i],
                t.drop_last()[i],
            ) by {
                assert(same_shape(s[i], t[i]));
            }
        }
        lemma_sort_same_shape(s.drop_last(), t.drop_last());
        let ss = sort_desc(s.drop_last());
        let ts = sort_desc(t.drop_last());
        lemma_sort_desc(s.drop_last());
        lemma_insert_pos_same(ss, ts, weight(s.last()), 0);
        let p = insert_pos(ss, weight(s.last()), 0);
        lemma_insert_pos(ss, weight(s.last()), 0);
        assert(weight(s.last()) == weight(t.last()));
        assert(a == ss.insert(p, s.last()));
        assert(b == ts.insert(p, t.last()));
        assert forall|i: int| 0 <= i < a.len() implies same_shape(#[trigger] a[i], b[i]) by {
            if i < p {
                assert(same_shape(ss[i], ts[i]));
            } else if i > p {
                assert(same_shape(ss[i - 1], ts[i - 1]));
            }
        }
    }
    assert(weights(a) =~= weights(b)) by {
        assert forall|i: int| 0 <= i < a.len() implies weights(a)[i] == weights(b)[i] by {
            assert(same_shape(a[i], b[i]));
        }
    }
}

proof fn lemma_cleared_same_shape(x2: Tree, x: Tree, y2: Tree, y: Tree)
    requires
        cleared(x2, x),
        cleared(y2, y),
        same_shape(x, y),
    ensures
        same_shape(x2, y2),
    decreases x2,
{
    assert forall|i: int| 0 <= i < x2.children@.len() implies same_shape(
        #[trigger] x2.children@[i],
        y2.children@[i],
    ) by {
        lemma_cleared_same_shape(x2.children@[i], x.children@[i], y2.children@[i], y.children@[i]);
    }
}

/// Trees of the same shape keep the same shape when both are laid out by the
/// same bisection into the same rectangle: the layout sorts siblings by their
/// sizes alone.
pub proof fn lemma_bisected_same_shape(
    a2: Tree,
    a: Tree,
    b2: Tree,
    b: Tree,
    rect: Rect,
    num: int,
    den: int,
)
    requires
        same_shape(a, b),
        bisected(a2, a, rect, num, den),
        bisected(b2, b, rect, num, den),
    ensures
        same_shape(a2, b2),
    decreases a2,
{
    let n = a2.children@.len();
    if rect.area() == 0 {
        assert forall|i: int| 0 <= i < n implies same_shape(
            #[trigger] a2.children@[i],
            b2.children@[i],
        ) by {
            lemma_cleared_same_shape(a2.children@[i], a.children@[i], b2.children@[i], b.children@[i]);
        }
    } else {
        lemma_sort_same_shape(a.children@, b.children@);
        lemma_sort_desc(a.children@);
        let sa = sort_desc(a.children@);
        let sb = sort_desc(b.children@);
        let ra = bisect_rects(weights(sa), rect, num, den);
        assert forall|i: int| 0 <= i < n implies same_shape(
            #[trigger] a2.children@[i],
            b2.children@[i],
        ) by {
            lemma_bisected_same_shape(a2.children@[i], sa[i], b2.children@[i], sb[i], ra[i], num, den);
        }
    }
}

/// Trees of the same shape keep the same shape when both are laid out by
/// proportional slicing into the same rectangle with the same padding.
pub proof fn lemma_sliced_same_shape(a2: Tree, a: Tree, b2: Tree, b: Tree, rect: Rect, pad: u32)
    requires
        same_shape(a, b),
        sliced(a2, a, rect, pad),
        sliced(b2, b, rect, pad),
    ensures
        same_shape(a2, b2),
    decreases a2,
{
    let n = a2.children@.len();
    lemma_sort_same_shape(a.children@, b.children@);
    lemma_sort_desc(a.children@);
    let sa = sort_desc(a.children@);
    let sb = sort_desc(b.children@);
    let ra = linear_rects(weights(sa), padded(rect, pad));
    assert forall|i: int| 0 <= i < n implies same_shape(#[trigger] a2.children@[i], b2.children@[i]) by {
        lemma_sliced_same_shape(a2.children@[i], sa[i], b2.children@[i], sb[i], ra[i], pad);
    }
}

} // verus!
