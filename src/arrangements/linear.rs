//! The linear strategy: proportional slices along the longer axis.

use vstd::arithmetic::div_mod::{
    lemma_div_is_ordered, lemma_div_multiples_vanish, lemma_div_pos_is_pos,
};
use vstd::arithmetic::mul::{
    lemma_mul_inequality, lemma_mul_is_distributive_sub, lemma_mul_upper_bound,
};
use vstd::prelude::*;

use crate::arrangements::order::{
    lemma_sort_desc, lemma_sorted_children, sort_by_weight_desc, sort_desc,
};
use crate::rect::Rect;
use crate::tree::{
    lemma_seq_sum_prefix_bounded, lemma_sum_leaf_areas, leaf_area, seq_sum, weight, weight_of,
    weights, well_formed, Tree,
};

verus! {

/// `rect` shrunk by `pad` on each side; an axis too short for that shrinks to
/// nothing around its middle.
pub open spec fn padded(rect: Rect, pad: u32) -> Rect {
    let px = if pad <= rect.w / 2 { pad } else { (rect.w / 2) as u32 };
    let py = if pad <= rect.h / 2 { pad } else { (rect.h / 2) as u32 };
    Rect {
        x: (rect.x + px) as u32,
        y: (rect.y + py) as u32,
        w: (rect.w - 2 * px) as u32,
        h: (rect.h - 2 * py) as u32,
    }
}

/// Where the slice of the `k` first weights ends, measured from the start of
/// an axis of length `len`.
pub open spec fn offset(ws: Seq<int>, k: int, len: int) -> int {
    if seq_sum(ws) == 0 {
        0
    } else {
        (len * seq_sum(ws.subrange(0, k))) / seq_sum(ws)
    }
}

/// Slices along the longer axis of `inner`, one per weight, in order, each
/// as long as its share of the total weight.
pub open spec fn linear_rects(ws: Seq<int>, inner: Rect) -> Seq<Rect> {
    if inner.w > inner.h {
        Seq::new(
            ws.len(),
            |i: int|
                Rect {
                    x: (inner.x + offset(ws, i, inner.w as int)) as u32,
                    y: inner.y,
                    w: (offset(ws, i + 1, inner.w as int) - offset(ws, i, inner.w as int)) as u32,
                    h: inner.h,
                },
        )
    } else {
        Seq::new(
            ws.len(),
            |i: int|
                Rect {
                    x: inner.x,
                    y: (inner.y + offset(ws, i, inner.h as int)) as u32,
                    w: inner.w,
                    h: (offset(ws, i + 1, inner.h as int) - offset(ws, i, inner.h as int)) as u32,
                },
        )
    }
}

/// `new` is `old` laid out by proportional slicing into `rect`, with `pad`
/// kept free inside each node's rectangle.
pub open spec fn sliced(new: Tree, old: Tree, rect: Rect, pad: u32) -> bool
    decreases new,
{
    let sorted = sort_desc(old.children@);
    let rects = linear_rects(weights(sorted), padded(rect, pad));
    &&& new.name == old.name
    &&& new.size == old.size
    &&& new.rect == Some(rect)
    &&& new.children@.len() == old.children@.len()
    &&& forall|i: int|
        0 <= i < new.children@.len() ==> sliced(#[trigger] new.children@[i], sorted[i], rects[i], pad)
}

/// Every node with children weighs more than nothing.
pub open spec fn inner_nodes_weigh(t: Tree) -> bool
    decreases t,
{
    &&& t.children@.len() > 0 ==> weight(t) > 0
    &&& forall|i: int| 0 <= i < t.children@.len() ==> inner_nodes_weigh(#[trigger] t.children@[i])
}

proof fn lemma_padded(rect: Rect, pad: u32)
    requires
        rect.fits(),
    ensures
        padded(rect, pad).fits(),
        pad == 0 ==> padded(rect, pad) == rect,
{
}

proof fn lemma_offset(ws: Seq<int>, k: int, len: int)
    requires
        forall|i: int| 0 <= i < ws.len() ==> #[trigger] ws[i] >= 0,
        0 <= k < ws.len(),
        len >= 0,
    ensures
        0 <= offset(ws, k, len) <= offset(ws, k + 1, len) <= len,
{
    let t = seq_sum(ws);
    lemma_seq_sum_prefix_bounded(ws, k);
    lemma_seq_sum_prefix_bounded(ws, k + 1);
    assert(ws.subrange(0, k + 1).drop_last() =~= ws.subrange(0, k));
    if t != 0 {
        let a = seq_sum(ws.subrange(0, k));
        let b = seq_sum(ws.subrange(0, k + 1));
        lemma_mul_inequality(a, b, len);
        lemma_mul_inequality(b, t, len);
        assert(len * a <= len * b) by (nonlinear_arith)
            requires
                a <= b,
                len >= 0,
        ;
        assert(len * b <= len * t) by (nonlinear_arith)
            requires
                b <= t,
                len >= 0,
        ;
        assert(len * a >= 0) by (nonlinear_arith)
            requires
                a >= 0,
                len >= 0,
        ;
        lemma_div_is_ordered(len * a, len * b, t);
        lemma_div_is_ordered(len * b, len * t, t);
        lemma_div_multiples_vanish(len, t);
        lemma_div_pos_is_pos(len * a, t);
    }
}

proof fn lemma_offset_ends(ws: Seq<int>, len: int)
    requires
        seq_sum(ws) > 0,
    ensures
        offset(ws, 0, len) == 0,
        offset(ws, ws.len() as int, len) == len,
{
    assert(ws.subrange(0, 0) =~= Seq::<int>::empty());
    assert(ws.subrange(0, ws.len() as int) =~= ws);
    lemma_div_multiples_vanish(len, seq_sum(ws));
    assert(len * seq_sum(ws) == seq_sum(ws) * len) by (nonlinear_arith);
    assert(len * 0 == 0);
}

/// The slices stay inside `inner`, and with weight to share they fill it.
proof fn lemma_linear_rects(ws: Seq<int>, inner: Rect)
    requires
        forall|i: int| 0 <= i < ws.len() ==> #[trigger] ws[i] >= 0,
        inner.fits(),
    ensures
        linear_rects(ws, inner).len() == ws.len(),
        forall|i: int| 0 <= i < ws.len() ==> (#[trigger] linear_rects(ws, inner)[i]).fits(),
        seq_sum(ws) > 0 ==> seq_sum(
            linear_rects(ws, inner).map_values(|r: Rect| r.area()),
        ) == inner.area(),
{
    let rs = linear_rects(ws, inner);
    let horizontal = inner.w > inner.h;
    let len: int = if horizontal { inner.w as int } else { inner.h as int };
    let other: int = if horizontal { inner.h as int } else { inner.w as int };
    assert forall|i: int| 0 <= i < ws.len() implies (#[trigger] rs[i]).fits() by {
        lemma_offset(ws, i, len);
    }
    if seq_sum(ws) > 0 {
        lemma_offset_ends(ws, len);
        let ar = rs.map_values(|r: Rect| r.area());
        assert forall|i: int| 0 <= i < ws.len() implies #[trigger] ar[i] == (offset(ws, i + 1, len)
            - offset(ws, i, len)) * other by {
            lemma_offset(ws, i, len);
            if horizontal {
                assert(ar[i] == rs[i].w * rs[i].h);
            } else {
                assert(ar[i] == rs[i].w * rs[i].h);
                assert(rs[i].w * rs[i].h == rs[i].h * rs[i].w) by (nonlinear_arith);
            }
        }
        lemma_telescope(ws, len, other, ar, ws.len() as int);
        assert(ar.subrange(0, ws.len() as int) =~= ar);
        assert(inner.area() == len * other) by (nonlinear_arith)
            requires
                inner.area() == inner.w * inner.h,
                horizontal ==> len == inner.w && other == inner.h,
                !horizontal ==> len == inner.h && other == inner.w,
        ;
    }
}

proof fn lemma_telescope(ws: Seq<int>, len: int, other: int, ar: Seq<int>, k: int)
    requires
        0 <= k <= ws.len(),
        ar.len() == ws.len(),
        forall|i: int| 0 <= i < ws.len() ==> #[trigger] ar[i] == (offset(ws, i + 1, len) - offset(ws, i, len)) * other,
    ensures
        seq_sum(ar.subrange(0, k)) == (offset(ws, k, len) - offset(ws, 0, len)) * other,
    decreases k,
{
    if k == 0 {
        assert(ar.subrange(0, 0) =~= Seq::<int>::empty());
        assert((offset(ws, 0, len) - offset(ws, 0, len)) * other == 0) by (nonlinear_arith);
    } else {
        lemma_telescope(ws, len, other, ar, k - 1);
        assert(ar.subrange(0, k).drop_last() =~= ar.subrange(0, k - 1));
        lemma_mul_is_distributive_sub(other, offset(ws, k, len) - offset(ws, 0, len), offset(ws, k - 1, len) - offset(ws, 0, len));
        assert((offset(ws, k - 1, len) - offset(ws, 0, len)) * other + (offset(ws, k, len) - offset(
            ws,
            k - 1,
            len,
        )) * other == (offset(ws, k, len) - offset(ws, 0, len)) * other) by (nonlinear_arith);
    }
}

/// With no padding and weight in every inner node, proportional slicing loses
/// no area: the leaves' rectangles cover exactly `rect`.
pub proof fn lemma_sliced_conserves_area(new: Tree, old: Tree, rect: Rect)
    requires
        sliced(new, old, rect, 0),
        well_formed(old),
        inner_nodes_weigh(old),
        rect.fits(),
    ensures
        leaf_area(new) == rect.area(),
    decreases new,
{
    let n = new.children@.len();
    if n > 0 {
        lemma_sorted_children(old);
        let sorted = sort_desc(old.children@);
        lemma_padded(rect, 0);
        let rects = linear_rects(weights(sorted), rect);
        lemma_linear_rects(weights(sorted), rect);
        let ar = rects.map_values(|r: Rect| r.area());
        assert forall|i: int| 0 <= i < n implies leaf_area(#[trigger] new.children@[i]) == ar[i] by {
            let m = choose|m: int| 0 <= m < n && sorted[i] == old.children@[m];
            assert(inner_nodes_weigh(old.children@[m]));
            lemma_sliced_conserves_area(new.children@[i], sorted[i], rects[i]);
        }
        lemma_sum_leaf_areas(new.children@, ar);
    }
}

fn slice_end(len: u32, part: i64, total: i64) -> (r: u32)
    requires
        0 <= part <= total,
        0 < total,
    ensures
        r == (len * part) / (total as int),
        r <= len,
{
    proof {
        lemma_mul_upper_bound(len as int, u32::MAX as int, part as int, i64::MAX as int);
        lemma_mul_inequality(part as int, total as int, len as int);
        assert(len * part <= len * total) by (nonlinear_arith)
            requires
                part <= total,
        ;
        lemma_div_is_ordered(len * part, len * total, total as int);
        lemma_div_multiples_vanish(len as int, total as int);
        assert(len * part >= 0) by (nonlinear_arith)
            requires
                part >= 0,
        ;
        lemma_div_pos_is_pos(len * part, total as int);
    }
    ((len as u128 * part as u128) / total as u128) as u32
}

/// Lays `tree` out into `rect` by slicing each node's rectangle, shrunk by
/// `pad` on each side, along its longer axis: children by descending size,
/// each slice as long as the child's share of the parent's size.
pub fn arrange(tree: &mut Tree, rect: Rect, pad: u32)
    requires
        well_formed(*old(tree)),
        rect.fits(),
    ensures
        sliced(*final(tree), *old(tree), rect, pad),
    decreases *old(tree),
{
    tree.rect = Some(rect);
    let px = if pad <= rect.w / 2 { pad } else { rect.w / 2 };
    let py = if pad <= rect.h / 2 { pad } else { rect.h / 2 };
    let inner = Rect { x: rect.x + px, y: rect.y + py, w: rect.w - 2 * px, h: rect.h - 2 * py };
    assert(inner == padded(rect, pad));
    proof {
        lemma_sorted_children(*old(tree));
        lemma_sort_desc(old(tree).children@);
    }
    let ghost sorted = sort_desc(old(tree).children@);
    let ghost ws = weights(sorted);
    let ghost rs = linear_rects(ws, inner);
    proof {
        lemma_padded(rect, pad);
        lemma_linear_rects(ws, inner);
    }
    sort_by_weight_desc(&mut tree.children);
    let total = weight_of(tree);
    let n = tree.children.len();
    let horizontal = inner.w > inner.h;
    let len = if horizontal { inner.w } else { inner.h };
    let mut prefix: i64 = 0;
    let mut start: u32 = 0;
    let mut i: usize = 0;
    while i < n
        invariant
            n == tree.children@.len(),
            n == sorted.len(),
            n == old(tree).children@.len(),
            sorted == sort_desc(old(tree).children@),
            ws == weights(sorted),
            rs == linear_rects(ws, inner),
            rs.len() == n,
            inner == padded(rect, pad),
            inner.fits(),
            horizontal == (inner.w > inner.h),
            len == if horizontal { inner.w } else { inner.h },
            forall|j: int| 0 <= j < n ==> (#[trigger] rs[j]).fits(),
            forall|j: int| 0 <= j < n ==> well_formed(#[trigger] sorted[j]),
            forall|j: int| 0 <= j < n ==> #[trigger] ws[j] >= 0,
            forall|j: int|
                0 <= j < n ==> exists|m: int|
                    0 <= m < n && #[trigger] sorted[j] == old(tree).children@[m],
            n > 0 ==> seq_sum(ws) == total,
            total == weight(*old(tree)),
            total >= 0,
            i <= n,
            prefix == seq_sum(ws.subrange(0, i as int)),
            i < n ==> start == offset(ws, i as int, len as int),
            tree.name == old(tree).name,
            tree.size == old(tree).size,
            tree.rect == Some(rect),
            forall|j: int| 0 <= j < i ==> sliced(#[trigger] tree.children@[j], sorted[j], rs[j], pad),
            forall|j: int| i <= j < n ==> #[trigger] tree.children@[j] == sorted[j],
        decreases n - i,
    {
        proof {
            lemma_seq_sum_prefix_bounded(ws, i + 1);
            assert(ws.subrange(0, i + 1).drop_last() =~= ws.subrange(0, i as int));
            assert(ws[i as int] == weight(tree.children@[i as int]));
            lemma_offset(ws, i as int, len as int);
        }
        prefix = prefix + weight_of(&tree.children[i]);
        let end = if total == 0 {
            0
        } else {
            slice_end(len, prefix, total)
        };
        let slice = if horizontal {
            Rect { x: inner.x + start, y: inner.y, w: end - start, h: inner.h }
        } else {
            Rect { x: inner.x, y: inner.y + start, w: inner.w, h: end - start }
        };
        assert(slice == rs[i as int]);
        proof {
            let ghost m = choose|m: int| 0 <= m < n && sorted[i as int] == old(tree).children@[m];
            let ghost cs = old(tree).children;
            assert(decreases_to!(*old(tree) => cs));
            assert(decreases_to!(cs => cs@));
            assert(decreases_to!(cs@ => cs@[m]));
        }
        arrange(&mut tree.children[i], slice, pad);
        start = end;
        i = i + 1;
    }
}

} // verus!
