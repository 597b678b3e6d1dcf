//! Recursive bisection: siblings are split in two groups at a fraction of
//! their weight, each group into its part of the rectangle.

use vstd::arithmetic::mul::lemma_mul_upper_bound;
use vstd::prelude::*;

use crate::arrangements::order::{
    lemma_sorted_children, sort_by_weight_desc, sort_desc,
};
use crate::rect::{lemma_split_conserves_area, split_columns, split_rows, Ratio, Rect};
use crate::tree::{
    cleared, count_total, count_total_seq, lemma_cleared_has_no_area, lemma_count_seq_bounds,
    lemma_seq_sum_zeros, lemma_seq_sum_concat, lemma_seq_sum_prefix_bounded,
    lemma_sum_leaf_areas, leaf_area, seq_sum, weight, weight_of, weights, well_formed, Tree,
};

verus! {

/// The first `k > start` at which the prefix sum of `s` reaches the fraction
/// `num / den` of the whole; `s.len()` when none does.
pub open spec fn reach_index(s: Seq<int>, num: int, den: int, start: int) -> int
    decreases s.len() - start,
{
    if start >= s.len() {
        s.len() as int
    } else if den * seq_sum(s.subrange(0, start + 1)) >= num * seq_sum(s) {
        start + 1
    } else {
        reach_index(s, num, den, start + 1)
    }
}

/// How many of the weights `s` go to the first part of a split at the
/// fraction `num / den`. Weights that sum to zero split at the middle.
pub open spec fn split_index(s: Seq<int>, num: int, den: int) -> int {
    if seq_sum(s) == 0 {
        s.len() as int / 2
    } else {
        reach_index(s, num, den, 0)
    }
}

/// The share of the area that the first part of that split receives.
pub open spec fn split_ratio(s: Seq<int>, num: int, den: int) -> Ratio {
    if seq_sum(s) == 0 {
        Ratio { num: 1, den: 2 }
    } else {
        Ratio {
            num: seq_sum(s.subrange(0, split_index(s, num, den))) as u64,
            den: seq_sum(s) as u64,
        }
    }
}

/// Splits side by side when the rectangle is at least as wide as it is tall,
/// stacked otherwise.
pub open spec fn split_rect(rect: Rect, r: Ratio) -> (Rect, Rect) {
    if rect.w >= rect.h {
        split_columns(rect, r)
    } else {
        split_rows(rect, r)
    }
}

/// The rectangles that recursive bisection gives to nodes of weights `s`,
/// in order.
pub open spec fn bisect_rects(s: Seq<int>, rect: Rect, num: int, den: int) -> Seq<Rect>
    decreases s.len(),
{
    if s.len() == 0 {
        Seq::empty()
    } else if s.len() == 1 {
        seq![rect]
    } else {
        let k = split_index(s, num, den);
        if 1 <= k < s.len() {
            let parts = split_rect(rect, split_ratio(s, num, den));
            bisect_rects(s.subrange(0, k), parts.0, num, den) + bisect_rects(
                s.subrange(k, s.len() as int),
                parts.1,
                num,
                den,
            )
        } else {
            Seq::new(s.len(), |i: int| rect)
        }
    }
}

pub open spec fn areas(rs: Seq<Rect>) -> Seq<int> {
    rs.map_values(|r: Rect| r.area())
}

/// Weights that a stable descending sort has ordered, none negative, whose
/// sum fits in an `i64`.
pub open spec fn sorted_weights(s: Seq<int>) -> bool {
    &&& forall|i: int| 0 <= i < s.len() ==> #[trigger] s[i] >= 0
    &&& forall|i: int, j: int| 0 <= i < j < s.len() ==> #[trigger] s[i] >= #[trigger] s[j]
    &&& seq_sum(s) <= i64::MAX
}

/// The fraction `num / den` of the bisection: positive and at most one half.
pub open spec fn valid_fraction(num: int, den: int) -> bool {
    0 < num && 2 * num <= den && den <= u64::MAX
}

proof fn lemma_reach_index(s: Seq<int>, num: int, den: int, start: int, m: int)
    requires
        0 <= start < m <= s.len(),
        den * seq_sum(s.subrange(0, m)) >= num * seq_sum(s),
    ensures
        start < reach_index(s, num, den, start) <= m,
        den * seq_sum(s.subrange(0, reach_index(s, num, den, start))) >= num * seq_sum(s),
    decreases s.len() - start,
{
    if den * seq_sum(s.subrange(0, start + 1)) < num * seq_sum(s) {
        lemma_reach_index(s, num, den, start + 1, m);
    }
}

proof fn lemma_seq_sum_nonneg(s: Seq<int>)
    requires
        forall|i: int| 0 <= i < s.len() ==> s[i] >= 0,
    ensures
        seq_sum(s) >= 0,
{
    lemma_seq_sum_prefix_bounded(s, s.len() as int);
    assert(s.subrange(0, s.len() as int) =~= s);
}

/// The split of at least two sorted weights leaves both parts non-empty, and
/// its ratio is a fraction.
pub proof fn lemma_split_index(s: Seq<int>, num: int, den: int)
    requires
        sorted_weights(s),
        valid_fraction(num, den),
        s.len() >= 2,
    ensures
        1 <= split_index(s, num, den) < s.len(),
        split_ratio(s, num, den).valid(),
        seq_sum(s) > 0 ==> split_ratio(s, num, den).num == seq_sum(
            s.subrange(0, split_index(s, num, den)),
        ),
        seq_sum(s) > 0 ==> split_ratio(s, num, den).den == seq_sum(s),
{
    lemma_seq_sum_nonneg(s);
    let t = seq_sum(s);
    if t != 0 {
        let n = s.len() as int;
        let head = s.subrange(0, n - 1);
        assert(s.drop_last() =~= head);
        assert(head =~= s.subrange(0, 1) + s.subrange(1, n - 1));
        lemma_seq_sum_concat(s.subrange(0, 1), s.subrange(1, n - 1));
        assert(s.subrange(0, 1).drop_last() =~= Seq::<int>::empty());
        assert(seq_sum(Seq::<int>::empty()) == 0);
        assert(s.subrange(0, 1).last() == s[0]);
        assert(seq_sum(s.subrange(0, 1)) == seq_sum(s.subrange(0, 1).drop_last()) + s.subrange(0, 1).last());
        assert(seq_sum(s.subrange(0, 1)) == s[0]);
        lemma_seq_sum_nonneg(s.subrange(1, n - 1));
        assert(seq_sum(head) == seq_sum(s.subrange(0, 1)) + seq_sum(s.subrange(1, n - 1)));
        assert(s[0] >= s[n - 1]);
        let p = seq_sum(head);
        assert(t == p + s[n - 1]);
        assert(2 * p >= t);
        assert(den * p >= num * t) by (nonlinear_arith)
            requires
                2 * p >= t,
                2 * num <= den,
                0 < num,
                p >= 0,
                t >= 0,
        ;
        lemma_reach_index(s, num, den, 0, n - 1);
        let k = reach_index(s, num, den, 0);
        lemma_seq_sum_prefix_bounded(s, k);
    }
}

/// Bisection gives each weight a rectangle on the grid, and the rectangles
/// together cover exactly the area of the one they were cut from.
pub proof fn lemma_bisect_rects(s: Seq<int>, rect: Rect, num: int, den: int)
    requires
        sorted_weights(s),
        valid_fraction(num, den),
        rect.fits(),
    ensures
        bisect_rects(s, rect, num, den).len() == s.len(),
        forall|i: int|
            0 <= i < s.len() ==> (#[trigger] bisect_rects(s, rect, num, den)[i]).fits(),
        s.len() > 0 ==> seq_sum(areas(bisect_rects(s, rect, num, den))) == rect.area(),
    decreases s.len(),
{
    let out = bisect_rects(s, rect, num, den);
    if s.len() == 1 {
        assert(areas(out).drop_last() =~= Seq::<int>::empty());
        assert(areas(out).last() == rect.area());
        assert(seq_sum(areas(out)) == seq_sum(areas(out).drop_last()) + areas(out).last());
    } else if s.len() >= 2 {
        lemma_split_index(s, num, den);
        let k = split_index(s, num, den);
        let r = split_ratio(s, num, den);
        let parts = split_rect(rect, r);
        lemma_split_conserves_area(rect, r);
        let a = s.subrange(0, k);
        let b = s.subrange(k, s.len() as int);
        lemma_seq_sum_concat(a, b);
        assert(s =~= a + b);
        lemma_seq_sum_prefix_bounded(s, k);
        lemma_seq_sum_nonneg(b);
        lemma_bisect_rects(a, parts.0, num, den);
        lemma_bisect_rects(b, parts.1, num, den);
        let ra = bisect_rects(a, parts.0, num, den);
        let rb = bisect_rects(b, parts.1, num, den);
        assert(out == ra + rb);
        assert(areas(out) =~= areas(ra) + areas(rb));
        lemma_seq_sum_concat(areas(ra), areas(rb));
    }
}

/// `new` is `old` laid out by recursive bisection into `rect`.
pub open spec fn bisected(new: Tree, old: Tree, rect: Rect, num: int, den: int) -> bool
    decreases new,
{
    &&& new.name == old.name
    &&& new.size == old.size
    &&& new.rect == Some(rect)
    &&& new.children@.len() == old.children@.len()
    &&& if rect.area() == 0 {
        forall|i: int|
            0 <= i < new.children@.len() ==> cleared(#[trigger] new.children@[i], old.children@[i])
    } else {
        let sorted = sort_desc(old.children@);
        let rects = bisect_rects(weights(sorted), rect, num, den);
        forall|i: int|
            0 <= i < new.children@.len() ==> bisected(
                #[trigger] new.children@[i],
                sorted[i],
                rects[i],
                num,
                den,
            )
    }
}

/// Bisection loses no area: the leaves' rectangles cover exactly `rect`.
pub proof fn lemma_bisected_conserves_area(new: Tree, old: Tree, rect: Rect, num: int, den: int)
    requires
        bisected(new, old, rect, num, den),
        well_formed(old),
        valid_fraction(num, den),
        rect.fits(),
    ensures
        leaf_area(new) == rect.area(),
    decreases new,
{
    let n = new.children@.len();
    if n > 0 {
        if rect.area() == 0 {
            let z = Seq::new(n, |i: int| 0int);
            assert forall|i: int| 0 <= i < n implies leaf_area(#[trigger] new.children@[i]) == z[i] by {
                lemma_cleared_has_no_area(new.children@[i], old.children@[i]);
            }
            lemma_sum_leaf_areas(new.children@, z);
            lemma_seq_sum_zeros(z);
        } else {
            lemma_sorted_children(old);
            let sorted = sort_desc(old.children@);
            let rects = bisect_rects(weights(sorted), rect, num, den);
            lemma_bisect_rects(weights(sorted), rect, num, den);
            let ar = areas(rects);
            assert forall|i: int| 0 <= i < n implies leaf_area(#[trigger] new.children@[i]) == ar[i] by {
                lemma_bisected_conserves_area(new.children@[i], sorted[i], rects[i], num, den);
            }
            lemma_sum_leaf_areas(new.children@, ar);
        }
    }
}


/// Where the weights of `nodes[lo..hi]` split at the fraction `num / den`:
/// how many nodes go first, and the share of the area they get.
pub fn split_point(nodes: &[Tree], lo: usize, hi: usize, num: u64, den: u64) -> (out: (
    usize,
    Ratio,
))
    requires
        lo < hi <= nodes@.len(),
        forall|i: int| lo <= i < hi ==> weight(#[trigger] nodes@[i]) >= 0,
        seq_sum(weights(nodes@.subrange(lo as int, hi as int))) <= i64::MAX,
        0 < den,
        num <= den,
    ensures
        out.0 == split_index(weights(nodes@.subrange(lo as int, hi as int)), num as int, den as int),
        out.1 == split_ratio(weights(nodes@.subrange(lo as int, hi as int)), num as int, den as int),
{
    let ghost ws = weights(nodes@.subrange(lo as int, hi as int));
    assert forall|i: int| 0 <= i < ws.len() implies #[trigger] ws[i] >= 0 by {
        assert(ws[i] == weight(nodes@[lo + i]));
    }
    let mut total: i64 = 0;
    let mut j: usize = lo;
    while j < hi
        invariant
            lo <= j <= hi,
            hi <= nodes@.len(),
            ws == weights(nodes@.subrange(lo as int, hi as int)),
            forall|i: int| 0 <= i < ws.len() ==> #[trigger] ws[i] >= 0,
            seq_sum(ws) <= i64::MAX,
            total == seq_sum(ws.subrange(0, j - lo)),
        decreases hi - j,
    {
        proof {
            lemma_seq_sum_prefix_bounded(ws, j - lo + 1);
            assert(ws.subrange(0, j - lo + 1).drop_last() =~= ws.subrange(0, j - lo));
            assert(ws[j - lo] == weight(nodes@[j as int]));
        }
        total = total + weight_of(&nodes[j]);
        j = j + 1;
    }
    assert(ws.subrange(0, ws.len() as int) =~= ws);
    if total == 0 {
        return ((hi - lo) / 2, Ratio { num: 1, den: 2 });
    }
    proof {
        lemma_seq_sum_nonneg(ws);
    }
    let mut running: i64 = 0;
    j = lo;
    while j < hi
        invariant
            lo <= j <= hi,
            hi <= nodes@.len(),
            ws == weights(nodes@.subrange(lo as int, hi as int)),
            forall|i: int| 0 <= i < ws.len() ==> #[trigger] ws[i] >= 0,
            total == seq_sum(ws),
            0 < total <= i64::MAX,
            0 < den,
            num <= den,
            running == seq_sum(ws.subrange(0, j - lo)),
            reach_index(ws, num as int, den as int, 0) == reach_index(
                ws,
                num as int,
                den as int,
                j - lo,
            ),
        decreases hi - j,
    {
        proof {
            lemma_seq_sum_prefix_bounded(ws, j - lo + 1);
            assert(ws.subrange(0, j - lo + 1).drop_last() =~= ws.subrange(0, j - lo));
            assert(ws[j - lo] == weight(nodes@[j as int]));
        }
        running = running + weight_of(&nodes[j]);
        proof {
            lemma_mul_upper_bound(den as int, u64::MAX as int, running as int, i64::MAX as int);
            lemma_mul_upper_bound(num as int, u64::MAX as int, total as int, i64::MAX as int);
        }
        if den as u128 * running as u128 >= num as u128 * total as u128 {
            return (j - lo + 1, Ratio { num: running as u64, den: total as u64 });
        }
        j = j + 1;
    }
    (hi - lo, Ratio { num: total as u64, den: total as u64 })
}

/// Appends to `out` the rectangles that bisection gives to `nodes[lo..hi]`.
fn bisect_layout(
    nodes: &[Tree],
    lo: usize,
    hi: usize,
    rect: Rect,
    num: u64,
    den: u64,
    out: &mut Vec<Rect>,
)
    requires
        lo <= hi <= nodes@.len(),
        sorted_weights(weights(nodes@.subrange(lo as int, hi as int))),
        valid_fraction(num as int, den as int),
        rect.fits(),
    ensures
        final(out)@ == old(out)@ + bisect_rects(
            weights(nodes@.subrange(lo as int, hi as int)),
            rect,
            num as int,
            den as int,
        ),
    decreases hi - lo,
{
    let ghost ws = weights(nodes@.subrange(lo as int, hi as int));
    if hi - lo == 0 {
        assert(out@ + Seq::<Rect>::empty() =~= out@);
    } else if hi - lo == 1 {
        out.push(rect);
    } else {
        assert forall|i: int| lo <= i < hi implies weight(#[trigger] nodes@[i]) >= 0 by {
            assert(ws[i - lo] == weight(nodes@[i]));
        }
        let (k, r) = split_point(nodes, lo, hi, num, den);
        proof {
            lemma_split_index(ws, num as int, den as int);
            lemma_split_conserves_area(rect, r);
        }
        let parts = if rect.w >= rect.h {
            rect.divide_horizontally(r)
        } else {
            rect.divide_vertically(r)
        };
        let ghost a = ws.subrange(0, k as int);
        let ghost b = ws.subrange(k as int, ws.len() as int);
        proof {
            assert(weights(nodes@.subrange(lo as int, (lo + k) as int)) =~= a);
            assert(weights(nodes@.subrange((lo + k) as int, hi as int)) =~= b);
            lemma_seq_sum_concat(a, b);
            assert(ws =~= a + b);
            lemma_seq_sum_nonneg(a);
            lemma_seq_sum_nonneg(b);
        }
        let ghost o0 = out@;
        bisect_layout(nodes, lo, lo + k, parts.0, num, den, out);
        bisect_layout(nodes, lo + k, hi, parts.1, num, den, out);
        let ghost ra = bisect_rects(a, parts.0, num as int, den as int);
        let ghost rb = bisect_rects(b, parts.1, num as int, den as int);
        assert(out@ =~= o0 + (ra + rb));
        proof {
            assert(bisect_rects(ws, rect, num as int, den as int) == bisect_rects(
                a,
                parts.0,
                num as int,
                den as int,
            ) + bisect_rects(b, parts.1, num as int, den as int));
        }
    }
}

/// Lays `tree` out into `rect` by recursive bisection at the fraction `num / den`.
pub fn arrange_bisect(tree: &mut Tree, rect: Rect, num: u64, den: u64)
    requires
        well_formed(*old(tree)),
        rect.fits(),
        valid_fraction(num as int, den as int),
    ensures
        bisected(*final(tree), *old(tree), rect, num as int, den as int),
        leaf_area(*final(tree)) == rect.area(),
    decreases *old(tree),
{
    tree.rect = Some(rect);
    let n = tree.children.len();
    if rect.w == 0 || rect.h == 0 {
        assert(rect.area() == 0) by (nonlinear_arith)
            requires
                rect.w == 0 || rect.h == 0,
        ;
        let mut i: usize = 0;
        while i < n
            invariant
                n == tree.children@.len(),
                n == old(tree).children@.len(),
                i <= n,
                tree.name == old(tree).name,
                tree.size == old(tree).size,
                tree.rect == Some(rect),
                forall|j: int| 0 <= j < i ==> cleared(#[trigger] tree.children@[j], old(tree).children@[j]),
                forall|j: int| i <= j < n ==> #[trigger] tree.children@[j] == old(tree).children@[j],
            decreases n - i,
        {
            tree.children[i].clear_rects();
            i = i + 1;
        }
    } else {
        assert(rect.area() != 0) by (nonlinear_arith)
            requires
                rect.w != 0 && rect.h != 0,
        ;
        proof {
            lemma_sorted_children(*old(tree));
        }
        let ghost sorted = sort_desc(old(tree).children@);
        sort_by_weight_desc(&mut tree.children);
        let mut rects: Vec<Rect> = Vec::new();
        proof {
            assert(tree.children@.subrange(0, n as int) =~= sorted);
        }
        bisect_layout(tree.children.as_slice(), 0, n, rect, num, den, &mut rects);
        proof {
            lemma_bisect_rects(weights(sorted), rect, num as int, den as int);
        }
        let ghost rs = bisect_rects(weights(sorted), rect, num as int, den as int);
        assert(rects@ =~= rs);
        let mut i: usize = 0;
        while i < n
            invariant
                n == tree.children@.len(),
                n == sorted.len(),
                n == old(tree).children@.len(),
                sorted == sort_desc(old(tree).children@),
                rects@ == rs,
                rs.len() == n,
                forall|j: int| 0 <= j < n ==> (#[trigger] rs[j]).fits(),
                forall|j: int| 0 <= j < n ==> well_formed(#[trigger] sorted[j]),
                forall|j: int|
                    0 <= j < n ==> exists|m: int|
                        0 <= m < n && #[trigger] sorted[j] == old(tree).children@[m],
                valid_fraction(num as int, den as int),
                i <= n,
                tree.name == old(tree).name,
                tree.size == old(tree).size,
                tree.rect == Some(rect),
                forall|j: int|
                    0 <= j < i ==> bisected(
                        #[trigger] tree.children@[j],
                        sorted[j],
                        rs[j],
                        num as int,
                        den as int,
                    ),
                forall|j: int| i <= j < n ==> #[trigger] tree.children@[j] == sorted[j],
            decreases n - i,
        {
            proof {
                let m = choose|m: int| 0 <= m < n && sorted[i as int] == old(tree).children@[m];
                let cs = old(tree).children;
                assert(decreases_to!(*old(tree) => cs));
                assert(decreases_to!(cs => cs@));
                assert(decreases_to!(cs@ => cs@[m]));
            }
            arrange_bisect(&mut tree.children[i], rects[i], num, den);
            i = i + 1;
        }
    }
    proof {
        lemma_bisected_conserves_area(*tree, *old(tree), rect, num as int, den as int);
    }
}


/// Why a group of nodes has no split point.
#[derive(Clone, Copy, Debug, PartialEq, Eq, Structural)]
pub enum SplitError {
    /// There is nothing to split.
    NoNodes,
}

/// The split point of all of `nodes` at the fraction `num / den`.
pub fn split_all(nodes: &[Tree], num: u64, den: u64) -> (r: Result<(usize, Ratio), SplitError>)
    requires
        forall|i: int| 0 <= i < nodes@.len() ==> weight(#[trigger] nodes@[i]) >= 0,
        seq_sum(weights(nodes@)) <= i64::MAX,
        0 < den,
        num <= den,
    ensures
        r is Err <==> nodes@.len() == 0,
        r is Err ==> r == Err::<(usize, Ratio), SplitError>(SplitError::NoNodes),
        r is Ok ==> r->Ok_0.0 == split_index(weights(nodes@), num as int, den as int),
        r is Ok ==> r->Ok_0.1 == split_ratio(weights(nodes@), num as int, den as int),
{
    if nodes.len() == 0 {
        Err(SplitError::NoNodes)
    } else {
        assert(nodes@.subrange(0, nodes@.len() as int) =~= nodes@);
        Ok(split_point(nodes, 0, nodes.len(), num, den))
    }
}


proof fn lemma_cleared_counts(new: Tree, old: Tree)
    requires
        cleared(new, old),
    ensures
        count_total(new, true) == 0,
        count_total(new, false) == count_total(old, false),
    decreases new,
{
    lemma_cleared_counts_seq(new.children@, old.children@);
}

proof fn lemma_cleared_counts_seq(ns: Seq<Tree>, os: Seq<Tree>)
    requires
        ns.len() == os.len(),
        forall|i: int| 0 <= i < ns.len() ==> cleared(#[trigger] ns[i], os[i]),
    ensures
        count_total_seq(ns, true) == 0,
        count_total_seq(ns, false) == count_total_seq(os, false),
    decreases ns,
{
    if ns.len() > 0 {
        let n = ns.len() - 1;
        lemma_cleared_counts_seq(ns.subrange(0, n), os.subrange(0, n));
        lemma_cleared_counts(ns[n], os[n]);
    }
}

/// Laid out into a rectangle without area, a tree shows its root alone: the
/// root keeps that rectangle and no node below it gets one.
pub proof fn lemma_zero_area_shows_root_only(new: Tree, old: Tree, rect: Rect, num: int, den: int)
    requires
        bisected(new, old, rect, num, den),
        rect.area() == 0,
    ensures
        count_total(new, true) == 1,
        count_total(new, false) == count_total(old, false),
        old.children@.len() > 0 ==> count_total(new, true) < count_total(new, false),
{
    lemma_cleared_counts_seq(new.children@, old.children@);
    if old.children@.len() > 0 {
        let n = old.children@.len() - 1;
        lemma_count_seq_bounds(old.children@.subrange(0, n), false);
        lemma_count_seq_bounds(old.children@[n].children@, false);
        assert(count_total(old.children@[n], false) >= 1);
        assert(count_total_seq(old.children@, false) >= 1);
        assert(count_total(new, false) == 1 + count_total_seq(new.children@, false));
    }
}

} // verus!
