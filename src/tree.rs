//! The weighted tree that layouts work on: sizes, counts, hit-testing, search
//! and equality.

use vstd::prelude::*;

use crate::rect::{Point, Rect};
use crate::text::{
    char_views, chars_of, contains_exec, contains_word, fuzzy_match, fuzzy_match_exec, lower_of,
    lowercase, split_chars, split_on,
};

verus! {

/// A weighted N-ary tree: the subject of every arrangement.
#[derive(Debug)]
pub struct Tree {
    pub name: String,
    pub size: Option<i64>,
    pub rect: Option<Rect>,
    pub children: Vec<Tree>,
}

/// The size of a node: its own size when set, else the sum over its children.
pub open spec fn computed_size(t: Tree) -> int
    decreases t,
{
    match t.size {
        Some(s) => s as int,
        None => sum_computed_sizes(t.children@),
    }
}

pub open spec fn sum_computed_sizes(ts: Seq<Tree>) -> int
    decreases ts,
{
    if ts.len() == 0 {
        0
    } else {
        sum_computed_sizes(ts.subrange(0, ts.len() - 1)) + computed_size(ts[ts.len() - 1])
    }
}


/// Every partial sum that resolving the sizes of `t` computes fits in an `i64`.
pub open spec fn sums_fit(t: Tree) -> bool
    decreases t,
{
    match t.size {
        Some(_) => true,
        None => {
            &&& forall|k: int|
                0 <= k <= t.children@.len() ==> i64::MIN <= #[trigger] sum_computed_sizes(
                    t.children@.subrange(0, k),
                ) <= i64::MAX
            &&& forall|i: int| 0 <= i < t.children@.len() ==> sums_fit(#[trigger] t.children@[i])
        },
    }
}

/// `new` is `old` with every unset size below it resolved, as
/// `get_or_compute_size` leaves it.
pub open spec fn resolves(new: Tree, old: Tree) -> bool
    decreases old,
{
    match old.size {
        Some(_) => new == old,
        None => {
            &&& new.name == old.name
            &&& new.rect == old.rect
            &&& new.size == Some(computed_size(old) as i64)
            &&& new.children@.len() == old.children@.len()
            &&& forall|i: int|
                0 <= i < old.children@.len() ==> resolves(
                    #[trigger] new.children@[i],
                    old.children@[i],
                )
        },
    }
}

impl Tree {
    /// The size, computed from the children first when it is not set yet,
    /// and kept in every node it was computed for.
    pub fn get_or_compute_size(&mut self) -> (r: i64)
        requires
            sums_fit(*old(self)),
        ensures
            r == computed_size(*old(self)),
            resolves(*final(self), *old(self)),
        decreases *old(self),
    {
        let current = self.size;
        match current {
            Some(s) => s,
            None => {
                let ghost cs = old(self).children@;
                let mut size: i64 = 0;
                let mut i: usize = 0;
                while i < self.children.len()
                    invariant
                        cs == old(self).children@,
                        old(self).size is None,
                        sums_fit(*old(self)),
                        i <= self.children@.len(),
                        self.children@.len() == cs.len(),
                        self.name == old(self).name,
                        self.rect == old(self).rect,
                        self.size == old(self).size,
                        size == sum_computed_sizes(old(self).children@.subrange(0, i as int)),
                        forall|j: int| 0 <= j < i ==> resolves(#[trigger] self.children@[j], old(self).children@[j]),
                        forall|j: int| i <= j < self.children@.len() ==> #[trigger] self.children@[j] == old(self).children@[j],
                    decreases self.children@.len() - i,
                {
                    proof {
                        assert(sums_fit(cs[i as int]));
                        assert(cs.subrange(0, i + 1).subrange(0, i as int) =~= cs.subrange(0, i as int));
                        assert(i64::MIN <= sum_computed_sizes(cs.subrange(0, i + 1)) <= i64::MAX);
                    }
                    let s = self.children[i].get_or_compute_size();
                    size = size + s;
                    i = i + 1;
                }
                assert(cs.subrange(0, cs.len() as int) =~= cs);
                self.size = Some(size);
                size
            },
        }
    }
}


/// The weight a node is laid out with: its size, or zero while unset.
pub open spec fn weight(t: Tree) -> int {
    match t.size {
        Some(s) => s as int,
        None => 0,
    }
}

pub open spec fn weights(ts: Seq<Tree>) -> Seq<int> {
    ts.map_values(|t: Tree| weight(t))
}

pub open spec fn seq_sum(s: Seq<int>) -> int
    decreases s.len(),
{
    if s.len() == 0 {
        0
    } else {
        seq_sum(s.drop_last()) + s.last()
    }
}

pub proof fn lemma_seq_sum_concat(a: Seq<int>, b: Seq<int>)
    ensures
        seq_sum(a + b) == seq_sum(a) + seq_sum(b),
    decreases b.len(),
{
    if b.len() == 0 {
        assert(a + b =~= a);
    } else {
        assert((a + b).drop_last() =~= a + b.drop_last());
        lemma_seq_sum_concat(a, b.drop_last());
    }
}

pub proof fn lemma_seq_sum_insert(s: Seq<int>, p: int, v: int)
    requires
        0 <= p <= s.len(),
    ensures
        seq_sum(s.insert(p, v)) == seq_sum(s) + v,
    decreases s.len(),
{
    if p == s.len() {
        assert(s.insert(p, v).drop_last() =~= s);
    } else {
        assert(s.insert(p, v).drop_last() =~= s.drop_last().insert(p, v));
        lemma_seq_sum_insert(s.drop_last(), p, v);
    }
}

/// A sum of non-negative terms bounds each prefix of them.
pub proof fn lemma_seq_sum_prefix_bounded(s: Seq<int>, k: int)
    requires
        0 <= k <= s.len(),
        forall|i: int| 0 <= i < s.len() ==> s[i] >= 0,
    ensures
        0 <= seq_sum(s.subrange(0, k)) <= seq_sum(s),
    decreases s.len(),
{
    if s.len() > 0 {
        if k == s.len() {
            assert(s.subrange(0, k) =~= s);
            lemma_seq_sum_prefix_bounded(s.drop_last(), k - 1);
            assert(s.drop_last().subrange(0, k - 1) =~= s.drop_last());
        } else {
            lemma_seq_sum_prefix_bounded(s.drop_last(), k);
            assert(s.drop_last().subrange(0, k) =~= s.subrange(0, k));
        }
    }
}

/// Sizes are set and non-negative everywhere, and each inner node weighs the
/// sum of its children.
pub open spec fn well_formed(t: Tree) -> bool
    decreases t,
{
    &&& t.size is Some
    &&& weight(t) >= 0
    &&& t.children@.len() > 0 ==> weight(t) == seq_sum(weights(t.children@))
    &&& forall|i: int| 0 <= i < t.children@.len() ==> well_formed(#[trigger] t.children@[i])
}

/// `new` is `old` with no rectangle anywhere.
pub open spec fn cleared(new: Tree, old: Tree) -> bool
    decreases new,
{
    &&& new.name == old.name
    &&& new.size == old.size
    &&& new.rect is None
    &&& new.children@.len() == old.children@.len()
    &&& forall|i: int|
        0 <= i < new.children@.len() ==> cleared(#[trigger] new.children@[i], old.children@[i])
}

/// The area covered by the leaves that have a rectangle.
pub open spec fn leaf_area(t: Tree) -> int
    decreases t,
{
    if t.children@.len() == 0 {
        match t.rect {
            Some(r) => r.area(),
            None => 0,
        }
    } else {
        sum_leaf_areas(t.children@)
    }
}

pub open spec fn sum_leaf_areas(ts: Seq<Tree>) -> int
    decreases ts,
{
    if ts.len() == 0 {
        0
    } else {
        sum_leaf_areas(ts.subrange(0, ts.len() - 1)) + leaf_area(ts[ts.len() - 1])
    }
}

pub proof fn lemma_sum_leaf_areas(ts: Seq<Tree>, areas: Seq<int>)
    requires
        ts.len() == areas.len(),
        forall|i: int| 0 <= i < ts.len() ==> leaf_area(#[trigger] ts[i]) == areas[i],
    ensures
        sum_leaf_areas(ts) == seq_sum(areas),
    decreases ts.len(),
{
    if ts.len() > 0 {
        let n = ts.len() - 1;
        assert(areas.drop_last() =~= areas.subrange(0, n));
        lemma_sum_leaf_areas(ts.subrange(0, n), areas.drop_last());
    }
}

pub proof fn lemma_cleared_has_no_area(new: Tree, old: Tree)
    requires
        cleared(new, old),
    ensures
        leaf_area(new) == 0,
    decreases new,
{
    let z = Seq::new(new.children@.len(), |i: int| 0int);
    assert forall|i: int| 0 <= i < new.children@.len() implies leaf_area(
        #[trigger] new.children@[i],
    ) == z[i] by {
        lemma_cleared_has_no_area(new.children@[i], old.children@[i]);
    }
    lemma_sum_leaf_areas(new.children@, z);
    lemma_seq_sum_zeros(z);
}

pub proof fn lemma_seq_sum_zeros(s: Seq<int>)
    requires
        forall|i: int| 0 <= i < s.len() ==> s[i] == 0,
    ensures
        seq_sum(s) == 0,
    decreases s.len(),
{
    if s.len() > 0 {
        lemma_seq_sum_zeros(s.drop_last());
    }
}

pub fn weight_of(t: &Tree) -> (r: i64)
    ensures
        r == weight(*t),
{
    match t.size {
        Some(s) => s,
        None => 0,
    }
}


impl Tree {
    /// Removes the rectangle of this node and of every node below it.
    pub fn clear_rects(&mut self)
        ensures
            cleared(*final(self), *old(self)),
        decreases *old(self),
    {
        self.rect = None;
        let n = self.children.len();
        let mut i: usize = 0;
        while i < n
            invariant
                n == self.children@.len(),
                n == old(self).children@.len(),
                i <= n,
                self.name == old(self).name,
                self.size == old(self).size,
                self.rect is None,
                forall|j: int| 0 <= j < i ==> cleared(#[trigger] self.children@[j], old(self).children@[j]),
                forall|j: int| i <= j < n ==> #[trigger] self.children@[j] == old(self).children@[j],
            decreases n - i,
        {
            self.children[i].clear_rects();
            i = i + 1;
        }
    }
}


/// Two trees with the same names and sizes, node by node, in the same order.
/// Rectangles are not compared.
pub open spec fn same_shape(a: Tree, b: Tree) -> bool
    decreases a,
{
    &&& a.name@ == b.name@
    &&& a.size == b.size
    &&& a.children@.len() == b.children@.len()
    &&& forall|i: int|
        0 <= i < a.children@.len() ==> same_shape(#[trigger] a.children@[i], b.children@[i])
}

/// A node not yet sized, over `children`.
pub open spec fn unsized_node(name: String, children: Vec<Tree>) -> Tree {
    Tree { name, size: None, rect: None, children }
}

pub proof fn lemma_resolves_sized(new: Tree, old: Tree)
    requires
        resolves(new, old),
        old.size is Some,
    ensures
        new == old,
{
}

proof fn lemma_sum_sized(ts: Seq<Tree>)
    requires
        forall|i: int| 0 <= i < ts.len() ==> (#[trigger] ts[i]).size is Some,
    ensures
        sum_computed_sizes(ts) == seq_sum(weights(ts)),
    decreases ts.len(),
{
    if ts.len() > 0 {
        let n = ts.len() - 1;
        lemma_sum_sized(ts.subrange(0, n));
        assert(weights(ts).drop_last() =~= weights(ts.subrange(0, n)));
        assert(computed_size(ts[n]) == weight(ts[n]));
        assert(weights(ts).last() == weight(ts[n]));
    }
}

proof fn lemma_seq_sum_nonneg_weights(ts: Seq<Tree>)
    requires
        forall|i: int| 0 <= i < ts.len() ==> well_formed(#[trigger] ts[i]),
    ensures
        seq_sum(weights(ts)) >= 0,
{
    let ws = weights(ts);
    assert forall|i: int| 0 <= i < ws.len() implies ws[i] >= 0 by {
        assert(well_formed(ts[i]));
    }
    lemma_seq_sum_prefix_bounded(ws, ws.len() as int);
    assert(ws.subrange(0, ws.len() as int) =~= ws);
}

impl Tree {
    /// A leaf of the given size.
    pub fn new_from_size(name: String, size: i64) -> (r: Tree)
        ensures
            r.name == name,
            r.size == Some(size),
            r.rect is None,
            r.children@.len() == 0,
            size >= 0 ==> well_formed(r),
    {
        Tree { name, size: Some(size), rect: None, children: Vec::new() }
    }

    /// A node over `children`, sized at once with the sum of their sizes;
    /// children not sized yet are sized first.
    pub fn new_from_children(name: String, children: Vec<Tree>) -> (r: Tree)
        requires
            sums_fit(unsized_node(name, children)),
        ensures
            resolves(r, unsized_node(name, children)),
            r.name == name,
            r.size == Some(sum_computed_sizes(children@) as i64),
            r.rect is None,
            (forall|i: int| 0 <= i < children@.len() ==> well_formed(#[trigger] children@[i]))
                ==> well_formed(r) && r.children@ == children@,
    {
        let mut node = Tree { name, size: None, rect: None, children };
        node.get_or_compute_size();
        proof {
            let old_node = unsized_node(name, children);
            if forall|i: int| 0 <= i < children@.len() ==> well_formed(#[trigger] children@[i]) {
                assert forall|i: int| 0 <= i < children@.len() implies node.children@[i]
                    == children@[i] by {
                    assert(well_formed(children@[i]));
                    lemma_resolves_sized(node.children@[i], children@[i]);
                }
                assert(node.children@ =~= children@);
                lemma_sum_sized(children@);
                lemma_seq_sum_nonneg_weights(children@);
            }
        }
        node
    }

    /// A node over `children` with the size given, which is taken as it is.
    pub fn new_from_computed_size(name: String, size: i64, children: Vec<Tree>) -> (r: Tree)
        ensures
            r == (Tree { name, size: Some(size), rect: None, children }),
    {
        Tree { name, size: Some(size), rect: None, children }
    }

    pub fn size(&self) -> (r: i64)
        requires
            self.size is Some,
        ensures
            self.size == Some(r),
    {
        match self.size {
            Some(s) => s,
            None => 0,
        }
    }

    pub fn is_leaf(&self) -> (r: bool)
        ensures
            r == (self.children@.len() == 0),
    {
        self.children.len() == 0
    }

    /// Names, sizes and children equal, in order, all the way down;
    /// rectangles are not compared.
    pub fn recursive_equals(&self, other: &Tree) -> (r: bool)
        ensures
            r == same_shape(*self, *other),
        decreases *self,
    {
        if self.name != other.name {
            false
        } else if self.size != other.size {
            false
        } else if self.children.len() != other.children.len() {
            false
        } else {
            let n = self.children.len();
            let mut i: usize = 0;
            while i < n
                invariant
                    n == self.children@.len(),
                    n == other.children@.len(),
                    i <= n,
                    forall|j: int| 0 <= j < i ==> same_shape(#[trigger] self.children@[j], other.children@[j]),
                decreases n - i,
            {
                if !self.children[i].recursive_equals(&other.children[i]) {
                    return false;
                }
                i = i + 1;
            }
            true
        }
    }
}

impl PartialEq for Tree {
    /// Name and size alone; children and rectangles are not compared.
    fn eq(&self, other: &Tree) -> (r: bool)
        ensures
            r == (self.name@ == other.name@ && self.size == other.size),
    {
        self.name == other.name && self.size == other.size
    }
}

impl vstd::std_specs::cmp::PartialEqSpecImpl for Tree {
    open spec fn obeys_eq_spec() -> bool {
        true
    }

    open spec fn eq_spec(&self, other: &Tree) -> bool {
        self.name@ == other.name@ && self.size == other.size
    }
}


/// How many nodes a tree holds, and how many of them are leaves.
#[derive(Clone, Copy, Debug, PartialEq, Eq, Structural)]
pub struct Counts {
    pub total: usize,
    pub leafs: usize,
}

/// Whether a node is counted: every node, or only those with a rectangle.
pub open spec fn counted(t: Tree, visible_only: bool) -> bool {
    !visible_only || t.rect is Some
}

/// The counted nodes of `t`.
pub open spec fn count_total(t: Tree, visible_only: bool) -> int
    decreases t,
{
    (if counted(t, visible_only) {
        1int
    } else {
        0int
    }) + count_total_seq(t.children@, visible_only)
}

pub open spec fn count_total_seq(ts: Seq<Tree>, visible_only: bool) -> int
    decreases ts,
{
    if ts.len() == 0 {
        0
    } else {
        count_total_seq(ts.subrange(0, ts.len() - 1), visible_only) + count_total(
            ts[ts.len() - 1],
            visible_only,
        )
    }
}

/// The counted leaves of `t`.
pub open spec fn count_leafs(t: Tree, visible_only: bool) -> int
    decreases t,
{
    if t.children@.len() == 0 {
        if counted(t, visible_only) {
            1
        } else {
            0
        }
    } else {
        count_leafs_seq(t.children@, visible_only)
    }
}

pub open spec fn count_leafs_seq(ts: Seq<Tree>, visible_only: bool) -> int
    decreases ts,
{
    if ts.len() == 0 {
        0
    } else {
        count_leafs_seq(ts.subrange(0, ts.len() - 1), visible_only) + count_leafs(
            ts[ts.len() - 1],
            visible_only,
        )
    }
}

pub proof fn lemma_count_bounds(t: Tree, visible_only: bool)
    ensures
        0 <= count_leafs(t, visible_only) <= count_total(t, visible_only),
        count_total(t, visible_only) <= count_total(t, false),
    decreases t,
{
    lemma_count_seq_bounds(t.children@, visible_only);
}

pub proof fn lemma_count_seq_bounds(ts: Seq<Tree>, visible_only: bool)
    ensures
        0 <= count_leafs_seq(ts, visible_only) <= count_total_seq(ts, visible_only),
        count_total_seq(ts, visible_only) <= count_total_seq(ts, false),
    decreases ts,
{
    if ts.len() > 0 {
        lemma_count_seq_bounds(ts.subrange(0, ts.len() - 1), visible_only);
        lemma_count_bounds(ts[ts.len() - 1], visible_only);
    }
}

impl Tree {
    fn count_where(&self, visible_only: bool) -> (r: Counts)
        requires
            count_total(*self, false) <= usize::MAX,
        ensures
            r.total == count_total(*self, visible_only),
            r.leafs == count_leafs(*self, visible_only),
        decreases *self,
    {
        let count_self: usize = if !visible_only || self.rect.is_some() {
            1
        } else {
            0
        };
        let n = self.children.len();
        proof {
            lemma_count_bounds(*self, visible_only);
        }
        if n == 0 {
            assert(self.children@.subrange(0, 0) =~= self.children@);
            return Counts { total: count_self, leafs: count_self };
        }
        let mut total = count_self;
        let mut leafs: usize = 0;
        let mut i: usize = 0;
        while i < n
            invariant
                n == self.children@.len(),
                0 < n,
                i <= n,
                count_total(*self, false) <= usize::MAX,
                count_total(*self, false) == 1 + count_total_seq(self.children@, false),
                total == count_self + count_total_seq(self.children@.subrange(0, i as int), visible_only),
                count_self <= 1,
                leafs == count_leafs_seq(self.children@.subrange(0, i as int), visible_only),
            decreases n - i,
        {
            let ghost cs = self.children@;
            proof {
                assert(cs.subrange(0, i + 1).subrange(0, i as int) =~= cs.subrange(0, i as int));
                lemma_count_seq_bounds(cs.subrange(0, i as int), false);
                lemma_count_seq_bounds(cs.subrange(0, i + 1), visible_only);
                lemma_count_seq_prefix(cs, i + 1, visible_only);
                assert(cs.subrange(0, i + 1)[i as int] == cs[i as int]);
                assert(count_total_seq(cs.subrange(0, i + 1), false) == count_total_seq(
                    cs.subrange(0, i as int),
                    false,
                ) + count_total(cs[i as int], false));
                lemma_count_bounds(cs[i as int], visible_only);
                assert(count_total(*self, false) <= usize::MAX);
            }
            let c = self.children[i].count_where(visible_only);
            leafs = leafs + c.leafs;
            total = total + c.total;
            i = i + 1;
        }
        assert(self.children@.subrange(0, n as int) =~= self.children@);
        Counts { total, leafs }
    }

    /// All nodes, and the leaves among them.
    pub fn count(&self) -> (r: Counts)
        requires
            count_total(*self, false) <= usize::MAX,
        ensures
            r.total == count_total(*self, false),
            r.leafs == count_leafs(*self, false),
    {
        self.count_where(false)
    }

    /// The nodes that have a rectangle, and the leaves among them.
    pub fn count_visible(&self) -> (r: Counts)
        requires
            count_total(*self, false) <= usize::MAX,
        ensures
            r.total == count_total(*self, true),
            r.leafs == count_leafs(*self, true),
    {
        self.count_where(true)
    }
}

proof fn lemma_count_seq_prefix(ts: Seq<Tree>, k: int, visible_only: bool)
    requires
        0 <= k <= ts.len(),
    ensures
        count_total_seq(ts.subrange(0, k), false) <= count_total_seq(ts, false),
    decreases ts.len(),
{
    if k < ts.len() {
        lemma_count_seq_prefix(ts.subrange(0, ts.len() - 1), k, visible_only);
        assert(ts.subrange(0, ts.len() - 1).subrange(0, k) =~= ts.subrange(0, k));
        lemma_count_bounds(ts[ts.len() - 1], false);
    } else {
        assert(ts.subrange(0, k) =~= ts);
    }
}


/// The first of `ts`, from `k` on, whose rectangle contains `p`;
/// `ts.len()` when none does.
pub open spec fn first_hit(ts: Seq<Tree>, p: Point, k: int) -> int
    decreases ts.len() - k,
{
    if k >= ts.len() {
        ts.len() as int
    } else if ts[k].rect is Some && ts[k].rect->Some_0.spec_contains(p) {
        k
    } else {
        first_hit(ts, p, k + 1)
    }
}

/// The path from `t` down through the first child whose rectangle contains
/// `p`, at each level, to the deepest such node.
pub open spec fn path_at(t: Tree, p: Point) -> Seq<Tree>
    decreases t,
{
    let k = first_hit(t.children@, p, 0);
    if 0 <= k < t.children@.len() {
        seq![t] + path_at(t.children@[k], p)
    } else {
        seq![t]
    }
}

/// Every node that a search for `p` visits has children with a rectangle.
pub open spec fn hit_ready(t: Tree, p: Point) -> bool
    decreases t,
{
    forall|i: int|
        0 <= i < t.children@.len() ==> {
            &&& (#[trigger] t.children@[i]).rect is Some
            &&& t.children@[i].rect->Some_0.spec_contains(p) ==> hit_ready(t.children@[i], p)
        }
}

proof fn lemma_first_hit(ts: Seq<Tree>, p: Point, k: int)
    requires
        0 <= k <= ts.len(),
    ensures
        k <= first_hit(ts, p, k) <= ts.len(),
        first_hit(ts, p, k) < ts.len() ==> ts[first_hit(ts, p, k)].rect is Some
            && ts[first_hit(ts, p, k)].rect->Some_0.spec_contains(p),
    decreases ts.len() - k,
{
    if k < ts.len() && !(ts[k].rect is Some && ts[k].rect->Some_0.spec_contains(p)) {
        lemma_first_hit(ts, p, k + 1);
    }
}

/// The first node, depth first, named `name`, with its ancestors from `t` down.
pub open spec fn path_to_name(t: Tree, name: Seq<char>) -> Option<Seq<Tree>>
    decreases t,
{
    if t.name@ == name {
        Some(seq![t])
    } else {
        match path_to_name_in(t.children@, name) {
            Some(path) => Some(seq![t] + path),
            None => None,
        }
    }
}

pub open spec fn path_to_name_in(ts: Seq<Tree>, name: Seq<char>) -> Option<Seq<Tree>>
    decreases ts,
{
    if ts.len() == 0 {
        None
    } else {
        match path_to_name(ts[0], name) {
            Some(path) => Some(path),
            None => path_to_name_in(ts.subrange(1, ts.len() as int), name),
        }
    }
}

impl Tree {
    fn index_hit(&self, p: Point) -> (k: usize)
        requires
            hit_ready(*self, p),
        ensures
            k == first_hit(self.children@, p, 0),
    {
        let n = self.children.len();
        let mut k: usize = 0;
        while k < n
            invariant
                n == self.children@.len(),
                k <= n,
                hit_ready(*self, p),
                first_hit(self.children@, p, 0) == first_hit(self.children@, p, k as int),
            decreases n - k,
        {
            let hit = match self.children[k].rect {
                Some(r) => r.contains(p),
                None => false,
            };
            if hit {
                return k;
            }
            k = k + 1;
        }
        k
    }

    fn push_path_at<'a>(&'a self, p: Point, out: &mut Vec<&'a Tree>)
        requires
            hit_ready(*self, p),
        ensures
            final(out)@.unref() == old(out)@.unref() + path_at(*self, p),
        decreases *self,
    {
        out.push(self);
        let k = self.index_hit(p);
        proof {
            lemma_first_hit(self.children@, p, 0);
        }
        if k < self.children.len() {
            let ghost mid = out@;
            self.children[k].push_path_at(p, out);
            assert(out@.unref() =~= old(out)@.unref() + path_at(*self, p));
        } else {
            assert(out@.unref() =~= old(out)@.unref() + path_at(*self, p));
        }
    }

    /// The nodes whose rectangles contain `p`, from this node down: at each
    /// level the first child that contains it.
    pub fn get_nested_by_position(&self, p: Point) -> (r: Vec<&Tree>)
        requires
            hit_ready(*self, p),
        ensures
            r@.unref() == path_at(*self, p),
    {
        let mut out: Vec<&Tree> = Vec::new();
        self.push_path_at(p, &mut out);
        assert(out@.unref() =~= path_at(*self, p));
        out
    }

    /// The deepest node on the path that `get_nested_by_position` follows.
    pub fn deepest_child(&self, p: Point) -> (r: &Tree)
        requires
            hit_ready(*self, p),
        ensures
            *r == path_at(*self, p).last(),
        decreases *self,
    {
        let k = self.index_hit(p);
        proof {
            lemma_first_hit(self.children@, p, 0);
        }
        if k < self.children.len() {
            let r = self.children[k].deepest_child(p);
            assert(path_at(*self, p).last() == path_at(self.children@[k as int], p).last());
            r
        } else {
            self
        }
    }

    fn find_name<'a>(&'a self, name: &String, out: &mut Vec<&'a Tree>) -> (found: bool)
        ensures
            found == path_to_name(*self, name@) is Some,
            found ==> final(out)@.unref() == old(out)@.unref() + path_to_name(*self, name@)->Some_0,
            !found ==> final(out)@ == old(out)@,
        decreases *self,
    {
        if self.name == *name {
            out.push(self);
            return true;
        }
        out.push(self);
        let n = self.children.len();
        assert(self.children@.subrange(0, n as int) =~= self.children@);
        let mut i: usize = 0;
        while i < n
            invariant
                n == self.children@.len(),
                i <= n,
                self.name@ != name@,
                out@ == old(out)@.push(self),
                path_to_name_in(self.children@, name@) == path_to_name_in(
                    self.children@.subrange(i as int, n as int),
                    name@,
                ),
            decreases n - i,
        {
            let ghost rest = self.children@.subrange(i as int, n as int);
            assert(rest[0] == self.children@[i as int]);
            assert(rest.subrange(1, rest.len() as int) =~= self.children@.subrange(i + 1, n as int));
            if self.children[i].find_name(name, out) {
                assert(out@.unref() =~= old(out)@.unref() + path_to_name(*self, name@)->Some_0);
                return true;
            }
            i = i + 1;
        }
        assert(self.children@.subrange(n as int, n as int).len() == 0);
        out.pop();
        assert(out@ =~= old(out)@);
        false
    }

    /// The first node named `name`, depth first, with its ancestors from this
    /// node down; empty when no node has that name.
    pub fn get_nested_by_name(&self, name: &str) -> (r: Vec<&Tree>)
        ensures
            path_to_name(*self, name@) is Some ==> r@.unref() == path_to_name(*self, name@)->Some_0,
            path_to_name(*self, name@) is None ==> r@.len() == 0,
    {
        let target = String::from_str(name);
        let mut out: Vec<&Tree> = Vec::new();
        let found = self.find_name(&target, &mut out);
        proof {
            if found {
                assert(out@.unref() =~= path_to_name(*self, name@)->Some_0);
            }
        }
        out
    }
}

/// A snapshot of one node, held without a borrow of the tree.
#[derive(Debug)]
pub struct TreeView {
    pub name: String,
    pub size: i64,
    pub rect: Option<Rect>,
    pub children_count: usize,
}

impl TreeView {
    pub fn from_node(node: &Tree) -> (r: TreeView)
        requires
            node.size is Some,
        ensures
            r.name@ == node.name@,
            Some(r.size) == node.size,
            r.rect == node.rect,
            r.children_count == node.children@.len(),
    {
        TreeView {
            name: node.name.clone(),
            size: node.size(),
            rect: node.rect,
            children_count: node.children.len(),
        }
    }

    pub fn from_nodes(nodes: &[&Tree]) -> (r: Vec<TreeView>)
        requires
            forall|i: int| 0 <= i < nodes@.len() ==> (#[trigger] nodes@[i]).size is Some,
        ensures
            r@.len() == nodes@.len(),
            forall|i: int|
                0 <= i < nodes@.len() ==> {
                    &&& (#[trigger] r@[i]).name@ == nodes@[i].name@
                    &&& Some(r@[i].size) == nodes@[i].size
                    &&& r@[i].rect == nodes@[i].rect
                    &&& r@[i].children_count == nodes@[i].children@.len()
                },
    {
        let mut out: Vec<TreeView> = Vec::new();
        let mut i: usize = 0;
        while i < nodes.len()
            invariant
                i <= nodes@.len(),
                out@.len() == i,
                forall|j: int| 0 <= j < nodes@.len() ==> (#[trigger] nodes@[j]).size is Some,
                forall|j: int|
                    0 <= j < i ==> {
                        &&& (#[trigger] out@[j]).name@ == nodes@[j].name@
                        &&& Some(out@[j].size) == nodes@[j].size
                        &&& out@[j].rect == nodes@[j].rect
                        &&& out@[j].children_count == nodes@[j].children@.len()
                    },
            decreases nodes@.len() - i,
        {
            out.push(TreeView::from_node(nodes[i]));
            i = i + 1;
        }
        out
    }
}

impl PartialEq for TreeView {
    /// Name and size alone.
    fn eq(&self, other: &TreeView) -> (r: bool)
        ensures
            r == (self.name@ == other.name@ && self.size == other.size),
    {
        self.name == other.name && self.size == other.size
    }
}

impl vstd::std_specs::cmp::PartialEqSpecImpl for TreeView {
    open spec fn obeys_eq_spec() -> bool {
        true
    }

    open spec fn eq_spec(&self, other: &TreeView) -> bool {
        self.name@ == other.name@ && self.size == other.size
    }
}


/// The names in `t`, in depth-first pre-order, that `pred` accepts.
pub open spec fn matching_names(t: Tree, pred: spec_fn(Seq<char>) -> bool) -> Seq<Seq<char>>
    decreases t,
{
    (if pred(t.name@) {
        seq![t.name@]
    } else {
        Seq::empty()
    }) + matching_names_in(t.children@, pred)
}

pub open spec fn matching_names_in(ts: Seq<Tree>, pred: spec_fn(Seq<char>) -> bool) -> Seq<
    Seq<char>,
>
    decreases ts,
{
    if ts.len() == 0 {
        Seq::empty()
    } else {
        matching_names_in(ts.subrange(0, ts.len() - 1), pred) + matching_names(
            ts[ts.len() - 1],
            pred,
        )
    }
}

/// `s`, cut to its first `limit` items.
pub open spec fn capped<A>(s: Seq<A>, limit: int) -> Seq<A> {
    if s.len() <= limit {
        s
    } else {
        s.take(limit)
    }
}

pub open spec fn string_views(v: Seq<String>) -> Seq<Seq<char>> {
    v.map_values(|s: String| s@)
}

/// The name holds `word`, as it is or in lowercase.
pub open spec fn name_matches_word(name: Seq<char>, word: Seq<char>) -> bool {
    contains_word(name, word) || contains_word(lower_of(name), word)
}

/// The lowercase name holds the space-separated tokens of the lowercase
/// `query`, in order.
pub open spec fn name_matches_tokens(name: Seq<char>, query: Seq<char>) -> bool {
    fuzzy_match(lower_of(name), split_on(lower_of(query), ' '), 0)
}

proof fn lemma_capped_append<A>(a: Seq<A>, b: Seq<A>, limit: int)
    requires
        0 <= limit,
    ensures
        capped(capped(a, limit) + b, limit) =~= capped(a + b, limit),
{
}

enum Query {
    Word(Vec<char>),
    Tokens(Vec<char>, Vec<Vec<char>>),
}

impl Query {
    spec fn valid(&self) -> bool {
        match self {
            Query::Word(_) => true,
            Query::Tokens(q, ws) => char_views(ws@) == split_on(lower_of(q@), ' '),
        }
    }

    spec fn pred(&self) -> spec_fn(Seq<char>) -> bool {
        match self {
            Query::Word(w) => |n: Seq<char>| name_matches_word(n, w@),
            Query::Tokens(q, _) => |n: Seq<char>| name_matches_tokens(n, q@),
        }
    }

    fn holds(&self, name: &String) -> (r: bool)
        requires
            self.valid(),
        ensures
            r == (self.pred())(name@),
    {
        match self {
            Query::Word(w) => {
                let chars = chars_of(name.as_str());
                if contains_exec(&chars, w) {
                    true
                } else {
                    let low = lowercase(name.as_str());
                    contains_exec(&chars_of(low.as_str()), w)
                }
            },
            Query::Tokens(_, ws) => {
                let low = lowercase(name.as_str());
                fuzzy_match_exec(&chars_of(low.as_str()), ws)
            },
        }
    }
}

impl Tree {
    fn collect_matches(&self, q: &Query, limit: usize, out: &mut Vec<String>)
        requires
            q.valid(),
            old(out)@.len() <= limit,
        ensures
            string_views(final(out)@) == capped(
                string_views(old(out)@) + matching_names(*self, q.pred()),
                limit as int,
            ),
        decreases *self,
    {
        let ghost a = string_views(old(out)@);
        let ghost all = matching_names(*self, q.pred());
        if out.len() >= limit {
            assert(string_views(out@) =~= capped(a + all, limit as int));
            return;
        }
        let ghost own: Seq<Seq<char>> = if (q.pred())(self.name@) {
            seq![self.name@]
        } else {
            Seq::empty()
        };
        if q.holds(&self.name) {
            out.push(self.name.clone());
        }
        assert(string_views(out@) =~= a + own);
        let n = self.children.len();
        let mut i: usize = 0;
        while i < n
            invariant
                n == self.children@.len(),
                i <= n,
                q.valid(),
                string_views(out@) == capped(
                    a + own + matching_names_in(self.children@.subrange(0, i as int), q.pred()),
                    limit as int,
                ),
            decreases n - i,
        {
            let ghost cs = self.children@;
            let ghost m = matching_names_in(cs.subrange(0, i as int), q.pred());
            let ghost c = matching_names(cs[i as int], q.pred());
            proof {
                assert(cs.subrange(0, i + 1).subrange(0, i as int) =~= cs.subrange(0, i as int));
                assert(matching_names_in(cs.subrange(0, i + 1), q.pred()) == m + c);
                lemma_capped_append(a + own + m, c, limit as int);
                assert(a + own + (m + c) =~= a + own + m + c);
            }
            self.children[i].collect_matches(q, limit, out);
            i = i + 1;
        }
        assert(self.children@.subrange(0, n as int) =~= self.children@);
        assert(a + own + matching_names_in(self.children@, q.pred()) =~= a + all);
    }

    /// The names that hold `word`, as they are or in lowercase, depth first in
    /// pre-order, at most `limit` of them.
    pub fn search(&self, word: &str, limit: usize) -> (r: Vec<String>)
        ensures
            string_views(r@) == capped(
                matching_names(*self, |n: Seq<char>| name_matches_word(n, word@)),
                limit as int,
            ),
    {
        let q = Query::Word(chars_of(word));
        let mut out: Vec<String> = Vec::new();
        self.collect_matches(&q, limit, &mut out);
        assert(string_views(Seq::<String>::empty()) + matching_names(*self, q.pred()) =~= matching_names(*self, q.pred()));
        out
    }

    /// The names that hold each space-separated token of `words`, in order,
    /// compared in lowercase, depth first in pre-order, at most `limit` of them.
    pub fn search_words(&self, words: &str, limit: usize) -> (r: Vec<String>)
        ensures
            string_views(r@) == capped(
                matching_names(*self, |n: Seq<char>| name_matches_tokens(n, words@)),
                limit as int,
            ),
    {
        let low = lowercase(words);
        let tokens = split_chars(&chars_of(low.as_str()), ' ');
        let q = Query::Tokens(chars_of(words), tokens);
        let mut out: Vec<String> = Vec::new();
        self.collect_matches(&q, limit, &mut out);
        assert(string_views(Seq::<String>::empty()) + matching_names(*self, q.pred()) =~= matching_names(*self, q.pred()));
        out
    }
}

/// Whether each of `words` stands in the lowercase `text`, in order, each
/// searched for after the place where the one before it was found.
pub fn fuzzy_contains(text: &str, words: &[&str]) -> (r: bool)
    ensures
        r == fuzzy_match(lower_of(text@), words@.map_values(|w: &str| w@), 0),
{
    let low = lowercase(text);
    let mut ws: Vec<Vec<char>> = Vec::new();
    let mut i: usize = 0;
    while i < words.len()
        invariant
            i <= words@.len(),
            char_views(ws@) == words@.subrange(0, i as int).map_values(|w: &str| w@),
        decreases words@.len() - i,
    {
        let w: &str = words[i];
        let cw = chars_of(w);
        assert(cw@ == words@[i as int]@);
        let ghost before = ws@;
        ws.push(cw);
        assert(char_views(ws@) =~= char_views(before).push(cw@));
        assert(char_views(ws@) =~= words@.subrange(0, i + 1).map_values(|w: &str| w@));
        i = i + 1;
    }
    assert(words@.subrange(0, words@.len() as int) =~= words@);
    fuzzy_match_exec(&chars_of(low.as_str()), &ws)
}


proof fn lemma_computed_size_fits(t: Tree)
    requires
        sums_fit(t),
    ensures
        i64::MIN <= computed_size(t) <= i64::MAX,
{
    if t.size is None {
        let cs = t.children@;
        assert(cs.subrange(0, cs.len() as int) =~= cs);
        assert(i64::MIN <= sum_computed_sizes(cs.subrange(0, cs.len() as int)) <= i64::MAX);
        assert(computed_size(t) == sum_computed_sizes(cs));
    }
}

impl Tree {
    /// The size, computed from the children first when it is not set yet;
    /// `None`, with sizes left partly computed, when a sum leaves the `i64`
    /// range.
    pub fn try_compute_size(&mut self) -> (r: Option<i64>)
        ensures
            sums_fit(*old(self)) ==> r == Some(computed_size(*old(self)) as i64) && resolves(
                *final(self),
                *old(self),
            ),
            !sums_fit(*old(self)) ==> r is None,
        decreases *old(self),
    {
        let current = self.size;
        match current {
            Some(s) => Some(s),
            None => {
                let ghost cs = old(self).children@;
                let mut size: i64 = 0;
                let mut i: usize = 0;
                assert(cs.subrange(0, 0) =~= Seq::<Tree>::empty());
                while i < self.children.len()
                    invariant
                        cs == old(self).children@,
                        old(self).size is None,
                        i <= self.children@.len(),
                        self.children@.len() == cs.len(),
                        self.name == old(self).name,
                        self.rect == old(self).rect,
                        self.size == old(self).size,
                        size == sum_computed_sizes(cs.subrange(0, i as int)),
                        forall|k: int| 0 <= k <= i ==> i64::MIN <= #[trigger] sum_computed_sizes(cs.subrange(0, k)) <= i64::MAX,
                        forall|j: int| 0 <= j < i ==> sums_fit(#[trigger] cs[j]),
                        forall|j: int| 0 <= j < i ==> resolves(#[trigger] self.children@[j], cs[j]),
                        forall|j: int|
                            i <= j < self.children@.len() ==> #[trigger] self.children@[j] == cs[j],
                    decreases self.children@.len() - i,
                {
                    proof {
                        assert(cs.subrange(0, i + 1).subrange(0, i as int) =~= cs.subrange(0, i as int));
                    }
                    let child = self.children[i].try_compute_size();
                    match child {
                        None => {
                            assert(!sums_fit(*old(self)));
                            return None;
                        },
                        Some(s) => {
                            assert(sums_fit(cs[i as int]));
                            proof {
                                lemma_computed_size_fits(cs[i as int]);
                            }
                            assert(s == computed_size(cs[i as int]));
                            assert(sum_computed_sizes(cs.subrange(0, i + 1)) == size + s);
                            match size.checked_add(s) {
                                None => {
                                    assert(!(i64::MIN <= sum_computed_sizes(cs.subrange(0, i + 1)) <= i64::MAX));
                                    assert(!sums_fit(*old(self)));
                                    return None;
                                },
                                Some(sum) => {
                                    size = sum;
                                },
                            }
                        },
                    }
                    i = i + 1;
                }
                assert(cs.subrange(0, cs.len() as int) =~= cs);
                self.size = Some(size);
                Some(size)
            },
        }
    }
}


impl Tree {
    /// A node over `children`, sized with the sum of their sizes; `None` when
    /// a sum leaves the `i64` range.
    pub fn try_new_from_children(name: String, children: Vec<Tree>) -> (r: Option<Tree>)
        ensures
            sums_fit(unsized_node(name, children)) ==> (r matches Some(t) && resolves(
                t,
                unsized_node(name, children),
            )),
            !sums_fit(unsized_node(name, children)) ==> r is None,
    {
        let mut node = Tree { name, size: None, rect: None, children };
        match node.try_compute_size() {
            Some(_) => Some(node),
            None => None,
        }
    }

    /// Whether the tree can be laid out: see `well_formed`.
    pub fn is_well_formed(&self) -> (r: bool)
        ensures
            r == well_formed(*self),
        decreases *self,
    {
        let own = match self.size {
            Some(s) => s,
            None => {
                return false;
            },
        };
        if own < 0 {
            return false;
        }
        let n = self.children.len();
        let ghost ws = weights(self.children@);
        let mut sum: i64 = 0;
        let mut i: usize = 0;
        assert(ws.subrange(0, 0) =~= Seq::<int>::empty());
        while i < n
            invariant
                n == self.children@.len(),
                ws == weights(self.children@),
                i <= n,
                sum == seq_sum(ws.subrange(0, i as int)),
                forall|j: int| 0 <= j < i ==> well_formed(#[trigger] self.children@[j]),
            decreases n - i,
        {
            if !self.children[i].is_well_formed() {
                return false;
            }
            proof {
                assert(ws.subrange(0, i + 1).drop_last() =~= ws.subrange(0, i as int));
                assert(ws[i as int] == weight(self.children@[i as int]));
            }
            match sum.checked_add(weight_of(&self.children[i])) {
                Some(total) => {
                    sum = total;
                },
                None => {
                    proof {
                        if well_formed(*self) {
                            assert forall|j: int| 0 <= j < ws.len() implies ws[j] >= 0 by {
                                assert(well_formed(self.children@[j]));
                            }
                            lemma_seq_sum_prefix_bounded(ws, i + 1);
                        }
                    }
                    return false;
                },
            }
            i = i + 1;
        }
        assert(ws.subrange(0, n as int) =~= ws);
        n == 0 || sum == own
    }
}


impl Tree {
    /// Whether `get_nested_by_position` can search this tree for `p`: see
    /// `hit_ready`.
    pub fn can_hit_test(&self, p: Point) -> (r: bool)
        ensures
            r == hit_ready(*self, p),
        decreases *self,
    {
        let n = self.children.len();
        let mut i: usize = 0;
        while i < n
            invariant
                n == self.children@.len(),
                i <= n,
                forall|j: int|
                    0 <= j < i ==> {
                        &&& (#[trigger] self.children@[j]).rect is Some
                        &&& self.children@[j].rect->Some_0.spec_contains(p) ==> hit_ready(
                            self.children@[j],
                            p,
                        )
                    },
            decreases n - i,
        {
            match self.children[i].rect {
                None => {
                    return false;
                },
                Some(r) => {
                    if r.contains(p) && !self.children[i].can_hit_test(p) {
                        return false;
                    }
                },
            }
            i = i + 1;
        }
        true
    }
}

} // verus!
