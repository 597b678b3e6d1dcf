//! The bare weighted tree that metric producers build, before any layout.

use vstd::prelude::*;

verus! {

/// A weighted tree as the metric producers build it, before any layout.
#[derive(Debug)]
pub struct Node {
    pub size: Option<i64>,
    pub name: String,
    pub children: Vec<Node>,
}

/// The size of a node: its own size when set, else the sum over its children.
pub open spec fn node_size(n: Node) -> int
    decreases n,
{
    match n.size {
        Some(s) => s as int,
        None => sum_node_sizes(n.children@),
    }
}

pub open spec fn sum_node_sizes(ns: Seq<Node>) -> int
    decreases ns,
{
    if ns.len() == 0 {
        0
    } else {
        sum_node_sizes(ns.subrange(0, ns.len() - 1)) + node_size(ns[ns.len() - 1])
    }
}

/// Every partial sum that sizing `n` computes fits in an `i64`.
pub open spec fn node_sums_fit(n: Node) -> bool
    decreases n,
{
    match n.size {
        Some(_) => true,
        None => {
            &&& forall|k: int|
                0 <= k <= n.children@.len() ==> i64::MIN <= #[trigger] sum_node_sizes(
                    n.children@.subrange(0, k),
                ) <= i64::MAX
            &&& forall|i: int|
                0 <= i < n.children@.len() ==> node_sums_fit(#[trigger] n.children@[i])
        },
    }
}

/// `new` is `old` with every unset size below it resolved.
pub open spec fn node_resolves(new: Node, old: Node) -> bool
    decreases old,
{
    match old.size {
        Some(_) => new == old,
        None => {
            &&& new.name == old.name
            &&& new.size == Some(node_size(old) as i64)
            &&& new.children@.len() == old.children@.len()
            &&& forall|i: int|
                0 <= i < old.children@.len() ==> node_resolves(
                    #[trigger] new.children@[i],
                    old.children@[i],
                )
        },
    }
}

impl Node {
    /// A leaf of the given size.
    pub fn new_from_size(name: String, size: i64) -> (r: Node)
        ensures
            r.name == name,
            r.size == Some(size),
            r.children@.len() == 0,
    {
        Node { name, size: Some(size), children: Vec::new() }
    }

    /// A node over `children`, sized at once with the sum of their sizes.
    pub fn new_from_children(name: String, children: Vec<Node>) -> (r: Node)
        requires
            node_sums_fit(Node { size: None, name, children }),
        ensures
            node_resolves(r, Node { size: None, name, children }),
            r.size == Some(sum_node_sizes(children@) as i64),
    {
        let mut node = Node { name, size: None, children };
        node.get_or_compute_size();
        node
    }

    /// The size, computed from the children first when it is not set yet.
    pub fn get_or_compute_size(&mut self) -> (r: i64)
        requires
            node_sums_fit(*old(self)),
        ensures
            r == node_size(*old(self)),
            node_resolves(*final(self), *old(self)),
        decreases *old(self),
    {
        let current = self.size;
        match current {
            Some(s) => s,
            None => {
                let ghost cs = old(self).children@;
                let mut size: i64 = 0;
                let mut i: usize = 0;
                while i < self.children.len()
                    invariant
                        cs == old(self).children@,
                        old(self).size is None,
                        node_sums_fit(*old(self)),
                        i <= self.children@.len(),
                        self.children@.len() == cs.len(),
                        self.name == old(self).name,
                        self.size == old(self).size,
                        size == sum_node_sizes(cs.subrange(0, i as int)),
                        forall|j: int|
                            0 <= j < i ==> node_resolves(#[trigger] self.children@[j], cs[j]),
                        forall|j: int|
                            i <= j < self.children@.len() ==> #[trigger] self.children@[j] == cs[j],
                    decreases self.children@.len() - i,
                {
                    proof {
                        assert(node_sums_fit(cs[i as int]));
                        assert(cs.subrange(0, i + 1).subrange(0, i as int) =~= cs.subrange(
                            0,
                            i as int,
                        ));
                        assert(i64::MIN <= sum_node_sizes(cs.subrange(0, i + 1)) <= i64::MAX);
                    }
                    let s = self.children[i].get_or_compute_size();
                    size = size + s;
                    i = i + 1;
                }
                assert(cs.subrange(0, cs.len() as int) =~= cs);
                self.size = Some(size);
                size
            },
        }
    }
}

} // verus!
