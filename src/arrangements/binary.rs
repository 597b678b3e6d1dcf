//! The binary strategy: bisection at half of the weight.

use vstd::prelude::*;

use crate::arrangements::bisect::{
    arrange_bisect, bisected, split_all, split_index, split_ratio, SplitError,
};
use crate::rect::{Ratio, Rect};
use crate::tree::{leaf_area, seq_sum, weight, weights, well_formed, Tree};

verus! {

/// The binary strategy splits each group of siblings where their running
/// weight first reaches one half of the group's weight.
pub const HALF_NUM: u64 = 1;

pub const HALF_DEN: u64 = 2;

/// Where the sorted `nodes` split in half: how many go first, and the share
/// of the area they get. Nodes that weigh nothing split at the middle, with
/// half of the area each side.
pub fn get_half_size(nodes: &[Tree]) -> (r: Result<(usize, Ratio), SplitError>)
    requires
        forall|i: int| 0 <= i < nodes@.len() ==> weight(#[trigger] nodes@[i]) >= 0,
        seq_sum(weights(nodes@)) <= i64::MAX,
    ensures
        r is Err <==> nodes@.len() == 0,
        r is Err ==> r == Err::<(usize, Ratio), SplitError>(SplitError::NoNodes),
        r is Ok ==> r->Ok_0.0 == split_index(weights(nodes@), HALF_NUM as int, HALF_DEN as int),
        r is Ok ==> r->Ok_0.1 == split_ratio(weights(nodes@), HALF_NUM as int, HALF_DEN as int),
{
    split_all(nodes, HALF_NUM, HALF_DEN)
}

/// Lays `tree` out into `rect`, bisecting each group of siblings at half of
/// its weight. A node whose rectangle has no area keeps it, and nothing below
/// it gets one.
pub fn arrange(tree: &mut Tree, rect: Rect)
    requires
        well_formed(*old(tree)),
        rect.fits(),
    ensures
        bisected(*final(tree), *old(tree), rect, HALF_NUM as int, HALF_DEN as int),
        leaf_area(*final(tree)) == rect.area(),
{
    arrange_bisect(tree, rect, HALF_NUM, HALF_DEN);
}

} // verus!
