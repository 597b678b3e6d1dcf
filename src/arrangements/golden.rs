//! The golden strategy: bisection at a tuned fraction of the weight.

use vstd::prelude::*;

use crate::arrangements::bisect::{arrange_bisect, bisected};
use crate::rect::Rect;
use crate::tree::{leaf_area, well_formed, Tree};

verus! {

/// The golden strategy splits each group of siblings where their running
/// weight first reaches 287 thousandths of the group's weight. The fraction
/// was tuned by eye: it started from the golden ratio and looked better here.
pub const GOLDEN_NUM: u64 = 287;

pub const GOLDEN_DEN: u64 = 1000;

/// Lays `tree` out into `rect`, bisecting each group of siblings at the tuned
/// fraction. A node whose rectangle has no area keeps it, and nothing below it
/// gets one.
pub fn arrange(tree: &mut Tree, rect: Rect)
    requires
        well_formed(*old(tree)),
        rect.fits(),
    ensures
        bisected(*final(tree), *old(tree), rect, GOLDEN_NUM as int, GOLDEN_DEN as int),
        leaf_area(*final(tree)) == rect.area(),
{
    arrange_bisect(tree, rect, GOLDEN_NUM, GOLDEN_DEN);
}

} // verus!
