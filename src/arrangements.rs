//! The layout strategies, and what they share: the stable descending sort of
//! siblings and the recursive bisection that the binary and golden
//! strategies are both made of.

pub mod binary;
pub mod bisect;
pub mod golden;
pub mod linear;
pub mod order;
pub mod shape;
