//! Treemap layout of weighted hierarchies: the tree model, three layout
//! strategies on an integer grid, and the queries a viewer needs.

pub mod arrangements;
pub mod churn;
pub mod extensions;
pub mod metrics;
pub mod node;
pub mod rect;
pub mod text;
pub mod tree;
pub mod ui;
pub mod words;
