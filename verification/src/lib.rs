//! Docking layout for egui panels: a binary tree of splits and tabbed leaves,
//! stored flat in a vector where the children of node `n` sit at `2n + 1` and
//! `2n + 2`.

pub mod builder;
pub mod node;
pub mod tree;
