//! A binary-space-partitioning window tiler: a layout tree whose leaves are
//! windows, mutation of that tree on window-lifecycle events, and a recursive
//! geometry solver that assigns every leaf a rectangle so that the leaves
//! tile the output area, offset by configurable outer and inner gaps.

pub mod binarytree;
pub mod geometry;
pub mod tiling;
