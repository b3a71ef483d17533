//! Ordered tag-tree reorganization engine.
//!
//! A tag forest is a flat collection of nodes, each carrying an optional
//! parent reference and an ordinal position among its siblings.  This crate
//! provides the pieces that turn pointer gestures into safe tree edits:
//! hover resolution, drop classification, cycle guarding, the transactional
//! position reconciliation that keeps sibling ordering dense after every
//! move, and subtree-aware selection propagation.

pub mod ancestry;
pub mod display;
pub mod dragdrop;
pub mod files;
pub mod selection;
pub mod tags;
pub mod types;
pub mod utils;
