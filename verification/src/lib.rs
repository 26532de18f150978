//! An adaptive quadtree over the unit square.
//!
//! The tree holds one value per region and splits a region only where its
//! content differs. It is built from a sampling function or refined by
//! painting discs onto it; every edit reports what changed, so that systems
//! that mirror the tree can follow it step by step.

pub mod geometry;
pub mod node;
pub mod event;
pub mod stamp;
pub mod sampling;
pub mod enumerate;
pub mod quadtree;
pub mod cache;
pub mod laws;
