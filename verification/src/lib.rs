//! An implicit augmented interval tree: intervals kept in one array, sorted by
//! start, with the array position encoding the shape of a binary tree. Built
//! once, queried many times for the stored intervals that meet a window and for
//! the length of the window they cover.

pub mod augment;
pub mod coverage;
pub mod interval;
pub mod layout;
pub mod record;
pub mod registry;
pub mod tree;
