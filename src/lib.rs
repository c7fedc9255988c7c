//! A terminal file-tree browser's core: a directory tree flattened in
//! pre-order into lines under a line budget, with a selection cursor, short
//! selection keys, and the branch flags a renderer draws connectors from.
//!
//! - `walk`: the pre-order walk, fed one directory listing at a time;
//! - `tree_build`: sibling order, and the tree built from a walk's listing;
//! - `keys`: the selection keys;
//! - `flat_tree`: the tree, its navigation and its laws;
//! - `commands`: keypresses, intents, and how a session applies them.
pub mod commands;
pub mod flat_tree;
pub mod keys;
pub mod tree_build;
pub mod walk;
