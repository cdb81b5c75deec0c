//! Planning logic for a dotfiles manager: the files of a tree, the filter
//! that selects some of them, and what to copy, link and remove so that one
//! tree follows another.
pub mod order;
pub mod path;
pub mod relpath;
pub mod fileset;
pub mod filter;
pub mod context;
pub mod listing;
pub mod utils;
pub mod tree;
pub mod sync;
pub mod build_tree;
pub mod install;
pub mod apply;
pub mod diff;
pub mod check;
pub mod link;
pub mod cleanup;
