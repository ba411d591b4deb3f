//! The core of SwitchHosts, a switcher for the system hosts file.
//!
//! Hosts entries are the nodes of a tree that the user switches on and off.
//! The tree lives in a manifest file, and a local HTTP server lets other
//! programs list the nodes and toggle them.
//!
//! - [`value`] and [`json`]: JSON values, and the documents they stand for.
//! - [`tree`]: finding, listing, removing and inserting nodes.
//! - [`selection`]: what switching a node does to the nodes around it.
//! - [`manifest`]: what a manifest file stands for, and how one is saved.
//! - [`http_api`]: which server runs, and what the plain routes answer.
//! - [`toggle`]: the toggle route, with and without a window.
//!
//! Every function states what it computes over the documents, not over the
//! values that hold them. What holds of several functions together is stated in
//! [`tree_laws`], [`selection_laws`] and [`toggle_laws`]. What the functions are
//! for is stated in [`tree_promises`], [`selection_promises`] and
//! [`toggle_promises`], in the plain [`terms`] of members and places. Reading and writing
//! files, the network, the clock and the desktop are left to the caller.

pub mod http_api;
pub mod json;
pub mod manifest;
pub mod selection;
pub mod selection_laws;
pub mod selection_promises;
pub mod terms;
pub mod toggle;
pub mod toggle_laws;
pub mod toggle_promises;
pub mod tree;
pub mod tree_laws;
pub mod tree_promises;
pub mod value;
