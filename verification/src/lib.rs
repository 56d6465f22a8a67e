//! Filters for the trees and histories of a content-addressed repository.
//!
//! A filter says which part of a repository to show and where: a directory, a file,
//! the files that match a glob, a tree under a prefix, several such views laid over
//! each other, a view minus another, or the workspace that a file in the tree itself
//! describes. Filters are written as text, simplified to a canonical form, applied to
//! trees and to commits with their history, and, as far as they have an inverse,
//! applied backwards to put a changed view back into the tree it came from.
//!
//! - `text`, `oid`, `glob`, `blobs`: texts and paths, object ids, glob matching, blob
//!   contents.
//! - `content`, `tree`: what a tree holds as a map from paths to leaves, and trees with
//!   the operations on them.
//! - `term`, `opt`, `grammar`, `parse`, `print`, `reading`: filters as terms, their
//!   canonical form, their text, reading and writing it, and that what is written is
//!   read back as it was.
//! - `semantics`, `engine`: what a filter and its inverse make of a tree.
//! - `store`, `lineage`, `history`: commits, what a filter makes of a commit and its
//!   history, and the transaction that works it out and notes it.
//! - `filter`: the registry of filters, and the operations by handle.
//! - `laws`, `moves`: what holds of all filters, trees and commits, and of the filters
//!   that only move a directory.

pub mod blobs;
pub mod content;
pub mod engine;
pub mod error;
pub mod filter;
pub mod glob;
pub mod grammar;
pub mod history;
pub mod laws;
pub mod lineage;
pub mod moves;
pub mod oid;
pub mod opt;
pub mod parse;
pub mod print;
pub mod reading;
pub mod semantics;
pub mod store;
pub mod term;
pub mod text;
pub mod tree;
