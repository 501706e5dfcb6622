//! Core logic of a content-addressable, chunk-based container-image
//! filesystem toolkit.
//!
//! A filesystem snapshot ("bootstrap") couples a directory tree whose files
//! are sequences of content-addressed chunks with an insertion-ordered table
//! of blob descriptors; every chunk names its blob by position in that table.
//! This crate provides the three operations that have to keep the
//! chunk-to-blob index globally consistent while rewriting it: bootstrap
//! merging, blob compaction, and cross-image chunk deduplication.
//!
//! Byte-level input and output (loading and serializing bootstraps, moving
//! blob bytes between backends) is left to the surrounding program; the
//! types here hold the fully decoded form.

pub mod model;
pub mod tree;
pub mod bootstrap;
pub mod dict;
pub mod merge;
pub mod compact;
pub mod dedup;
