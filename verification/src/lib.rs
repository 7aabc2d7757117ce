//! A B+ tree that maps keys to the places of chunks in append-only segment
//! files, with every operation proved against a mathematical model of the
//! tree.
//!
//! * [`bplus_tree`] holds the tree: insertion with node splits, lookup, the
//!   walk along the linked leaves, the choice of the place of the next
//!   chunk, and snapshots.
//! * [`key`] says what a key is; [`chunk_pointer`] and [`chunk`] hold the
//!   handles that point to chunks; [`segment`] names the segment files;
//!   [`storage`] takes chunks out of and puts them into the containers of
//!   the chunking file system.
//! * [`model`] is the tree as the proofs see it, with its invariants. The
//!   steps of an insertion are proved to keep them in [`steps`] and
//!   [`descent`], and [`insertion`] says what tree an insertion leaves.
//!   [`order`], [`reach`], [`assemble`] and [`relink`] carry the proofs of
//!   the walk, of snapshots and of loading; [`history`] says what a
//!   sequence of insertions leaves in the map.
//!
//! * [`memory`] is the store whose segment files are kept in memory: the
//!   tree together with the chunks it points to.
//!
//! The tree itself moves no bytes: it is handed the sizes of chunks and
//! hands out handles. Reading and writing files on disk is left to the
//! program around the library.

pub mod assemble;
pub mod bplus_tree;
pub mod chunk;
pub mod chunk_pointer;
pub mod descent;
pub mod error;
pub mod history;
pub mod insertion;
pub mod key;
pub mod memory;
pub mod model;
pub mod order;
pub mod reach;
pub mod relink;
pub mod search;
pub mod segment;
pub mod steps;
pub mod storage;
