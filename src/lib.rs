//! An in-memory index over player records, rating events and free-text tags,
//! with the rankings that queries over it return.
pub mod hash_table;
pub mod text;
pub mod trie;
pub mod ranking;
pub mod records;
pub mod catalog;
pub mod command;
