//! Indexing Git packs within a fixed amount of memory.
//!
//! The library holds no file and starts no thread: it says what has to be
//! written, asks for what has to be read, and decides what is done next.
pub mod budget;
pub mod bytes;
pub mod cache;
pub mod data;
pub mod harness;
pub mod hash;
pub mod index;
pub mod object;
pub mod open;
pub mod repository;
pub mod sort;
