//! Caches of decoded pack entries that forget what was not used for longest.

pub mod linked_list;
pub mod memory;

pub use linked_list::StaticLinkedList;
pub use memory::MemoryCappedHashmap;
