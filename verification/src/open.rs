//! How to open a repository.
use vstd::prelude::*;

use crate::budget::MemoryBudget;

verus! {

/// Options that every handle to a repository carries along.
pub struct Options {
    pub memory_budget: MemoryBudget,
}

impl Default for Options {
    /// Options with an unlimited budget.
    fn default() -> (options: Self)
        ensures
            options.memory_budget.limit() == u64::MAX,
    {
        Options { memory_budget: MemoryBudget::default() }
    }
}

impl Clone for Options {
    /// Options with the same budget, not with one like it.
    fn clone(&self) -> (other: Self)
        ensures
            other == *self,
    {
        Options { memory_budget: self.memory_budget.clone() }
    }
}

impl Options {
    /// Options that take nothing from the environment. The budget is unlimited.
    pub fn isolated() -> (options: Self)
        ensures
            options.memory_budget.limit() == u64::MAX,
    {
        Options::default()
    }

    /// Use `budget` for all memory that operations on the repository ask for.
    pub fn with_memory_budget(self, budget: MemoryBudget) -> (options: Self)
        ensures
            options == (Options { memory_budget: budget, ..self }),
    {
        let mut options = self;
        options.memory_budget = budget;
        options
    }
}

} // verus!
