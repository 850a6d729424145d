//! Handles to a repository, and the memory budget they share.
use vstd::prelude::*;

use crate::budget::MemoryBudget;
use crate::open;

verus! {

/// A handle to a repository for use in one thread.
pub struct Repository {
    options: open::Options,
}

/// A handle to a repository that can be shared between threads.
pub struct ThreadSafeRepository {
    linked_worktree_options: open::Options,
}

impl Repository {
    /// The options that the repository was opened with.
    pub closed spec fn opened_with(self) -> open::Options {
        self.options
    }

    /// Return a reference to this repository's configured budget. If none was
    /// configured it is unlimited, so callers can ask it for memory without
    /// caring whether it was set.
    pub fn memory_budget(&self) -> (budget: &MemoryBudget)
        ensures
            *budget == self.opened_with().memory_budget,
    {
        &self.options.memory_budget
    }
}

impl Clone for Repository {
    /// Another handle, which shares the budget of this one.
    fn clone(&self) -> (other: Self)
        ensures
            other.opened_with() == self.opened_with(),
    {
        Repository { options: self.options.clone() }
    }
}

impl ThreadSafeRepository {
    /// The options that the repository was opened with.
    pub closed spec fn opened_with(self) -> open::Options {
        self.linked_worktree_options
    }

    /// A handle to a repository that was opened with `options`.
    pub fn with_options(options: open::Options) -> (repo: Self)
        ensures
            repo.opened_with() == options,
    {
        ThreadSafeRepository { linked_worktree_options: options }
    }

    /// See [`Repository::memory_budget`].
    pub fn memory_budget(&self) -> (budget: &MemoryBudget)
        ensures
            *budget == self.opened_with().memory_budget,
    {
        &self.linked_worktree_options.memory_budget
    }

    /// A handle for use in the current thread.
    pub fn to_thread_local(&self) -> (repo: Repository)
        ensures
            repo.opened_with() == self.opened_with(),
    {
        Repository { options: self.linked_worktree_options.clone() }
    }
}

} // verus!
