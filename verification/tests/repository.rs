//! The memory budget of a repository.
use gitx_bounded::budget::MemoryBudget;
use gitx_bounded::open::Options;
use gitx_bounded::repository::ThreadSafeRepository;

#[test]
fn default_options_yield_unlimited_budget() {
    let repo = ThreadSafeRepository::with_options(Options::default()).to_thread_local();
    assert_eq!(
        repo.memory_budget().cap(),
        u64::MAX,
        "default budget must be unlimited so uninstrumented callers see no change"
    );
}

#[test]
fn configured_budget_survives_to_repository() {
    let budget = MemoryBudget::bytes(64 * 1024 * 1024);
    let opts = Options::isolated().with_memory_budget(budget);

    let repo = ThreadSafeRepository::with_options(opts);
    assert_eq!(
        repo.memory_budget().cap(),
        64 * 1024 * 1024,
        "configured budget must round-trip through open_opts to ThreadSafeRepository"
    );

    let repo = repo.to_thread_local();
    assert_eq!(
        repo.memory_budget().cap(),
        64 * 1024 * 1024,
        "budget must also survive to_thread_local"
    );
}

#[test]
fn clone_of_repository_handle_shares_budget_counter() {
    let budget = MemoryBudget::bytes(100);
    let opts = Options::isolated().with_memory_budget(budget.clone());
    let repo = ThreadSafeRepository::with_options(opts).to_thread_local();

    let _r = budget.reserve(40).expect("fits");
    assert_eq!(
        repo.memory_budget().used(),
        40,
        "Repository budget and externally held MemoryBudget handle must share state"
    );
    assert_eq!(repo.clone().memory_budget().used(), 40);
}
