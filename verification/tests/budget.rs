//! The shared memory budget.
use gitx_bounded::budget::{answer_to, left_of, next_used, refusal, MemoryBudget, OutOfBudget};

#[test]
fn unlimited_always_fits() {
    let b = MemoryBudget::unlimited();
    // Cap is u64::MAX; any realistic request succeeds.
    let _r1 = b.reserve(1_000_000_000).unwrap();
    let _r2 = b.reserve(1_000_000_000).unwrap();
    let _r3 = b.reserve(1_000_000_000).unwrap();
    assert_eq!(b.cap(), u64::MAX);
}

#[test]
fn exact_fit_succeeds() {
    let b = MemoryBudget::bytes(100);
    let r = b.reserve(100).unwrap();
    assert_eq!(b.used(), 100);
    assert_eq!(b.available(), 0);
    drop(r);
    assert_eq!(b.used(), 0);
    assert_eq!(b.available(), 100);
}

#[test]
fn overshoot_by_one_fails() {
    let b = MemoryBudget::bytes(100);
    let err = b.reserve(101).unwrap_err();
    assert_eq!(
        err,
        OutOfBudget {
            requested: 101,
            available: 100
        }
    );
    // Used is unchanged — failed reservation must not consume bytes.
    assert_eq!(b.used(), 0);
}

#[test]
fn drop_releases_bytes() {
    let b = MemoryBudget::bytes(100);
    let r1 = b.reserve(60).unwrap();
    let r2 = b.reserve(30).unwrap();
    assert_eq!(b.used(), 90);
    // Next reservation would exceed.
    assert!(b.reserve(20).is_err());

    drop(r1); // 60 back
    assert_eq!(b.used(), 30);

    let r3 = b.reserve(60).unwrap();
    drop((r2, r3));
    assert_eq!(b.used(), 0);
}

#[test]
fn clone_shares_counter() {
    let b = MemoryBudget::bytes(100);
    let b2 = b.clone();
    let _r = b.reserve(50).unwrap();
    // Clone sees the same used state.
    assert_eq!(b2.used(), 50);
    assert_eq!(b2.available(), 50);
    // And reservations via the clone apply to the same budget.
    let _r2 = b2.reserve(50).unwrap();
    assert_eq!(b.used(), 100);
    assert!(b.reserve(1).is_err());
}

#[test]
fn reservation_outlives_budget_handle_without_panic() {
    // A Reservation holds its own Arc to the inner state. Dropping
    // the originating MemoryBudget first must not cause the
    // Reservation's Drop to misbehave.
    let r = {
        let b = MemoryBudget::bytes(100);
        b.reserve(50).unwrap()
    };
    drop(r); // should not panic, should not leak
}

#[test]
fn overflow_request_is_rejected_not_wrapped() {
    // Cap is modest; request is u64::MAX so current + n would
    // overflow. Must be rejected, not silently wrap to a small
    // value that fits.
    let b = MemoryBudget::bytes(1_000);
    // usize::MAX on 64-bit systems is u64::MAX; on 32-bit it's
    // u32::MAX. Either way this exceeds the 1000-byte cap and
    // the arithmetic must not wrap.
    let err = b.reserve(usize::MAX).unwrap_err();
    assert_eq!(err.requested, usize::MAX as u64);
    assert_eq!(err.available, 1_000);
    assert_eq!(b.used(), 0);
}

#[test]
fn zero_reservation_is_allowed() {
    // Defensive: a zero-byte reservation should succeed without
    // touching the counter. This can happen when callers instrument
    // sites that sometimes compute `n = 0` for edge cases.
    let b = MemoryBudget::bytes(0);
    let r = b.reserve(0).unwrap();
    assert_eq!(b.used(), 0);
    drop(r);
    assert_eq!(b.used(), 0);
}

/// `peak_used` starts at 0 and never decreases, even after the
/// reservations that caused the peak are dropped. This is the
/// contract that lets the harness report "how close did the
/// operation come to the cap?" in its final summary line.
#[test]
fn peak_used_reflects_high_water_mark_and_does_not_decay() {
    let b = MemoryBudget::bytes(1_000);
    assert_eq!(b.peak_used(), 0, "fresh budget has zero peak");

    let r1 = b.reserve(100).unwrap();
    assert_eq!(b.peak_used(), 100);
    let r2 = b.reserve(200).unwrap();
    assert_eq!(b.peak_used(), 300);
    drop(r1);
    assert_eq!(
        b.peak_used(),
        300,
        "peak must persist after releases"
    );
    drop(r2);
    assert_eq!(
        b.used(),
        0,
        "all reservations released"
    );
    assert_eq!(
        b.peak_used(),
        300,
        "peak must still be 300 after every reservation is dropped"
    );

    // A subsequent smaller reservation cycle must not lower the
    // reported peak.
    let r3 = b.reserve(50).unwrap();
    drop(r3);
    assert_eq!(b.peak_used(), 300);

    // A larger one does push it up.
    let r4 = b.reserve(500).unwrap();
    assert_eq!(b.peak_used(), 500);
    drop(r4);
    assert_eq!(b.peak_used(), 500);
}

/// Peak is tracked even when the reservation eventually fails.
/// The CAS loop only calls `fetch_max` on successful Ok returns,
/// so a rejection must leave the peak untouched.
#[test]
fn peak_used_not_bumped_by_rejected_reservation() {
    let b = MemoryBudget::bytes(100);
    let r = b.reserve(60).unwrap();
    assert_eq!(b.peak_used(), 60);
    // This request would push used to 120, exceeding the cap.
    assert!(b.reserve(60).is_err());
    assert_eq!(
        b.peak_used(),
        60,
        "failed reservation must not move the peak"
    );
    drop(r);
    assert_eq!(b.peak_used(), 60);
}

/// Cloning the budget handle shares the same peak counter.
#[test]
fn peak_used_is_shared_across_clones() {
    let b = MemoryBudget::bytes(1_000);
    let c = b.clone();
    let r = c.reserve(500).unwrap();
    assert_eq!(b.peak_used(), 500, "original handle sees the peak");
    assert_eq!(c.peak_used(), 500, "clone handle sees the peak");
    drop(r);
    assert_eq!(b.peak_used(), 500);
    assert_eq!(c.peak_used(), 500);
}

fn event(ledger_used: &mut u64, cap: u64, n: u64) -> bool {
    match next_used(cap, *ledger_used, n) {
        Some(next) => {
            *ledger_used = next;
            true
        }
        None => false,
    }
}

#[test]
fn next_used_grants_what_fits() {
    assert_eq!(next_used(100, 60, 40), Some(100));
    assert_eq!(next_used(100, 60, 41), None);
    assert_eq!(next_used(100, 0, 0), Some(0));
    assert_eq!(next_used(u64::MAX, u64::MAX, 1), None);
    assert_eq!(next_used(u64::MAX, 1, u64::MAX), None);
}

#[test]
fn refusal_tells_what_is_left() {
    assert_eq!(refusal(100, 60, 41), OutOfBudget { requested: 41, available: 40 });
    assert_eq!(refusal(100, 120, 1), OutOfBudget { requested: 1, available: 0 });
}

#[test]
fn refusal_changes_nothing() {
    let b = MemoryBudget::bytes(100);
    let r = b.reserve(70).unwrap();
    let (used, peak) = (b.used(), b.peak_used());
    assert!(b.reserve(31).is_err());
    assert_eq!((b.used(), b.peak_used()), (used, peak));
    assert_eq!(r.bytes(), 70);
}

#[test]
fn reservations_never_exceed_cap() {
    let cap = 1_000;
    let mut used = 0;
    for n in [400, 400, 400, 200, 1, 0] {
        event(&mut used, cap, n);
        assert!(used <= cap);
    }
    assert_eq!(used, 1_000);
}

#[test]
fn out_of_budget_reads_as_a_sentence() {
    let err = MemoryBudget::bytes(100).reserve(101).unwrap_err();
    assert_eq!(err.message(), "memory budget exhausted: requested 101 bytes, 100 available");
    let none = OutOfBudget { requested: 0, available: 18_446_744_073_709_551_615 };
    assert!(none.message().contains("18446744073709551615"));
}

#[test]
fn default_is_unlimited() {
    assert_eq!(MemoryBudget::default().cap(), u64::MAX);
    assert_eq!(MemoryBudget::unlimited().available(), u64::MAX);
}

#[test]
fn zero_bytes_fit_a_full_budget() {
    let b = MemoryBudget::bytes(10);
    let _all = b.reserve(10).unwrap();
    assert_eq!(b.reserve(0).unwrap().bytes(), 0);
    assert_eq!(b.used(), 10);
}

#[test]
fn unlimited_refuses_only_overflow() {
    let b = MemoryBudget::unlimited();
    let _r = b.reserve(usize::MAX).unwrap();
    if usize::MAX as u64 == u64::MAX {
        assert!(b.reserve(1).is_err());
    }
}

#[test]
fn answers_follow_what_is_reserved() {
    assert_eq!(left_of(100, 30), 70);
    assert_eq!(left_of(100, 130), 0);
    assert_eq!(answer_to(100, 30, 70), Ok(100));
    assert_eq!(answer_to(100, 30, 71), Err(OutOfBudget { requested: 71, available: 70 }));
    let b = MemoryBudget::bytes(100);
    let r = b.reserve(30).unwrap();
    assert_eq!(b.available() + b.used(), b.cap());
    assert!(b.reserve(71).is_err());
    drop(b.reserve(70).unwrap());
    drop(r);
    assert_eq!((b.used(), b.available(), b.peak_used()), (0, 100, 100));
    assert!(b.reserve(30).is_ok(), "the same request fits again");
}

#[test]
fn amounts_are_told_in_decimal() {
    for (n, digits) in [(0, "0"), (9, "9"), (10, "10"), (1_234_567_890, "1234567890")] {
        let text = OutOfBudget { requested: n, available: 7 }.message();
        assert_eq!(text, format!("memory budget exhausted: requested {digits} bytes, 7 available"));
    }
}
