//! How large a run may be under a memory budget.
use vstd::prelude::*;

use crate::budget::{MemoryBudget, OutOfBudget, Reservation};

verus! {

/// What a target shrinks to when it is refused: half of it, but not less than `min`.
pub open spec fn shrunk(target: nat, min: nat) -> nat {
    if target / 2 > min {
        target / 2
    } else {
        min
    }
}

/// The target after `refusals` refusals.
pub open spec fn target_after(initial: nat, min: nat, refusals: nat) -> nat
    decreases refusals,
{
    if refusals == 0 {
        initial
    } else {
        shrunk(target_after(initial, min, (refusals - 1) as nat), min)
    }
}

/// Half of a refused target is asked for next, rounded down, unless that is less
/// than the minimum, which is asked for then. So the target falls with every
/// refusal until it is the minimum, and stays there.
pub proof fn law_refused_target_is_halved(target: nat, min: nat)
    requires
        min <= target,
    ensures
        min <= shrunk(target, min) <= target,
        target > min && target > 1 ==> shrunk(target, min) < target,
        target >= 2 * min ==> 2 * shrunk(target, min) <= target < 2 * shrunk(target, min) + 2,
        target <= 2 * min ==> shrunk(target, min) == min,
{
}

/// Before any refusal the target is what was wished for. Each refusal shrinks what
/// the one before left, and no target is below the minimum or above the wish.
pub proof fn law_targets_shrink_step_by_step(initial: nat, min: nat, refusals: nat)
    requires
        min <= initial,
    ensures
        target_after(initial, min, 0) == initial,
        target_after(initial, min, refusals + 1) == shrunk(
            target_after(initial, min, refusals),
            min,
        ),
        min <= target_after(initial, min, refusals) <= initial,
    decreases refusals,
{
    if refusals > 0 {
        law_targets_shrink_step_by_step(initial, min, (refusals - 1) as nat);
    }
}

/// The next target to ask for after `target` was refused, or nothing if that
/// was the smallest already.
pub fn next_target(target: usize, min: usize) -> (next: Option<usize>)
    ensures
        next is Some <==> target > min,
        next matches Some(t) ==> t == shrunk(target as nat, min as nat),
{
    if target > min {
        let half: usize = target / 2;
        Some(
            if half > min {
                half
            } else {
                min
            },
        )
    } else {
        None
    }
}

/// Where a probe stands after an answer of the budget.
pub enum Probe {
    /// That many records were granted.
    Granted(usize, Reservation),
    /// That many records are to be asked for next.
    Ask(usize),
    /// Not even that many records, the fewest, were granted.
    GaveUp(usize),
}

/// Go by the answer to a request for `target` records.
pub fn settle(target: usize, min: usize, answer: Result<Reservation, OutOfBudget>) -> (next: Probe)
    requires
        min <= target,
    ensures
        match answer {
            Ok(granted) => next == Probe::Granted(target, granted),
            Err(_) => if target > min {
                next matches Probe::Ask(n) && n == shrunk(target as nat, min as nat)
            } else {
                next == Probe::GaveUp(min)
            },
        },
{
    match answer {
        Ok(reservation) => Probe::Granted(target, reservation),
        Err(_) => match next_target(target, min) {
            Some(smaller) => Probe::Ask(smaller),
            None => Probe::GaveUp(min),
        },
    }
}

/// Ask for `initial` records of `record_size` bytes; while that is refused, ask
/// for half as many, down to `min`. Gives the number last asked for, and the
/// reservation unless even the smallest was refused. Each answer is gone by as
/// [`settle`] has it.
pub fn probe(
    budget: &MemoryBudget,
    initial: usize,
    min: usize,
    record_size: usize,
) -> (found: (usize, Option<Reservation>))
    requires
        0 < min <= initial,
        initial * record_size <= usize::MAX,
    ensures
        min <= found.0 <= initial,
        exists|refusals: nat|
            found.0 == #[trigger] target_after(initial as nat, min as nat, refusals),
        match found.1 {
            Some(r) => {
                &&& r.held() == found.0 * record_size
                &&& r.is_of(*budget)
                &&& found.0 * record_size <= budget.limit()
            },
            None => found.0 == min && record_size > 0,
        },
{
    proof {
        let (i, s) = (initial as int, record_size as int);
        assert(s == 0 ==> i * s == 0) by (nonlinear_arith);
        assert(target_after(initial as nat, min as nat, 0) == initial);
    }
    let first = budget.reserve(initial * record_size);
    probe_after(first, budget, initial, min, record_size)
}

/// Go on with a probe after `first` came back for `initial` records. If they were
/// granted, that is what was found; else fewer are asked for, unless `initial`
/// records are the fewest already.
pub fn probe_after(
    first: Result<Reservation, OutOfBudget>,
    budget: &MemoryBudget,
    initial: usize,
    min: usize,
    record_size: usize,
) -> (found: (usize, Option<Reservation>))
    requires
        0 < min <= initial,
        initial * record_size <= usize::MAX,
        match first {
            Ok(granted) => {
                &&& granted.held() == initial * record_size
                &&& granted.is_of(*budget)
                &&& initial * record_size <= budget.limit()
            },
            Err(_) => record_size > 0,
        },
    ensures
        match first {
            Ok(granted) => found == (initial, Some(granted)),
            Err(_) => {
                &&& min <= found.0 <= initial
                &&& initial > min ==> found.0 < initial
                &&& initial == min ==> found == (min, None::<Reservation>)
                &&& exists|refusals: nat|
                    refusals > 0 && found.0 == #[trigger] target_after(
                        initial as nat,
                        min as nat,
                        refusals,
                    )
                &&& match found.1 {
                    Some(r) => {
                        &&& r.held() == found.0 * record_size
                        &&& r.is_of(*budget)
                        &&& found.0 * record_size <= budget.limit()
                    },
                    None => found.0 == min,
                }
            },
        },
{
    let mut answer = first;
    let mut target: usize = initial;
    let ghost mut refusals: nat = 0;
    loop
        invariant
            0 < min <= target <= initial,
            initial * record_size <= usize::MAX,
            target == target_after(initial as nat, min as nat, refusals),
            refusals == 0 ==> target == initial && answer == first,
            refusals > 0 ==> first is Err && target < initial,
            first is Err ==> record_size > 0,
            match answer {
                Ok(granted) => {
                    &&& granted.held() == target * record_size
                    &&& granted.is_of(*budget)
                    &&& target * record_size <= budget.limit()
                },
                Err(_) => true,
            },
        decreases target,
    {
        match settle(target, min, answer) {
            Probe::Granted(n, reservation) => {
                return (n, Some(reservation));
            },
            Probe::GaveUp(n) => {
                proof {
                    assert(target_after(initial as nat, min as nat, refusals + 1) == min);
                }
                return (n, None);
            },
            Probe::Ask(smaller) => {
                proof {
                    refusals = refusals + 1;
                    let (t, i, s) = (smaller as int, initial as int, record_size as int);
                    assert(t * s <= i * s) by (nonlinear_arith)
                        requires
                            0 <= t <= i,
                            0 <= s,
                    ;
                }
                target = smaller;
                answer = budget.reserve(target * record_size);
            },
        }
    }
}

} // verus!
