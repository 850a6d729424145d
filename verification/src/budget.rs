//! A shared, hard limit on memory use.
//!
//! Operations that need a lot of memory ask a [`MemoryBudget`] for it first.
//! A request that fits gives a [`Reservation`], which returns its bytes when it
//! is dropped; one that does not fit gives [`OutOfBudget`] and changes nothing.
//! Handles made by cloning share one account, from any number of threads.
//!
//! # What is proved
//!
//! The account lives in atomics that other threads change at any time, so the
//! methods of [`MemoryBudget`] promise what holds whatever the others do. Which
//! requests are granted, and what a granted or refused request does to the
//! account, is [`next_used`], an ordinary function of the amounts involved. A
//! reservation holds what the account granted, and dropping it gives exactly that
//! back. The laws at the end of this file follow for every order in which
//! requests and releases may reach the account.
use std::sync::atomic::{AtomicU64, Ordering};
use std::sync::Arc;

use vstd::prelude::*;

mod grant;

use grant::{give_back, update_used, Grant, Receipt};

verus! {

#[derive(Debug)]
struct Inner {
    /// Hard upper bound in bytes.
    cap: u64,
    /// Bytes currently reserved.
    used: AtomicU64,
    /// The highest value that `used` ever had.
    peak_used: AtomicU64,
}

/// A shared byte budget. Clones share one account.
#[derive(Debug)]
pub struct MemoryBudget {
    inner: Arc<Inner>,
}

/// Returned when a reservation would exceed the budget.
#[derive(Debug, Clone, Copy, PartialEq, Eq, Structural)]
pub struct OutOfBudget {
    /// Bytes that were requested.
    pub requested: u64,
    /// Bytes that were available at the moment the request was refused.
    pub available: u64,
}

/// Bytes held against a [`MemoryBudget`], returned to it on drop.
#[must_use]
#[derive(Debug)]
pub struct Reservation {
    bytes: Bytes,
}

/// Where the bytes of a reservation are.
#[derive(Debug)]
enum Bytes {
    /// They are held.
    Held(Grant),
    /// They were returned.
    Returned(Receipt),
}

/// Whether `n` more bytes fit under `cap` when `current` are reserved.
pub open spec fn fits(cap: nat, current: nat, n: nat) -> bool {
    current + n <= cap
}

/// What is left under `cap` when `current` bytes are reserved.
pub open spec fn left_over(cap: nat, current: nat) -> nat {
    if current <= cap {
        (cap - current) as nat
    } else {
        0
    }
}

/// [`fits`] for the numbers that an account is made of.
pub open spec fn grants(cap: u64, current: u64, n: u64) -> bool {
    fits(cap as nat, current as nat, n as nat)
}

/// [`left_over`] for the numbers that an account is made of.
pub open spec fn spare(cap: u64, current: u64) -> nat {
    left_over(cap as nat, current as nat)
}

/// The amount reserved after `n` more bytes were granted, or nothing if they
/// do not fit. A sum that no `u64` holds does not fit.
pub fn next_used(cap: u64, current: u64, n: u64) -> (next: Option<u64>)
    ensures
        next is Some <==> grants(cap, current, n),
        next matches Some(sum) ==> sum == current + n,
{
    match current.checked_add(n) {
        Some(sum) => if sum <= cap {
            Some(sum)
        } else {
            None
        },
        None => None,
    }
}

/// The answer to a request of `n` bytes that found `current` reserved.
pub fn refusal(cap: u64, current: u64, n: u64) -> (refused: OutOfBudget)
    ensures
        refused.requested == n,
        refused.available == spare(cap, current),
{
    OutOfBudget { requested: n, available: left_of(cap, current) }
}

/// What is left under `cap` when `current` bytes are reserved.
pub fn left_of(cap: u64, current: u64) -> (n: u64)
    ensures
        n == spare(cap, current),
{
    cap.saturating_sub(current)
}

/// The answer to a request of `n` bytes that found `current` reserved: the
/// amount that is reserved with them, or a refusal.
pub fn answer_to(cap: u64, current: u64, n: u64) -> (answer: Result<u64, OutOfBudget>)
    ensures
        match answer {
            Ok(next) => grants(cap, current, n) && next == current + n,
            Err(refused) => {
                &&& !grants(cap, current, n)
                &&& refused.requested == n
                &&& refused.available == spare(cap, current)
            },
        },
{
    match next_used(cap, current, n) {
        Some(next) => Ok(next),
        None => Err(refusal(cap, current, n)),
    }
}

/// The decimal digit of a value below ten.
fn digit_of(d: u64) -> (text: &'static str)
    requires
        d < 10,
    ensures
        text@ == seq![digit(d as nat)],
{
    proof {
        reveal_strlit("0");
        reveal_strlit("1");
        reveal_strlit("2");
        reveal_strlit("3");
        reveal_strlit("4");
        reveal_strlit("5");
        reveal_strlit("6");
        reveal_strlit("7");
        reveal_strlit("8");
        reveal_strlit("9");
    }
    let text: &'static str = match d {
        0 => "0",
        1 => "1",
        2 => "2",
        3 => "3",
        4 => "4",
        5 => "5",
        6 => "6",
        7 => "7",
        8 => "8",
        _ => "9",
    };
    assert(text@ =~= seq![digit(d as nat)]);
    text
}

/// The decimal digits of a number.
fn decimal_of(n: u64) -> (digits: String)
    ensures
        digits@ == decimal(n as nat),
    decreases n,
{
    if n < 10 {
        String::from_str(digit_of(n))
    } else {
        let mut digits = decimal_of(n / 10);
        digits.append(digit_of(n % 10));
        assert(digits@ =~= decimal(n as nat));
        digits
    }
}

fn widen(n: usize) -> (wide: u64)
    ensures
        wide == n,
{
    n as u64
}

/// The digit for a value below ten.
pub open spec fn digit(d: nat) -> char {
    (d + '0' as nat) as char
}

/// The decimal digits of `n`, without leading zeros.
pub open spec fn decimal(n: nat) -> Seq<char>
    decreases n,
{
    if n < 10 {
        seq![digit(n)]
    } else {
        decimal(n / 10).push(digit(n % 10))
    }
}

impl OutOfBudget {
    /// The error in words.
    pub fn message(&self) -> (text: String)
        ensures
            text@ == "memory budget exhausted: requested "@ + decimal(self.requested as nat)
                + " bytes, "@ + decimal(self.available as nat) + " available"@,
    {
        let mut text = String::from_str("memory budget exhausted: requested ");
        text.append(decimal_of(self.requested).as_str());
        text.append(" bytes, ");
        text.append(decimal_of(self.available).as_str());
        text.append(" available");
        text
    }
}

impl Reservation {
    /// How many bytes this reservation holds.
    pub closed spec fn held(self) -> nat {
        match self.bytes {
            Bytes::Held(grant) => grant.amount(),
            Bytes::Returned(_) => 0,
        }
    }

    /// The account that the bytes were taken from and return to.
    pub closed spec fn account(self) -> AtomicU64 {
        self.bytes->Held_0.inner().used
    }

    /// What the account gave for the bytes once they were returned to it.
    pub closed spec fn returned(self) -> Option<Receipt> {
        match self.bytes {
            Bytes::Held(_) => None,
            Bytes::Returned(receipt) => Some(receipt),
        }
    }

    /// The bytes are held against this budget, and return to it.
    pub closed spec fn is_of(self, budget: MemoryBudget) -> bool {
        self.bytes matches Bytes::Held(grant) && grant.inner() == budget.inner
    }

    /// How many bytes this reservation holds.
    pub fn bytes(&self) -> (n: u64)
        ensures
            n == self.held(),
    {
        match &self.bytes {
            Bytes::Held(grant) => grant.bytes(),
            Bytes::Returned(_) => 0,
        }
    }
}

impl Clone for MemoryBudget {
    /// Another handle to the same account.
    fn clone(&self) -> (other: Self)
        ensures
            other == *self,
    {
        MemoryBudget { inner: Arc::clone(&self.inner) }
    }
}

impl Default for MemoryBudget {
    /// A budget without an effective limit.
    fn default() -> (budget: Self)
        ensures
            budget.limit() == u64::MAX,
    {
        Self::unlimited()
    }
}

impl MemoryBudget {
    /// The hard limit.
    pub closed spec fn limit(self) -> u64 {
        self.inner.cap
    }

    /// The account that tells how much is reserved.
    pub closed spec fn account(self) -> AtomicU64 {
        self.inner.used
    }

    /// A budget with a hard limit of `cap` bytes.
    pub fn bytes(cap: u64) -> (budget: Self)
        ensures
            budget.limit() == cap,
    {
        MemoryBudget {
            inner: Arc::new(
                Inner { cap, used: AtomicU64::new(0), peak_used: AtomicU64::new(0) },
            ),
        }
    }

    /// A budget without an effective limit, so that code can ask for memory
    /// without caring whether a limit was set.
    pub fn unlimited() -> (budget: Self)
        ensures
            budget.limit() == u64::MAX,
    {
        Self::bytes(u64::MAX)
    }

    /// A reservation of zero bytes.
    pub fn reserve_nothing(&self) -> (granted: Reservation)
        ensures
            granted.held() == 0,
            granted.is_of(*self),
            granted.account() == self.account(),
    {
        Reservation { bytes: Bytes::Held(Grant::nothing(Arc::clone(&self.inner))) }
    }

    /// Ask for `n` bytes. The answer is that of [`answer_to`] for the amount that
    /// was reserved at the moment of the request. Zero bytes are always granted
    /// and leave the account alone.
    pub fn reserve(&self, n: usize) -> (answer: Result<Reservation, OutOfBudget>)
        ensures
            match answer {
                Ok(granted) => {
                    &&& granted.held() == n
                    &&& granted.is_of(*self)
                    &&& granted.account() == self.account()
                    &&& n <= self.limit()
                },
                Err(refused) => {
                    &&& refused.requested == n
                    &&& exists|current: u64|
                        !(#[trigger] grants(self.limit(), current, refused.requested))
                            && refused.available == spare(self.limit(), current)
                },
            },
            n > self.limit() ==> answer is Err,
            n == 0 ==> answer is Ok,
    {
        let n: u64 = widen(n);
        if n == 0 {
            return Ok(self.reserve_nothing());
        }
        match update_used(Arc::clone(&self.inner), n) {
            Ok((grant, current)) => match answer_to(self.inner.cap, current, n) {
                Ok(next) => {
                    self.inner.peak_used.fetch_max(next, Ordering::AcqRel);
                    Ok(Reservation { bytes: Bytes::Held(grant) })
                },
                Err(refused) => Err(refused),
            },
            Err(current) => {
                assert(!grants(self.limit(), current, n));
                Err(refusal(self.inner.cap, current, n))
            },
        }
    }

    /// The hard limit; `u64::MAX` for an unlimited budget.
    pub fn cap(&self) -> (n: u64)
        ensures
            n == self.limit(),
    {
        self.inner.cap
    }

    /// Bytes reserved at this moment. Other threads may have changed the
    /// amount by the time it is looked at, so nothing is stated of it.
    pub fn used(&self) -> (n: u64) {
        self.inner.used.load(Ordering::Acquire)
    }

    /// Bytes left at this moment: what [`left_of`] gives for the amount that was
    /// reserved when it was looked at.
    pub fn available(&self) -> (n: u64)
        ensures
            exists|current: u64| n == #[trigger] spare(self.limit(), current),
    {
        let current: u64 = self.used();
        let left: u64 = left_of(self.inner.cap, current);
        assert(left == spare(self.limit(), current));
        left
    }

    /// The most that was ever reserved at once. Other threads may have changed
    /// the amount by the time it is looked at, so nothing is stated of it.
    pub fn peak_used(&self) -> (n: u64) {
        self.inner.peak_used.load(Ordering::Acquire)
    }
}

impl Drop for Reservation {
    /// Return the bytes to the budget: all that are held, to the account that
    /// they were taken from, and none a second time.
    fn drop(&mut self)
        ensures
            final(self).held() == 0,
            final(self).returned() matches Some(receipt) && receipt.amount() == old(self).held(),
        opens_invariants none
        no_unwind
    {
        let mut bytes: Bytes = Bytes::Returned(Receipt::nothing());
        core::mem::swap(&mut bytes, &mut self.bytes);
        if let Bytes::Held(grant) = bytes {
            self.bytes = Bytes::Returned(give_back(grant));
        }
    }
}

/// The account behind a budget, as it stands between two changes.
#[verifier::ext_equal]
pub struct Ledger {
    pub cap: nat,
    pub used: nat,
    pub peak: nat,
    /// The amounts held by the reservations that are alive.
    pub held: Seq<nat>,
}

/// What reaches the account, from whatever thread.
pub enum Event {
    /// A request of that many bytes.
    Reserve(nat),
    /// The reservation at that place of `held` is dropped.
    Release(int),
}

pub open spec fn sum(held: Seq<nat>) -> nat
    decreases held.len(),
{
    if held.len() == 0 {
        0
    } else {
        sum(held.drop_last()) + held.last()
    }
}

impl Ledger {
    /// The account of a new budget.
    pub open spec fn opened(cap: nat) -> Ledger {
        Ledger { cap, used: 0, peak: 0, held: Seq::empty() }
    }

    /// The account after a request of `n` bytes.
    pub open spec fn reserve(self, n: nat) -> Ledger {
        if fits(self.cap, self.used, n) {
            let used = self.used + n;
            Ledger {
                used,
                peak: if used > self.peak {
                    used
                } else {
                    self.peak
                },
                held: self.held.push(n),
                ..self
            }
        } else {
            self
        }
    }

    /// The account after the reservation at place `i` was dropped.
    pub open spec fn release(self, i: int) -> Ledger {
        if 0 <= i < self.held.len() {
            Ledger {
                used: (self.used - self.held[i]) as nat,
                held: self.held.remove(i),
                ..self
            }
        } else {
            self
        }
    }

    pub open spec fn after(self, event: Event) -> Ledger {
        match event {
            Event::Reserve(n) => self.reserve(n),
            Event::Release(i) => self.release(i),
        }
    }

    /// The account after all of `events`, one after the other.
    pub open spec fn after_all(self, events: Seq<Event>) -> Ledger
        decreases events.len(),
    {
        if events.len() == 0 {
            self
        } else {
            self.after_all(events.drop_last()).after(events.last())
        }
    }

    /// What is reserved is what the living reservations hold, it never exceeds
    /// the limit, and the peak lies between the two.
    pub open spec fn balanced(self) -> bool {
        &&& self.used == sum(self.held)
        &&& self.used <= self.peak <= self.cap
    }
}

pub proof fn lemma_sum_remove(held: Seq<nat>, i: int)
    requires
        0 <= i < held.len(),
    ensures
        sum(held.remove(i)) + held[i] == sum(held),
    decreases held.len(),
{
    if i == held.len() - 1 {
        assert(held.remove(i) =~= held.drop_last());
    } else {
        lemma_sum_remove(held.drop_last(), i);
        assert(held.remove(i).drop_last() =~= held.drop_last().remove(i));
        assert(held.remove(i).last() == held.last());
    }
}

/// Whatever requests and releases reach the account, and in whatever order: the
/// living reservations together hold exactly what is reserved, and never more
/// than the limit.
pub proof fn law_reservations_never_exceed_cap(cap: nat, events: Seq<Event>)
    ensures
        Ledger::opened(cap).after_all(events).balanced(),
        Ledger::opened(cap).after_all(events).cap == cap,
    decreases events.len(),
{
    if events.len() > 0 {
        law_reservations_never_exceed_cap(cap, events.drop_last());
        let l = Ledger::opened(cap).after_all(events.drop_last());
        match events.last() {
            Event::Reserve(n) => {
                assert(l.held.push(n).drop_last() =~= l.held);
            },
            Event::Release(i) => {
                if 0 <= i < l.held.len() {
                    lemma_sum_remove(l.held, i);
                }
            },
        }
    }
}

/// However the requests and releases of any number of threads are interleaved, at
/// no moment is more reserved than the limit: what is reserved is what the living
/// reservations hold together. Once none is alive, nothing is reserved.
pub proof fn law_concurrent_reservations_cannot_exceed_cap(cap: nat, events: Seq<Event>)
    ensures
        forall|k: int|
            0 <= k <= events.len() ==> {
                let l = #[trigger] Ledger::opened(cap).after_all(events.take(k));
                &&& sum(l.held) == l.used <= cap
                &&& l.held.len() == 0 ==> l.used == 0
            },
{
    assert forall|k: int| 0 <= k <= events.len() implies {
        let l = #[trigger] Ledger::opened(cap).after_all(events.take(k));
        &&& sum(l.held) == l.used <= cap
        &&& l.held.len() == 0 ==> l.used == 0
    } by {
        law_reservations_never_exceed_cap(cap, events.take(k));
    }
}

/// A request that finds `current` bytes reserved is granted exactly if those and
/// the requested ones together do not exceed the limit, whatever the limit. The
/// account then moves to their sum, and is left alone otherwise.
pub proof fn law_request_moves_the_account(l: Ledger, cap: u64, current: u64, n: u64)
    requires
        l.cap == cap,
        l.used == current,
    ensures
        grants(cap, current, n) <==> current + n <= cap,
        current + n <= cap ==> {
            let now = l.reserve(n as nat);
            &&& now.cap == l.cap
            &&& now.used == l.used + n
            &&& now.held == l.held.push(n as nat)
            &&& now.peak >= now.used
            &&& now.peak == l.peak || (now.peak == now.used && now.peak > l.peak)
        },
        current + n > cap ==> l.reserve(n as nat) == l,
        current <= cap ==> spare(cap, current) + current == cap,
        current >= cap ==> spare(cap, current) == 0,
        n > 0 && current + n > cap ==> spare(cap, current) < n,
{
}

/// What is held against a budget was taken from the account of that budget.
pub proof fn law_bytes_are_of_the_account(reservation: Reservation, budget: MemoryBudget)
    requires
        reservation.is_of(budget),
    ensures
        reservation.account() == budget.account(),
        reservation.returned() is None,
{
}

/// Dropping a reservation lowers the amount reserved in its account by exactly
/// the bytes it held, whatever the limit: the account moves as
/// [`Ledger::release`] does, and its limit and its peak stay.
pub proof fn law_drop_moves_the_account(
    l: Ledger,
    i: int,
    before: Reservation,
    after: Reservation,
)
    requires
        l.balanced(),
        0 <= i < l.held.len(),
        l.held[i] == before.held(),
        after.returned() matches Some(receipt) && receipt.amount() == before.held(),
    ensures
        ({
            let now = l.release(i);
            &&& now.used + after.returned()->0.amount() == l.used
            &&& now.used + before.held() == l.used
            &&& now.held == l.held.remove(i)
            &&& now.cap == l.cap
            &&& now.peak == l.peak
            &&& now.balanced()
        }),
{
    lemma_sum_remove(l.held, i);
}

/// A refused request leaves the account as it was, its peak included.
pub proof fn law_refusal_changes_nothing(l: Ledger, n: nat)
    requires
        !fits(l.cap, l.used, n),
    ensures
        l.reserve(n) == l,
{
}

/// Reserving and then dropping the reservation returns every byte: what is
/// reserved and what is left are as before, only the peak keeps a trace, and the
/// same request fits again.
pub proof fn law_release_returns_the_bytes(l: Ledger, n: nat)
    requires
        fits(l.cap, l.used, n),
    ensures
        ({
            let now = l.reserve(n).release(l.held.len() as int);
            &&& now.used == l.used
            &&& now.held == l.held
            &&& now.cap == l.cap
            &&& left_over(now.cap, now.used) == left_over(l.cap, l.used)
            &&& now.peak == if l.peak < l.used + n {
                l.used + n
            } else {
                l.peak
            }
            &&& fits(now.cap, now.used, n)
        }),
{
    assert(l.held.push(n).remove(l.held.len() as int) =~= l.held);
}

/// What is left and what is reserved make up the limit, and a request fits
/// exactly if it asks for no more than what is left.
pub proof fn law_what_is_left_can_be_had(cap: nat, events: Seq<Event>, n: nat)
    ensures
        ({
            let l = Ledger::opened(cap).after_all(events);
            &&& left_over(l.cap, l.used) + l.used == cap
            &&& fits(l.cap, l.used, n) <==> n <= left_over(l.cap, l.used)
        }),
{
    law_reservations_never_exceed_cap(cap, events);
}

/// The peak is the highest amount that was ever reserved: at some moment exactly
/// that much was, and at no moment more.
pub proof fn law_peak_was_reached(cap: nat, events: Seq<Event>)
    ensures
        ({
            let l = Ledger::opened(cap);
            let peak = l.after_all(events).peak;
            &&& exists|k: int|
                0 <= k <= events.len() && #[trigger] l.after_all(events.take(k)).used == peak
            &&& forall|k: int|
                0 <= k <= events.len() ==> #[trigger] l.after_all(events.take(k)).used <= peak
        }),
    decreases events.len(),
{
    let l = Ledger::opened(cap);
    let n = events.len() as int;
    assert(events.take(n) =~= events);
    law_reservations_never_exceed_cap(cap, events);
    if n > 0 {
        let init = events.drop_last();
        law_peak_was_reached(cap, init);
        law_reservations_never_exceed_cap(cap, init);
        assert forall|k: int| 0 <= k < n implies #[trigger] events.take(k) == init.take(k) by {
            assert(events.take(k) =~= init.take(k));
        }
        let before = l.after_all(init);
        let now = l.after_all(events);
        let k = choose|k: int|
            0 <= k <= init.len() && #[trigger] l.after_all(init.take(k)).used == before.peak;
        if now.peak == before.peak {
            assert(l.after_all(events.take(k)).used == now.peak);
        } else {
            assert(l.after_all(events.take(n)).used == now.peak);
        }
        assert forall|k: int| 0 <= k <= n implies #[trigger] l.after_all(events.take(k)).used
            <= now.peak by {
            if k < n {
                assert(l.after_all(init.take(k)).used <= before.peak);
            }
        }
    } else {
        assert(l.after_all(events.take(0)).used == l.after_all(events).peak);
    }
}

/// Once no reservation is alive, nothing is reserved.
pub proof fn law_nothing_held_means_nothing_used(cap: nat, events: Seq<Event>)
    requires
        Ledger::opened(cap).after_all(events).held.len() == 0,
    ensures
        Ledger::opened(cap).after_all(events).used == 0,
{
    law_reservations_never_exceed_cap(cap, events);
}

/// The peak never falls, and it is never below what is reserved.
pub proof fn law_peak_never_decays(cap: nat, events: Seq<Event>, more: Seq<Event>)
    ensures
        ({
            let before = Ledger::opened(cap).after_all(events);
            let now = before.after_all(more);
            before.peak <= now.peak && before.used <= now.peak
        }),
    decreases more.len(),
{
    law_reservations_never_exceed_cap(cap, events);
    if more.len() > 0 {
        law_peak_never_decays(cap, events, more.drop_last());
    }
}

/// A request of zero bytes is granted in every state that can be reached.
pub proof fn law_zero_bytes_always_fit(cap: nat, events: Seq<Event>)
    ensures
        ({
            let l = Ledger::opened(cap).after_all(events);
            fits(l.cap, l.used, 0)
        }),
{
    law_reservations_never_exceed_cap(cap, events);
}

/// An unlimited budget refuses a request only where the sum would exceed what a
/// `u64` counts.
pub proof fn law_unlimited_refuses_only_overflow(events: Seq<Event>, n: nat)
    ensures
        ({
            let l = Ledger::opened(u64::MAX as nat).after_all(events);
            fits(l.cap, l.used, n) <==> sum(l.held) + n <= u64::MAX
        }),
{
    law_reservations_never_exceed_cap(u64::MAX as nat, events);
}

/// A number in words is made of decimal digits, begins with a zero only if it is
/// zero, and reads back as the number.
pub proof fn law_decimal_reads_back(n: nat)
    ensures
        decimal(n).len() > 0,
        crate::harness::all_digits(decimal(n)),
        crate::harness::digits_value(decimal(n)) == n,
        n > 0 ==> decimal(n)[0] != '0',
        n == 0 ==> decimal(n) == seq!['0'],
    decreases n,
{
    let s = decimal(n);
    reveal_with_fuel(crate::harness::digits_value, 2);
    if n < 10 {
        assert(s.drop_last() =~= Seq::<char>::empty());
        assert(n == 0 ==> s =~= seq!['0']);
    } else {
        let front = decimal(n / 10);
        law_decimal_reads_back(n / 10);
        assert(s.drop_last() =~= front);
        assert(s[0] == front[0]);
        assert forall|i: int| 0 <= i < s.len() implies crate::harness::is_digit(
            #[trigger] s[i],
        ) by {
            if i < front.len() {
                assert(crate::harness::is_digit(front[i]));
            }
        }
    }
}

} // verus!
