//! What an account hands out for bytes that it granted and that it got back.
//!
//! A [`Grant`] of any bytes comes from the change to the account alone, so
//! whoever holds one has had that amount added to what is reserved. It is used
//! up when the bytes go back, for which a [`Receipt`] is given, and nothing else
//! gives one for any bytes.
use std::sync::atomic::Ordering;
use std::sync::Arc;

use vstd::prelude::*;

use super::{next_used, Inner};

verus! {

/// Bytes that were added to what is reserved.
#[derive(Debug)]
pub(super) struct Grant {
    bytes: u64,
    inner: Arc<Inner>,
}

/// Bytes that were taken off what is reserved.
#[derive(Debug)]
pub struct Receipt {
    bytes: u64,
}

impl Receipt {
    /// How many bytes went back.
    pub closed spec fn amount(self) -> nat {
        self.bytes as nat
    }

    /// A receipt for no bytes, for which no account has to be changed.
    pub(super) fn nothing() -> (receipt: Self)
        ensures
            receipt.amount() == 0,
        opens_invariants none
        no_unwind
    {
        Receipt { bytes: 0 }
    }
}

impl Grant {
    pub closed spec fn amount(self) -> nat {
        self.bytes as nat
    }

    /// What the bytes are held against.
    pub(super) closed spec fn inner(self) -> Arc<Inner> {
        self.inner
    }

    /// A grant of no bytes, for which no account has to be changed.
    pub(super) fn nothing(inner: Arc<Inner>) -> (grant: Self)
        ensures
            grant.amount() == 0,
            grant.inner() == inner,
    {
        Grant { bytes: 0, inner }
    }

    /// How many bytes were granted.
    pub fn bytes(&self) -> (n: u64)
        ensures
            n == self.amount(),
    {
        self.bytes
    }
}

/// `AtomicU64::fetch_update`, with [`next_used`] as the function that it calls:
/// it stores what that gives and returns the value found before as `Ok`, or, if
/// that gives nothing, leaves the atomic alone and returns the value found as
/// `Err`. What was stored comes back as a grant of the `n` bytes, together with
/// what the changed account is part of.
#[verifier::external_body]
pub(super) fn update_used(inner: Arc<Inner>, n: u64) -> (found: Result<(Grant, u64), u64>)
    ensures
        match found {
            Ok((grant, current)) => {
                &&& super::grants(inner.cap, current, n)
                &&& grant.amount() == n
                &&& grant.inner() == inner
            },
            Err(current) => !super::grants(inner.cap, current, n),
        },
{
    let cap: u64 = inner.cap;
    match inner.used.fetch_update(
        Ordering::AcqRel,
        Ordering::Acquire,
        |c: u64| next_used(cap, c, n),
    ) {
        Ok(current) => Ok((Grant { bytes: n, inner }, current)),
        Err(current) => Err(current),
    }
}

/// `AtomicU64::fetch_sub`, which subtracts and wraps on overflow. It is called on
/// the account that the grant is of, with the bytes of the grant, which is used up
/// by that. The receipt is for those bytes.
#[verifier::external_body]
pub(super) fn give_back(grant: Grant) -> (receipt: Receipt)
    ensures
        receipt.amount() == grant.amount(),
    opens_invariants none
    no_unwind
{
    grant.inner.used.fetch_sub(grant.bytes, Ordering::AcqRel);
    Receipt { bytes: grant.bytes }
}

} // verus!
