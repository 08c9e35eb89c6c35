//! The counting semaphore that backs an account.
//!
//! An account owns its semaphore and hands out neither the semaphore nor permits of it, so between
//! two calls nothing changes the number of permits and nobody waits for one.
use tokio::sync::Semaphore;
use vstd::prelude::*;

verus! {

/// `tokio::sync::Semaphore`, which holds a number of permits.
#[verifier::external_type_specification]
#[verifier::external_body]
pub struct ExSemaphore(tokio::sync::Semaphore);

/// The number of permits that are available, as `Semaphore::available_permits` returns it.
pub uninterp spec fn permits_of(semaphore: Semaphore) -> nat;

/// Whether the semaphore was not closed, which `Semaphore::is_closed` denies.
pub uninterp spec fn is_open(semaphore: Semaphore) -> bool;

/// The largest number of permits a semaphore can hold.
pub open spec fn permit_limit() -> nat {
    (usize::MAX / 8) as nat
}

/// Reads `Semaphore::MAX_PERMITS`, which is an eighth of the largest `usize`.
#[verifier::external_body]
pub(crate) fn max_permits() -> (limit: usize)
    ensures
        limit == permit_limit(),
{
    Semaphore::MAX_PERMITS
}

/// Calls `Semaphore::new`: the semaphore is open and has the given number of permits. The call
/// panics above the limit.
#[verifier::external_body]
pub(crate) fn new_semaphore(permits: usize) -> (semaphore: Semaphore)
    requires
        permits <= permit_limit(),
    ensures
        permits_of(semaphore) == permits,
        is_open(semaphore),
{
    Semaphore::new(permits)
}

/// Calls `Semaphore::available_permits`.
#[verifier::external_body]
pub(crate) fn available_permits(semaphore: &Semaphore) -> (available: usize)
    ensures
        available == permits_of(*semaphore),
{
    semaphore.available_permits()
}

/// Calls `Semaphore::add_permits`: the permits are added. The call panics above the limit.
#[verifier::external_body]
pub(crate) fn add_permits(semaphore: &mut Semaphore, permits: usize)
    requires
        permits_of(*old(semaphore)) + permits <= permit_limit(),
    ensures
        permits_of(*final(semaphore)) == permits_of(*old(semaphore)) + permits,
        is_open(*final(semaphore)) == is_open(*old(semaphore)),
{
    semaphore.add_permits(permits)
}

/// Calls `Semaphore::forget_permits`: as many of the permits as are available are taken away, and
/// their number is returned.
#[verifier::external_body]
pub(crate) fn forget_permits(semaphore: &mut Semaphore, permits: usize) -> (forgotten: usize)
    ensures
        forgotten == (if permits_of(*old(semaphore)) < permits {
            permits_of(*old(semaphore))
        } else {
            permits as nat
        }),
        permits_of(*final(semaphore)) == permits_of(*old(semaphore)) - forgotten,
        is_open(*final(semaphore)) == is_open(*old(semaphore)),
{
    semaphore.forget_permits(permits)
}

/// Calls `Semaphore::try_acquire_many`, and `SemaphorePermit::forget` on the permit it gives, so
/// that the permits stay taken: all of the permits are taken if they are available, otherwise
/// none. The call panics above the limit, and refuses when the semaphore is closed.
#[verifier::external_body]
pub(crate) fn try_take_permits(semaphore: &mut Semaphore, permits: u32) -> (taken: bool)
    requires
        is_open(*old(semaphore)),
        permits <= permit_limit(),
    ensures
        taken == (permits <= permits_of(*old(semaphore))),
        permits_of(*final(semaphore)) == (if taken {
            (permits_of(*old(semaphore)) - permits) as nat
        } else {
            permits_of(*old(semaphore))
        }),
        is_open(*final(semaphore)),
{
    match semaphore.try_acquire_many(permits) {
        Ok(permit) => {
            permit.forget();
            true
        },
        Err(_) => false,
    }
}

} // verus!
