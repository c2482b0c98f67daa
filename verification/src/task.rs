//! Readiness of resources and the tasks that wait for them.

use core::task::Waker;
use embassy_sync::waitqueue::WakerRegistration;
use vstd::prelude::*;

verus! {

/// The outcome of asking for something that may not be there yet.
#[derive(Debug, PartialEq, Eq)]
pub enum Poll<T> {
    /// It is there.
    Ready(T),
    /// It is not there, and the task will be woken when that may have changed.
    Pending,
}

/// `core::task::Waker`: a handle that wakes a task. It is only carried to where it is stored.
#[verifier::external_type_specification]
#[verifier::external_body]
pub struct ExWaker(Waker);

/// `embassy_sync::waitqueue::WakerRegistration`: a place that holds at most one waker.
#[verifier::external_type_specification]
#[verifier::external_body]
pub struct ExWakerRegistration(WakerRegistration);

/// Tells whether a waker is held, so that a task waits.
pub uninterp spec fn is_waiting(registration: WakerRegistration) -> bool;

/// Calls `WakerRegistration::new`: no waker is held.
#[verifier::external_body]
pub(crate) fn new_registration() -> (r: WakerRegistration)
    ensures
        !is_waiting(r),
{
    WakerRegistration::new()
}

/// Calls `WakerRegistration::register`: afterwards a waker is held, a copy of the given one or an
/// earlier one that wakes the same task. A waker is opaque, so it is not stated which task that
/// is, nor that a waker of another task is woken when it is replaced.
#[verifier::external_body]
pub(crate) fn register_waker(registration: &mut WakerRegistration, waker: &Waker)
    ensures
        is_waiting(*final(registration)),
{
    registration.register(waker)
}

/// Calls `WakerRegistration::wake`: the waker that is held is taken out and woken. That the task
/// runs again is up to its executor and not stated.
#[verifier::external_body]
pub(crate) fn wake_registered(registration: &mut WakerRegistration)
    ensures
        !is_waiting(*final(registration)),
{
    registration.wake()
}

} // verus!
