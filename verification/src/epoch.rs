use vstd::prelude::*;

verus! {

/// Epoch guard of the reclamation scheme: while a thread holds one it is
/// "pinned", and nothing it may still reference is freed.
#[verifier::external_type_specification]
#[verifier::external_body]
pub struct ExGuard(crossbeam_epoch::Guard);

/// Relies on crossbeam_epoch::pin: pins the current thread's epoch and
/// returns the guard that keeps the pin alive until it is dropped.
#[verifier::external_body]
pub fn epoch_pin() -> (g: crossbeam_epoch::Guard) {
    crossbeam_epoch::pin()
}

/// Relies on crossbeam_epoch::Guard::defer: queues a no-op to run once
/// every thread pinned at the time of the call has since unpinned, which
/// closes out a batch of deferred work under this guard's pin.
#[verifier::external_body]
pub fn epoch_defer_flush(g: &crossbeam_epoch::Guard) {
    g.defer(|| ());
}

} // verus!
