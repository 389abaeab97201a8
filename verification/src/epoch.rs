//! # Epoch-based reclamation
//!
//! What is unlinked from a tree is handed to `crossbeam-epoch`, which drops it once no pinned
//! thread can still look at it.

use crossbeam_epoch::Guard;
use vstd::prelude::*;

verus! {

/// `crossbeam_epoch::Guard`: keeps the current thread pinned as long as it lives.
#[verifier::external_type_specification]
#[verifier::external_body]
pub struct ExGuard(crossbeam_epoch::Guard);

/// `crossbeam_epoch::pin` pins the current thread and returns the guard that keeps it pinned.
/// Nothing is said of the guard: what it is depends on the other threads.
pub assume_specification[ crossbeam_epoch::pin ]() -> (guard: Guard);

/// `Guard::defer` stores a function that is run at some point after all threads that are pinned
/// now are unpinned, if at all. Here the function does nothing but own `garbage`, which is dropped
/// with it. Nothing is said of when that is.
#[verifier::external_body]
pub(crate) fn retire<T: Send + 'static>(guard: &Guard, garbage: T) {
    guard.defer(move || garbage);
}

} // verus!
