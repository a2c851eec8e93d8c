//! A mutual-exclusion lock for sections that must not interleave,
//! such as multi-line printing from several workers. It protects no
//! data of its own; whoever has the returned guard has the lock.

use vstd::prelude::*;

verus! {

#[verifier::external_type_specification]
#[verifier::external_body]
#[verifier::reject_recursive_types(T)]
pub struct ExMutex<T: ?Sized>(std::sync::Mutex<T>);

#[verifier::external_type_specification]
#[verifier::external_body]
#[verifier::reject_recursive_types(T)]
pub struct ExMutexGuard<'a, T: ?Sized + 'a>(std::sync::MutexGuard<'a, T>);

/// A binary semaphore: one holder at a time.
pub struct Semaphore {
    mutex: std::sync::Mutex<()>,
}

impl Semaphore {
    /// Relies on `std::sync::Mutex::new`: a fresh, free lock.
    #[verifier::external_body]
    pub fn new() -> (r: Semaphore)
    {
        Semaphore { mutex: std::sync::Mutex::new(()) }
    }

    /// Relies on `std::sync::Mutex::lock`: blocks until the lock is
    /// free and keeps it until the guard is dropped. A poisoned lock
    /// (a holder panicked) is taken over rather than refused.
    #[verifier::external_body]
    pub fn lock(&self) -> (r: std::sync::MutexGuard<'_, ()>)
    {
        match self.mutex.lock() {
            Ok(guard) => guard,
            Err(poisoned) => poisoned.into_inner(),
        }
    }
}

} // verus!
