//! A lock that is taken even where a holder of it panicked.

use vstd::prelude::*;

verus! {

/// `std::sync::Mutex`.
#[verifier::external_type_specification]
#[verifier::external_body]
#[verifier::reject_recursive_types(T)]
pub struct ExMutex<T: ?Sized>(std::sync::Mutex<T>);

/// `std::sync::MutexGuard`.
#[verifier::external_type_specification]
#[verifier::external_body]
#[verifier::reject_recursive_types(T)]
pub struct ExMutexGuard<'a, T: ?Sized + 'a>(std::sync::MutexGuard<'a, T>);

/// `std::sync::PoisonError`.
#[verifier::external_type_specification]
#[verifier::external_body]
#[verifier::reject_recursive_types(T)]
pub struct ExPoisonError<T>(std::sync::PoisonError<T>);

/// `std::sync::Mutex::new`: a lock on a value. What the value is later on rests with
/// those who take the lock, so nothing is claimed of it.
pub assume_specification<T>[ std::sync::Mutex::<T>::new ](t: T) -> (m: std::sync::Mutex<T>);

/// `std::sync::Mutex::lock`: waits for the lock; the guard comes in an error where a
/// holder panicked. Which of the two it is rests with the other holders.
pub assume_specification<T: ?Sized>[ std::sync::Mutex::<T>::lock ](
    m: &std::sync::Mutex<T>,
) -> (r: std::sync::LockResult<std::sync::MutexGuard<'_, T>>);

/// `std::sync::PoisonError::into_inner`: the guard in an error.
pub assume_specification<T>[ std::sync::PoisonError::<T>::into_inner ](
    e: std::sync::PoisonError<T>,
) -> (t: T);

/// A lock on a value.
#[verifier::reject_recursive_types(T)]
pub struct Mutex<T>(std::sync::Mutex<T>);

impl<T> Mutex<T> {
    /// A lock on `t`, which nobody holds.
    pub fn new(t: T) -> Self {
        Mutex(std::sync::Mutex::new(t))
    }

    /// Takes the lock, also where a holder of it panicked: the guard is handed out either
    /// way. What it guards is what the holders before left there.
    pub fn lock(&self) -> std::sync::MutexGuard<'_, T> {
        match self.0.lock() {
            Ok(guard) => guard,
            Err(e) => e.into_inner(),
        }
    }
}

} // verus!
