//! A mutex-shaped wrapper that never locks.
//!
//! The per-node buffers of a solve are touched by exactly one traversal at a
//! time: a traversal visits each node at most once per iteration, and tasks that
//! run side by side never share a node. Access is therefore already serialised
//! by the shape of the tree, and a run-time lock would only cost time. The
//! wrapper here keeps the `lock()`-then-dereference call shape of a mutex while
//! the exclusive borrow, rather than a lock word, guarantees that at most one
//! guard over a value is alive.

use vstd::prelude::*;

verus! {

/// Mutex-like wrapper that performs no locking at all.
///
/// A guard is handed out from an exclusive borrow of the wrapper, so two guards
/// over the same value can never be alive together. The view of the wrapper is
/// the value it holds.
#[derive(Debug)]
pub struct MutexLike<T> {
    data: T,
}

/// Smart-pointer-like handle that is returned when a [`MutexLike`] is "locked".
///
/// The guard dereferences to the wrapped value, for reading and for writing.
/// What is written through the guard is what the wrapper holds once the guard
/// is gone.
#[derive(Debug)]
pub struct MutexGuardLike<'a, T> {
    /// The wrapper this guard was taken from.
    pub mutex: &'a mut MutexLike<T>,
}

impl<T> View for MutexLike<T> {
    type V = T;

    closed spec fn view(&self) -> T {
        self.data
    }
}

impl<'a, T> View for MutexGuardLike<'a, T> {
    type V = T;

    /// The value currently visible through the guard.
    open spec fn view(&self) -> T {
        self.mutex@
    }
}

impl<T> MutexLike<T> {
    /// Creates a new [`MutexLike`] holding `val`.
    pub fn new(val: T) -> (m: Self)
        ensures
            m@ == val,
    {
        Self { data: val }
    }

    /// Acquires a guard over the wrapped value **without** performing any
    /// locking.
    ///
    /// The guard starts out showing the current value, and whatever value it
    /// shows when it is dropped is the value of the wrapper afterwards.
    pub fn lock(&mut self) -> (guard: MutexGuardLike<'_, T>)
        ensures
            guard@ == old(self)@,
            final(self)@ == final(guard.mutex)@,
    {
        MutexGuardLike { mutex: self }
    }

    /// Consumes the wrapper and returns the value it holds.
    pub fn into_inner(self) -> (val: T)
        ensures
            val == self@,
    {
        self.data
    }
}

impl<T: Default> Default for MutexLike<T> {
    /// A wrapper around the default value of `T`.
    fn default() -> (m: Self)
        ensures
            call_ensures(T::default, (), m@),
    {
        Self::new(T::default())
    }
}

impl<'a, T> core::ops::Deref for MutexGuardLike<'a, T> {
    type Target = T;

    /// Shared access to the wrapped value.
    fn deref(&self) -> (r: &T)
        ensures
            *r == self@,
    {
        &self.mutex.data
    }
}

impl<'a, T> core::ops::DerefMut for MutexGuardLike<'a, T> {
    /// Exclusive access to the wrapped value. The guard shows whatever the
    /// returned reference is left holding, and stays tied to the same wrapper.
    fn deref_mut(&mut self) -> (r: &mut T)
        ensures
            *r == old(self)@,
            final(self)@ == *final(r),
            *final(final(self).mutex) == *final(old(self).mutex),
    {
        &mut self.mutex.data
    }
}

} // verus!
