use std::sync::Arc;
use vstd::prelude::*;
use vstd::rwlock::{RwLock, RwLockPredicate};

verus! {

/// The lock predicate of a cell: a cell admits every value.
pub struct AnyValue;

impl<T> RwLockPredicate<T> for AnyValue {
    open spec fn inv(self, v: T) -> bool {
        true
    }
}

/// Relies on `Arc::clone`: the result points to the same allocation as `a`.
#[verifier::external_body]
pub(crate) fn share<T>(a: &Arc<T>) -> (r: Arc<T>)
    ensures
        r == *a,
{
    Arc::clone(a)
}

/// Relies on `format!` with `{:?}`: the value's `Debug` text.
#[verifier::external_body]
fn debug_text<T: std::fmt::Debug>(v: &T) -> String {
    format!("{:?}", v)
}

/// A value that a cell holds and that can be overwritten in place by another of its kind.
pub trait CopyInPlace {
    /// Overwrites the contents of `self` with those of `source`, keeping what belongs to
    /// `self` alone (its storage, whether it is trained).
    fn copy_from(&mut self, source: &Self);
}

impl CopyInPlace for i64 {
    fn copy_from(&mut self, source: &Self) {
        *self = *source;
    }
}

/// A shared value cell: one value with many owners, read and written only under its lock.
///
/// Cloning a cell hands out another owner of the same value; the value lives until its last
/// owner is gone.
pub struct ValueCell<T> {
    inner: Arc<RwLock<T, AnyValue>>,
}

impl<T> ValueCell<T> {
    /// Wraps `value` for shared, locked access.
    pub fn new(value: T) -> (r: Self) {
        ValueCell { inner: Arc::new(RwLock::new(value, Ghost(AnyValue))) }
    }

    /// Another owner of the same value: a write through either is seen through both.
    pub fn clone_handle(&self) -> (r: Self)
        ensures
            r == *self,
    {
        ValueCell { inner: share(&self.inner) }
    }

    /// Runs `f` on the value with the lock held, and stores what `f` returns.
    /// Other callers of the cell wait until the new value is stored; `f` must return, or the
    /// cell stays locked.
    pub fn update<F: FnOnce(T) -> T>(&self, f: F)
        requires
            forall|v: T| f.requires((v,)),
    {
        let (v, handle) = self.inner.acquire_write();
        let w = f(v);
        handle.release_write(w);
    }

    /// Replaces the value.
    pub fn set(&self, value: T) {
        let (_old, handle) = self.inner.acquire_write();
        handle.release_write(value);
    }

    /// A copy of the value, taken under the lock.
    pub fn get(&self) -> (r: T) where T: Clone {
        let handle = self.inner.acquire_read();
        let v = handle.borrow().clone();
        handle.release_read();
        v
    }

    /// The `Debug` text of the value, taken under the lock.
    pub fn describe(&self) -> String where T: std::fmt::Debug {
        let handle = self.inner.acquire_read();
        let text = debug_text(handle.borrow());
        handle.release_read();
        text
    }

    /// Overwrites this cell's value in place with the value of `source`.
    ///
    /// The source is read under its own lock, which is released before this cell is locked,
    /// so the two locks are never held together (a cell may be copied onto itself).
    pub fn copy_from(&self, source: &ValueCell<T>) where T: CopyInPlace + Clone {
        let snapshot = source.get();
        let (mut v, handle) = self.inner.acquire_write();
        v.copy_from(&snapshot);
        handle.release_write(v);
    }
}

} // verus!
