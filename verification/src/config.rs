//! Limits for reading a RESP stream, shared between the readers that use them.

use std::sync::atomic::{AtomicUsize, Ordering};
use triomphe::Arc;
use vstd::prelude::*;

verus! {

/// `triomphe::Arc`: a handle to a value that is shared between its clones.
#[verifier::external_type_specification]
#[verifier::external_body]
#[verifier::reject_recursive_types(T)]
pub struct ExArc<T: ?Sized>(Arc<T>);

/// `triomphe::Arc::new`: a handle to `data`, which no other handle shares yet.
pub assume_specification<T>[ Arc::<T>::new ](data: T) -> Arc<T>;

/// `Deref` of `triomphe::Arc`: the shared value.
pub assume_specification<T: ?Sized>[ <Arc<T> as core::ops::Deref>::deref ](shared: &Arc<T>) -> &T;

/// `Clone` of `triomphe::Arc`: another handle to the same shared value.
pub assume_specification<T: ?Sized>[ <Arc<T> as Clone>::clone ](shared: &Arc<T>) -> Arc<T>;

/// The largest blob that a reader accepts unless told otherwise: 512 MiB.
pub const DEFAULT_BLOB_LIMIT: usize = 536870912;

/// The longest inline request that a reader accepts unless told otherwise: 64 KiB.
pub const DEFAULT_INLINE_LIMIT: usize = 65536;

/// Configuration of limits for reading a RESP stream.
///
/// A clone shares its limits with the configuration it was made from, also across
/// threads: a limit set through one is what all of them read from then on. So no
/// holder can tell what it will read next, and every reader asks for a limit at
/// the moment it needs one.
#[derive(Debug, Clone)]
pub struct RespConfig {
    /// The maximum blob frame size.
    blob_limit: Arc<AtomicUsize>,
    /// The maximum inline request size.
    inline_limit: Arc<AtomicUsize>,
}

impl RespConfig {
    /// Get the blob frame size limit.
    pub fn blob_limit(&self) -> usize {
        self.blob_limit.load(Ordering::Relaxed)
    }

    /// Set the blob frame size limit.
    pub fn set_blob_limit(&mut self, value: usize) {
        self.blob_limit.store(value, Ordering::Relaxed)
    }

    /// Get the inline request size limit.
    pub fn inline_limit(&self) -> usize {
        self.inline_limit.load(Ordering::Relaxed)
    }

    /// Set the inline request size limit.
    pub fn set_inline_limit(&mut self, value: usize) {
        self.inline_limit.store(value, Ordering::Relaxed)
    }
}

impl Default for RespConfig {
    fn default() -> Self {
        RespConfig {
            inline_limit: Arc::new(AtomicUsize::new(DEFAULT_INLINE_LIMIT)),
            blob_limit: Arc::new(AtomicUsize::new(DEFAULT_BLOB_LIMIT)),
        }
    }
}

} // verus!
