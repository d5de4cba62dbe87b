//! Row-level lock table and multi-granularity lock tree.

pub mod lock_table;
pub mod multi_granularity_locking;

use vstd::prelude::*;

verus! {

/// Transaction identifier.
pub type TID = u64;

/// Kind of lock a transaction asks for.
#[derive(Clone, Copy, Debug, PartialEq, Eq, Hash, Structural)]
pub enum LockRequest {
    Read,
    Write,
}

/// Outcome of a successful lock request.
#[derive(Clone, Copy, Debug, PartialEq, Eq, Structural)]
pub enum BasicLockResult {
    Granted,
    Queued,
}

/// Errors of the lock managers.
#[derive(Clone, Copy, Debug, PartialEq, Eq, Structural)]
pub enum LockingError {
    LockAlreadyHeld,
    LockNotHeld,
}

} // verus!
