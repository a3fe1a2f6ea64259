use vstd::prelude::*;

verus! {

/// What the driver of a task stream does next.
pub enum Step<F, T> {
    /// Poll this future once and report its outcome.
    Poll(F),
    /// The stream yields this item.
    Ready(T),
    /// The stream has nothing to yield yet.
    Pending,
    /// The stream has ended.
    Finished,
}

/// What polling a future once gave.
pub enum Outcome<F, T> {
    /// The future completed with this item.
    Ready(T),
    /// The future completed without an item: its permit channel was closed.
    Closed,
    /// The future is not done yet; it is handed back.
    Pending(F),
}

/// Capacities that a bounded permit channel accepts: at least one, and at
/// most the largest number of permits a semaphore may hold (an eighth of the
/// `usize` range).
pub open spec fn valid_limit(limit: usize) -> bool {
    0 < limit && limit <= usize::MAX / 8
}

} // verus!
