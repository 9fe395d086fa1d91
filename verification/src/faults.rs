//! First faults of checks that run one after the other.

use vstd::prelude::*;

verus! {

/// The first of two faults.
pub open spec fn or_fault<E>(first: Option<E>, second: Option<E>) -> Option<E> {
    if first is Some {
        first
    } else {
        second
    }
}

/// A fault where a condition holds.
pub open spec fn fault_if<E>(condition: bool, error: E) -> Option<E> {
    if condition {
        Some(error)
    } else {
        None
    }
}

/// Turns the first fault into the outcome of a check.
pub open spec fn outcome<E>(fault: Option<E>) -> Result<(), E> {
    match fault {
        Some(error) => Err(error),
        None => Ok(()),
    }
}

/// The first fault among rows from `i` on.
pub open spec fn first_of<E>(count: int, fault: spec_fn(int) -> Option<E>, i: int) -> Option<E>
    decreases count - i,
{
    if i < 0 || i >= count {
        None
    } else if fault(i) is Some {
        fault(i)
    } else {
        first_of(count, fault, i + 1)
    }
}

/// There is no first fault exactly when no row has one.
pub proof fn lemma_first_of<E>(count: int, fault: spec_fn(int) -> Option<E>, i: int)
    requires
        0 <= i,
    ensures
        first_of(count, fault, i) is None == (forall|k: int|
            i <= k < count ==> (#[trigger] fault(k)) is None),
    decreases count - i,
{
    if i < count {
        lemma_first_of(count, fault, i + 1);
    }
}

} // verus!
