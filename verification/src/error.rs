//! The recoverable errors: a bounded store at its logical capacity, and a failed
//! bulk build. Every error hands the rejected element back.

use vstd::prelude::*;

verus! {

/// Returned when a bounded store is at logical capacity; carries the element
/// that could not be inserted.
#[derive(Clone, Copy, PartialEq, Eq, Debug)]
pub struct CapacityError<T>(pub T);

impl<T> CapacityError<T> {
    /// The element this error hands back.
    pub open spec fn rejected(self) -> T {
        self.0
    }

    /// Wraps a rejected element.
    pub fn new(value: T) -> (e: Self)
        ensures
            e.rejected() == value,
    {
        CapacityError(value)
    }

    /// Recovers the element that could not be inserted.
    pub fn into_inner(self) -> (value: T)
        ensures
            value == self.rejected(),
    {
        self.0
    }

    /// The human-readable description of this error.
    pub fn message(&self) -> (s: &'static str)
        ensures
            s@ == "store is at logical capacity"@,
    {
        "store is at logical capacity"
    }
}

/// Error from a fallible bulk build: the store filled, a map build met a repeated
/// key, or a sorted build met an element smaller than its predecessor. Every arm
/// hands the offending element back.
#[derive(Clone, Copy, PartialEq, Eq, Debug)]
pub enum BuildError<T> {
    /// The store reached its logical capacity before every element was inserted.
    Capacity(T),
    /// Two entries shared a key; the second one is handed back.
    DuplicateKey(T),
    /// A sorted build was given an element smaller than its predecessor.
    Unsorted(T),
}

impl<T> BuildError<T> {
    /// The element this error hands back, whatever the arm.
    pub open spec fn rejected(self) -> T {
        match self {
            BuildError::Capacity(t) => t,
            BuildError::DuplicateKey(t) => t,
            BuildError::Unsorted(t) => t,
        }
    }

    /// Recovers the element that could not be inserted.
    pub fn into_inner(self) -> (value: T)
        ensures
            value == self.rejected(),
    {
        match self {
            BuildError::Capacity(t) => t,
            BuildError::DuplicateKey(t) => t,
            BuildError::Unsorted(t) => t,
        }
    }

    /// The human-readable description of this error.
    pub fn message(&self) -> (s: &'static str)
        ensures
            self is Capacity ==> s@ == "store is at logical capacity"@,
            self is DuplicateKey ==> s@ == "duplicate key in bulk build"@,
            self is Unsorted ==> s@ == "input was not in ascending order"@,
    {
        match self {
            BuildError::Capacity(_) => "store is at logical capacity",
            BuildError::DuplicateKey(_) => "duplicate key in bulk build",
            BuildError::Unsorted(_) => "input was not in ascending order",
        }
    }
}

impl<T> From<CapacityError<T>> for BuildError<T> {
    fn from(err: CapacityError<T>) -> (b: Self) {
        BuildError::Capacity(err.0)
    }
}

impl<T> vstd::std_specs::convert::FromSpecImpl<CapacityError<T>> for BuildError<T> {
    open spec fn obeys_from_spec() -> bool {
        true
    }

    open spec fn from_spec(v: CapacityError<T>) -> BuildError<T> {
        BuildError::Capacity(v.0)
    }
}

} // verus!
