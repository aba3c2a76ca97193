//! What the interval index asks of the values it stores.

use vstd::prelude::*;

verus! {

/// A value that can bound an interval.
///
/// An endpoint is copied freely and lies at an integer position; endpoints are
/// ordered as their positions are. Two endpoints at one position are the same
/// bound as far as the index is concerned.
pub trait Endpoint: Copy {
    /// The integer at which this endpoint lies.
    spec fn position(self) -> int;

    /// Whether `self` lies strictly before `other`.
    fn precedes(self, other: Self) -> (b: bool)
        ensures
            b == (self.position() < other.position()),
    ;
}

/// Whether the two endpoints lie at the same position.
pub fn coincide<I: Endpoint>(a: I, b: I) -> (same: bool)
    ensures
        same == (a.position() == b.position()),
{
    !a.precedes(b) && !b.precedes(a)
}

/// A value that can be attached to an interval.
///
/// A payload is identified by its view: the index stores at most one payload
/// of a given view per interval.
pub trait Payload: View + Sized {
    /// Whether the two payloads are the same one.
    fn same(&self, other: &Self) -> (b: bool)
        ensures
            b == (self@ == other@),
    ;

    /// A second handle on the same payload.
    fn duplicate(&self) -> (copy: Self)
        ensures
            copy@ == self@,
    ;
}

impl Endpoint for i32 {
    open spec fn position(self) -> int {
        self as int
    }

    fn precedes(self, other: Self) -> (b: bool) {
        self < other
    }
}

impl Endpoint for i64 {
    open spec fn position(self) -> int {
        self as int
    }

    fn precedes(self, other: Self) -> (b: bool) {
        self < other
    }
}

impl Endpoint for u64 {
    open spec fn position(self) -> int {
        self as int
    }

    fn precedes(self, other: Self) -> (b: bool) {
        self < other
    }
}

impl Payload for i32 {
    fn same(&self, other: &Self) -> (b: bool) {
        *self == *other
    }

    fn duplicate(&self) -> (copy: Self) {
        *self
    }
}

impl Payload for u64 {
    fn same(&self, other: &Self) -> (b: bool) {
        *self == *other
    }

    fn duplicate(&self) -> (copy: Self) {
        *self
    }
}

impl Payload for String {
    fn same(&self, other: &Self) -> (b: bool) {
        *self == *other
    }

    fn duplicate(&self) -> (copy: Self) {
        self.clone()
    }
}

} // verus!
