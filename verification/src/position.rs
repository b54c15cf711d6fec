//! 1-based genomic positions.

use vstd::prelude::*;

verus! {

/// A 1-based position; the inner value is never zero.
#[derive(Clone, Copy, Debug, PartialEq, Eq, Structural)]
pub struct Position {
    value: usize,
}

impl Position {
    /// A position is always at least 1.
    #[verifier::type_invariant]
    pub closed spec fn inv(self) -> bool {
        self.value >= 1
    }

    /// The inner value, for specifications.
    pub closed spec fn spec_get(self) -> int {
        self.value as int
    }

    /// The position holding value `n`, for specifications.
    pub closed spec fn from_int(n: int) -> Position {
        Position { value: n as usize }
    }

    /// Creates a position if the given value is not zero.
    pub fn new(n: usize) -> (r: Option<Position>)
        ensures
            match r {
                Some(p) => n != 0 && p.spec_get() == n && p == Position::from_int(n as int),
                None => n == 0,
            },
    {
        if n == 0 {
            None
        } else {
            Some(Position { value: n })
        }
    }

    /// The position as a plain integer.
    pub fn get(&self) -> (r: usize)
        ensures
            r == self.spec_get(),
            r >= 1,
    {
        proof {
            use_type_invariant(self);
        }
        self.value
    }

    /// The smaller of two positions.
    pub fn min(self, other: Position) -> (r: Position)
        ensures
            r == pos_min(self, other),
    {
        if self.value <= other.value {
            self
        } else {
            other
        }
    }

    /// The larger of two positions.
    pub fn max(self, other: Position) -> (r: Position)
        ensures
            r == pos_max(self, other),
    {
        if self.value >= other.value {
            self
        } else {
            other
        }
    }
}

/// The smaller of two positions.
pub open spec fn pos_min(a: Position, b: Position) -> Position {
    if a.spec_get() <= b.spec_get() {
        a
    } else {
        b
    }
}

/// The larger of two positions.
pub open spec fn pos_max(a: Position, b: Position) -> Position {
    if a.spec_get() >= b.spec_get() {
        a
    } else {
        b
    }
}

} // verus!
