use vstd::prelude::*;

verus! {

/// How a query touches an archetype, ordered `Iterate < Read < Write`.
#[derive(Debug, Clone, Copy, PartialEq, Eq, Structural, PartialOrd, Ord)]
pub enum Access {
    /// Reads entity ids only, no component column.
    Iterate,
    /// Shared access to component columns.
    Read,
    /// Exclusive access to component columns.
    Write,
}

impl Access {
    /// Position of the access in the lattice.
    pub open spec fn rank(self) -> nat {
        match self {
            Access::Iterate => 0,
            Access::Read => 1,
            Access::Write => 2,
        }
    }

    /// The larger of two accesses.
    pub open spec fn spec_join(self, other: Access) -> Access {
        if self.rank() >= other.rank() {
            self
        } else {
            other
        }
    }

    /// The larger of two accesses: what a tuple of both needs.
    pub fn join(self, other: Access) -> (r: Access)
        ensures
            r == self.spec_join(other),
            r.rank() >= self.rank(),
            r.rank() >= other.rank(),
    {
        match (self, other) {
            (Access::Write, _) => Access::Write,
            (_, Access::Write) => Access::Write,
            (Access::Read, _) => Access::Read,
            (_, Access::Read) => Access::Read,
            _ => Access::Iterate,
        }
    }
}

/// Whether an archetype's access calls for dynamic borrows: `Some(Read)` or more.
pub open spec fn needs_borrow(a: Option<Access>) -> bool {
    match a {
        Some(x) => x.rank() >= 1,
        None => false,
    }
}

/// Executable form of `needs_borrow`.
pub fn requires_borrow(a: Option<Access>) -> (r: bool)
    ensures
        r == needs_borrow(a),
{
    match a {
        Some(Access::Read) => true,
        Some(Access::Write) => true,
        _ => false,
    }
}

} // verus!
