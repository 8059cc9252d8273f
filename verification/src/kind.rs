//! The four fixed acceleration schemes for the reduction rule, and the
//! residue domain that each one operates on.

use vstd::prelude::*;

verus! {

/// One of four fixed reduction modes, selected at graph-creation time and
/// immutable thereafter. The variant determines which residue classes are
/// valid members of the graph and which arithmetic formulas the step
/// functions use.
#[derive(Clone, Copy, PartialEq, Eq, Structural, Debug)]
pub enum CollatzKind {
    /// The classic rule: halve an even value, map an odd `n` to `3n + 1`.
    Full,
    /// Like `Full`, but the guaranteed-even value after an odd step is
    /// halved in the same step.
    Short,
    /// Operates on odd values only, dispatching on `n % 8` so that each
    /// step jumps over every intermediate even value.
    Odd,
    /// Operates on values coprime to 6 only, dispatching on `n % 96` so
    /// that each step also jumps over every multiple of 3.
    Compact,
}

/// Which variant a small integer code selects; any unknown code falls back
/// to the full rule.
pub open spec fn kind_from_code(value: int) -> CollatzKind {
    if value == 1 {
        CollatzKind::Short
    } else if value == 2 {
        CollatzKind::Odd
    } else if value == 3 {
        CollatzKind::Compact
    } else {
        CollatzKind::Full
    }
}

impl core::convert::From<i32> for CollatzKind {
    fn from(value: i32) -> Self {
        if value == 1 {
            CollatzKind::Short
        } else if value == 2 {
            CollatzKind::Odd
        } else if value == 3 {
            CollatzKind::Compact
        } else {
            CollatzKind::Full
        }
    }
}

impl vstd::std_specs::convert::FromSpecImpl<i32> for CollatzKind {
    open spec fn obeys_from_spec() -> bool {
        true
    }

    open spec fn from_spec(value: i32) -> CollatzKind {
        kind_from_code(value as int)
    }
}

/// Whether `n` lies in the residue domain that the variant operates on.
/// Every graph member of a variant satisfies this.
pub open spec fn in_domain(kind: CollatzKind, n: int) -> bool {
    match kind {
        CollatzKind::Full => n >= 1,
        CollatzKind::Short => n >= 1,
        CollatzKind::Odd => n >= 1 && n % 2 == 1,
        CollatzKind::Compact => n >= 1 && n % 2 == 1 && n % 3 != 0,
    }
}

impl CollatzKind {
    /// Runtime test for membership in the variant's residue domain.
    pub fn accepts(&self, n: u64) -> (r: bool)
        ensures
            r == in_domain(*self, n as int),
    {
        match self {
            CollatzKind::Full => n >= 1,
            CollatzKind::Short => n >= 1,
            CollatzKind::Odd => n >= 1 && n % 2 == 1,
            CollatzKind::Compact => n >= 1 && n % 2 == 1 && n % 3 != 0,
        }
    }
}

} // verus!
