//! The acceptance criteria that the library knows.
use vstd::prelude::*;

verus! {

/// The acceptance criteria, as a closed set of tags.
#[derive(Debug, Clone, Copy, PartialEq, Eq, Structural)]
pub enum Kind {
    ConflictFree,
    Admissible,
    Complete,
    Stable,
    Ground,
}

/// An acceptance criterion.
pub trait Semantics: Sized {
    /// The tag of this criterion.
    spec fn tag() -> Kind;

    /// Computes [`Semantics::tag`].
    fn kind() -> (kind: Kind)
        ensures
            kind == Self::tag(),
    ;
}

/// No two accepted arguments attack one another.
#[derive(Debug, Clone, Copy, Default)]
pub struct ConflictFree;

/// Conflict-free, and every accepted argument is defended.
#[derive(Debug, Clone, Copy, Default)]
pub struct Admissible;

/// Admissible, and every defended argument is accepted.
#[derive(Debug, Clone, Copy, Default)]
pub struct Complete;

/// Conflict-free, and every argument that is not accepted is attacked by
/// one that is.
#[derive(Debug, Clone, Copy, Default)]
pub struct Stable;

/// The least complete set.
#[derive(Debug, Clone, Copy, Default)]
pub struct Ground;

impl Semantics for ConflictFree {
    open spec fn tag() -> Kind {
        Kind::ConflictFree
    }

    fn kind() -> (kind: Kind) {
        Kind::ConflictFree
    }
}

impl Semantics for Admissible {
    open spec fn tag() -> Kind {
        Kind::Admissible
    }

    fn kind() -> (kind: Kind) {
        Kind::Admissible
    }
}

impl Semantics for Complete {
    open spec fn tag() -> Kind {
        Kind::Complete
    }

    fn kind() -> (kind: Kind) {
        Kind::Complete
    }
}

impl Semantics for Stable {
    open spec fn tag() -> Kind {
        Kind::Stable
    }

    fn kind() -> (kind: Kind) {
        Kind::Stable
    }
}

impl Semantics for Ground {
    open spec fn tag() -> Kind {
        Kind::Ground
    }

    fn kind() -> (kind: Kind) {
        Kind::Ground
    }
}

} // verus!
