//! Dependency kinds shared by the document model, the graph and the
//! renderer.

use vstd::prelude::*;

verus! {

/// Why a dependency edge exists: runtime use, build-time tool, or
/// development (test) only.
#[derive(Clone, Copy, PartialEq, Eq, Structural, Debug)]
pub enum DepKind {
    Normal,
    Build,
    Development,
}

/// Kind names as an external front end spells them.
#[derive(Clone, Copy, PartialEq, Eq, Structural, Debug)]
pub enum RawKind {
    Normal,
    Dev,
    Build,
}

impl From<RawKind> for DepKind {
    fn from(raw: RawKind) -> DepKind {
        match raw {
            RawKind::Normal => DepKind::Normal,
            RawKind::Dev => DepKind::Development,
            RawKind::Build => DepKind::Build,
        }
    }
}

impl vstd::std_specs::convert::FromSpecImpl<RawKind> for DepKind {
    open spec fn obeys_from_spec() -> bool {
        true
    }

    open spec fn from_spec(raw: RawKind) -> DepKind {
        match raw {
            RawKind::Normal => DepKind::Normal,
            RawKind::Dev => DepKind::Development,
            RawKind::Build => DepKind::Build,
        }
    }
}

} // verus!
