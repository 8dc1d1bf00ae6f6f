//! The failures this library reports. Every failure is a deterministic
//! function of the input document or configuration; nothing is transient.

use vstd::prelude::*;
use crate::ident::IdV;
use crate::ident::PackageId;

verus! {

/// Mathematical value of an error.
#[verifier::ext_equal]
pub enum ErrV {
    /// The document lacks per-edge kind data or is structurally
    /// inconsistent.
    MalformedInput,
    /// No root was designated and none was asked for.
    RootMissing,
    /// The version part of a root query does not parse.
    InvalidVersion { query: Seq<char> },
    /// A root query matched no package.
    PackageNotFound { query: Seq<char> },
    /// A root query matched more than one package.
    AmbiguousPackage { query: Seq<char>, candidates: Seq<IdV> },
    /// The display pattern holds a placeholder this library does not know.
    UnknownPattern { name: Seq<char> },
    /// The display pattern has unbalanced braces.
    PatternSyntax,
}

/// A structured failure: a kind plus the data a caller needs to word it.
#[derive(Debug)]
pub enum TreeError {
    MalformedInput,
    RootMissing,
    InvalidVersion { query: String },
    PackageNotFound { query: String },
    AmbiguousPackage { query: String, candidates: Vec<PackageId> },
    UnknownPattern { name: String },
    PatternSyntax,
}

impl View for TreeError {
    type V = ErrV;

    open spec fn view(&self) -> ErrV {
        match self {
            TreeError::MalformedInput => ErrV::MalformedInput,
            TreeError::RootMissing => ErrV::RootMissing,
            TreeError::InvalidVersion { query } => ErrV::InvalidVersion { query: query@ },
            TreeError::PackageNotFound { query } => ErrV::PackageNotFound { query: query@ },
            TreeError::AmbiguousPackage { query, candidates } => ErrV::AmbiguousPackage {
                query: query@,
                candidates: candidates@.map_values(|p: PackageId| p@),
            },
            TreeError::UnknownPattern { name } => ErrV::UnknownPattern { name: name@ },
            TreeError::PatternSyntax => ErrV::PatternSyntax,
        }
    }
}

} // verus!
