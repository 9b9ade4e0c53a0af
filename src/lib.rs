//! Which tracked branches carry which logical changes.
//!
//! The library resolves branch selectors into tracked branches, records which
//! branches reach which commits, groups commits by the first line of their
//! description, orders and colours the branch columns, and normalizes patches
//! before they are fingerprinted. Repository access, processes and terminal
//! output belong to the caller.
use vstd::prelude::*;

pub mod outside;
pub mod text;
pub mod selector;
pub mod membership;
pub mod grouping;
pub mod columns;
pub mod fingerprint;

verus! {

/// What stops a run.
#[derive(Debug)]
pub enum RunError {
    /// A branch selector is not a valid glob pattern.
    GlobSet(globset::Error),
    /// The repository refused a request.
    Git(git2::Error),
    /// An external program could not be run or gave unreadable output.
    Io(std::io::Error),
}

} // verus!
