//! Symbolic names for the blocks and directives the lowering recognizes.

use vstd::prelude::*;

verus! {

/// The block names the lowering understands, with a catch-all for the rest.
#[derive(Debug, PartialEq, Eq)]
pub enum BlockName {
    Http,
    Server,
    Location,
    Other(String),
}

/// The directive names the lowering understands, with a catch-all.
#[derive(Debug, PartialEq, Eq)]
pub enum DirectiveName {
    Listen,
    ServerName,
    Include,
    Other(String),
}

} // verus!
