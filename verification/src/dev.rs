//! The stages a release of this library can be in.

use vstd::prelude::*;

verus! {

/// How far along its development a build is.
#[derive(PartialEq, Eq, Structural, Clone, Copy, Debug)]
pub enum DevelopmentState {
    Alpha,
    Beta,
    Release,
}

} // verus!
