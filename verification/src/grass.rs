//! Kinds of ground-cover clumps.

use vstd::prelude::*;

verus! {

/// Visual kind of one grass clump.
#[derive(Debug, Clone, Copy, PartialEq, Eq, Hash, Structural)]
pub enum GrassVariant {
    Grass,
    Fern,
}

} // verus!
