//! World zones and the rule that picks one from the terrain height and moisture tests.

use vstd::prelude::*;

verus! {

/// World zone derived from height and moisture.
#[derive(Debug, Clone, Copy, PartialEq, Eq, Hash, Structural)]
pub enum Biome {
    Forest,
    Rocky,
    Clearing,
}

/// The classification rule: a surface at or above the rocky height is rocky; below it, a dry
/// surface (moisture under the clearing limit) is a clearing; every other surface is forest.
pub open spec fn biome_rule(at_rocky_height: bool, dry: bool) -> Biome {
    if at_rocky_height {
        Biome::Rocky
    } else if dry {
        Biome::Clearing
    } else {
        Biome::Forest
    }
}

/// Applies the classification rule to the outcomes of the height and moisture tests.
pub fn classify_by_rule(at_rocky_height: bool, dry: bool) -> (biome: Biome)
    ensures
        biome == biome_rule(at_rocky_height, dry),
{
    if at_rocky_height {
        Biome::Rocky
    } else if dry {
        Biome::Clearing
    } else {
        Biome::Forest
    }
}

} // verus!
