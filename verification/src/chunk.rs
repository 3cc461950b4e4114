//! Combining generator output into world content: the unified block type, moving
//! locally generated voxels to a world origin, and resting a rock clump on the terrain.

use vstd::prelude::*;
use crate::order::Voxel;
use crate::rock;
use crate::voxelize;

verus! {

/// Block kinds of the combined tree, rock and understory output of one area.
#[derive(Debug, Clone, Copy, PartialEq, Eq, Hash, Structural)]
pub enum WorldBlockType {
    Wood,
    Leaf,
    Stone,
}

impl From<voxelize::BlockType> for WorldBlockType {
    fn from(value: voxelize::BlockType) -> (block: Self) {
        match value {
            voxelize::BlockType::Wood => WorldBlockType::Wood,
            voxelize::BlockType::Leaf => WorldBlockType::Leaf,
        }
    }
}

impl vstd::std_specs::convert::FromSpecImpl<voxelize::BlockType> for WorldBlockType {
    open spec fn obeys_from_spec() -> bool {
        true
    }

    open spec fn from_spec(v: voxelize::BlockType) -> Self {
        match v {
            voxelize::BlockType::Wood => WorldBlockType::Wood,
            voxelize::BlockType::Leaf => WorldBlockType::Leaf,
        }
    }
}

impl From<rock::BlockType> for WorldBlockType {
    fn from(value: rock::BlockType) -> (block: Self) {
        match value {
            rock::BlockType::Stone => WorldBlockType::Stone,
        }
    }
}

impl vstd::std_specs::convert::FromSpecImpl<rock::BlockType> for WorldBlockType {
    open spec fn obeys_from_spec() -> bool {
        true
    }

    open spec fn from_spec(v: rock::BlockType) -> Self {
        match v {
            rock::BlockType::Stone => WorldBlockType::Stone,
        }
    }
}

/// Whether `p + origin` stays inside the `i32` grid on every axis.
pub open spec fn translation_fits(p: Voxel, origin: Voxel) -> bool {
    &&& i32::MIN <= p.x + origin.x <= i32::MAX
    &&& i32::MIN <= p.y + origin.y <= i32::MAX
    &&& i32::MIN <= p.z + origin.z <= i32::MAX
}

/// `p` moved by `origin`.
pub open spec fn translated(p: Voxel, origin: Voxel) -> Voxel {
    Voxel {
        x: (p.x + origin.x) as i32,
        y: (p.y + origin.y) as i32,
        z: (p.z + origin.z) as i32,
    }
}

/// Appends every voxel of a generator's local output to `out`, moved by `origin` and with
/// its block converted to the world block type, in the order of `voxels`.
pub fn append_translated<B>(voxels: Vec<(Voxel, B)>, origin: Voxel, out: &mut Vec<(Voxel, WorldBlockType)>)
    where WorldBlockType: From<B>,
    requires
        <WorldBlockType as vstd::std_specs::convert::FromSpec<B>>::obeys_from_spec(),
        forall|i: int| 0 <= i < voxels.len() ==> translation_fits(#[trigger] voxels@[i].0, origin),
    ensures
        final(out)@.len() == old(out)@.len() + voxels@.len(),
        forall|i: int| 0 <= i < old(out)@.len() ==> final(out)@[i] == old(out)@[i],
        forall|i: int| 0 <= i < voxels@.len() ==> final(out)@[old(out)@.len() + i] == (
            translated(voxels@[i].0, origin),
            <WorldBlockType as vstd::std_specs::convert::FromSpec<B>>::from_spec(voxels@[i].1),
        ),
{
    let ghost start = out@;
    let ghost items = voxels@;
    for item in it: voxels.into_iter()
        invariant
            <WorldBlockType as vstd::std_specs::convert::FromSpec<B>>::obeys_from_spec(),
            forall|i: int| 0 <= i < items.len() ==> translation_fits(#[trigger] items[i].0, origin),
            it.seq() == items,
            out@.len() == start.len() + it.index(),
            forall|i: int| 0 <= i < start.len() ==> out@[i] == start[i],
            forall|i: int| 0 <= i < it.index() ==> out@[start.len() + i] == (
                translated(items[i].0, origin),
                <WorldBlockType as vstd::std_specs::convert::FromSpec<B>>::from_spec(items[i].1),
            ),
    {
        let (pos, block) = item;
        let moved = Voxel { x: pos.x + origin.x, y: pos.y + origin.y, z: pos.z + origin.z };
        let kind = WorldBlockType::from(block);
        out.push((moved, kind));
    }
}

/// The lowest local `y` of a clump (0 for an empty clump).
pub open spec fn lowest_y(voxels: Seq<(Voxel, rock::BlockType)>) -> int
    decreases voxels.len(),
{
    if voxels.len() == 0 {
        0
    } else if voxels.len() == 1 {
        voxels[0].0.y as int
    } else {
        let rest = lowest_y(voxels.drop_last());
        if voxels.last().0.y < rest {
            voxels.last().0.y as int
        } else {
            rest
        }
    }
}

/// The highest of the surface heights, starting from `i32::MIN` (so `i32::MIN` when empty).
pub open spec fn highest_surface(surfaces: Seq<i32>) -> int
    decreases surfaces.len(),
{
    if surfaces.len() == 0 {
        i32::MIN as int
    } else {
        let rest = highest_surface(surfaces.drop_last());
        if surfaces.last() > rest {
            surfaces.last() as int
        } else {
            rest
        }
    }
}

/// The surface a clump rests on: the highest surface under its footprint, or the surface
/// at the placement point when no footprint surface was found.
pub open spec fn resting_surface(surfaces: Seq<i32>, fallback_surface: i32) -> int {
    if highest_surface(surfaces) == i32::MIN {
        fallback_surface as int
    } else {
        highest_surface(surfaces)
    }
}

proof fn lemma_lowest_y_bounds(voxels: Seq<(Voxel, rock::BlockType)>)
    ensures
        i32::MIN <= lowest_y(voxels) <= i32::MAX,
        voxels.len() > 0 ==> exists|i: int| 0 <= i < voxels.len() && lowest_y(voxels) == voxels[i].0.y,
        forall|i: int| 0 <= i < voxels.len() ==> lowest_y(voxels) <= #[trigger] voxels[i].0.y,
    decreases voxels.len(),
{
    if voxels.len() > 1 {
        let shorter = voxels.drop_last();
        lemma_lowest_y_bounds(shorter);
        let j = choose|i: int| 0 <= i < shorter.len() && lowest_y(shorter) == shorter[i].0.y;
        assert(voxels[j] == shorter[j]);
        assert forall|i: int| 0 <= i < voxels.len() implies lowest_y(voxels) <= #[trigger] voxels[i].0.y by {
            if i < voxels.len() - 1 {
                assert(voxels[i] == shorter[i]);
            }
        }
    }
}

proof fn lemma_highest_surface_bounds(surfaces: Seq<i32>)
    ensures
        i32::MIN <= highest_surface(surfaces) <= i32::MAX,
        forall|i: int| 0 <= i < surfaces.len() ==> #[trigger] surfaces[i] <= highest_surface(surfaces),
        highest_surface(surfaces) == i32::MIN
            || exists|i: int| 0 <= i < surfaces.len() && highest_surface(surfaces) == surfaces[i],
    decreases surfaces.len(),
{
    if surfaces.len() > 0 {
        let shorter = surfaces.drop_last();
        lemma_highest_surface_bounds(shorter);
        if highest_surface(shorter) != i32::MIN && highest_surface(surfaces) == highest_surface(shorter) {
            let j = choose|i: int| 0 <= i < shorter.len() && highest_surface(shorter) == shorter[i];
            assert(surfaces[j] == shorter[j]);
        }
        assert forall|i: int| 0 <= i < surfaces.len() implies #[trigger] surfaces[i] <= highest_surface(surfaces) by {
            if i < surfaces.len() - 1 {
                assert(surfaces[i] == shorter[i]);
            }
        }
    }
}

/// Origin that rests a generated rock clump on the terrain: horizontally at the rounded
/// placement point `(ox, oz)`, vertically so that the clump's lowest voxel sits on the highest
/// surface under its footprint. `surfaces[i]` is the terrain surface under `voxels[i]` once
/// moved to the placement point; `fallback_surface` is the surface at the placement point.
pub fn rock_origin_from_surfaces(
    ox: i32,
    oz: i32,
    voxels: &[(Voxel, rock::BlockType)],
    surfaces: &[i32],
    fallback_surface: i32,
) -> (origin: Voxel)
    requires
        surfaces.len() == voxels.len(),
        i32::MIN <= resting_surface(surfaces@, fallback_surface) - lowest_y(voxels@) <= i32::MAX,
    ensures
        origin.x == ox,
        origin.z == oz,
        origin.y == resting_surface(surfaces@, fallback_surface) - lowest_y(voxels@),
{
    let mut lowest: i32 = 0;
    let mut i: usize = 0;
    while i < voxels.len()
        invariant
            i <= voxels.len(),
            lowest == lowest_y(voxels@.take(i as int)),
        decreases voxels.len() - i,
    {
        proof {
            lemma_lowest_y_bounds(voxels@.take(i as int));
            assert(voxels@.take(i as int + 1).drop_last() == voxels@.take(i as int));
        }
        let y = voxels[i].0.y;
        if i == 0 || y < lowest {
            lowest = y;
        }
        i = i + 1;
    }
    assert(voxels@.take(voxels.len() as int) == voxels@);
    let mut highest: i32 = i32::MIN;
    let mut j: usize = 0;
    while j < surfaces.len()
        invariant
            j <= surfaces.len(),
            highest == highest_surface(surfaces@.take(j as int)),
        decreases surfaces.len() - j,
    {
        proof {
            lemma_highest_surface_bounds(surfaces@.take(j as int));
            assert(surfaces@.take(j as int + 1).drop_last() == surfaces@.take(j as int));
        }
        if surfaces[j] > highest {
            highest = surfaces[j];
        }
        j = j + 1;
    }
    assert(surfaces@.take(surfaces.len() as int) == surfaces@);
    let surface = if highest == i32::MIN { fallback_surface } else { highest };
    Voxel { x: ox, y: surface - lowest, z: oz }
}

/// A rock placed by [`rock_origin_from_surfaces`] rests on the terrain: its lowest voxel sits
/// exactly on the resting surface, no voxel is below it, and no footprint surface is above it.
pub proof fn lemma_rock_rests_on_surface(
    voxels: Seq<(Voxel, rock::BlockType)>,
    surfaces: Seq<i32>,
    fallback_surface: i32,
)
    requires
        voxels.len() > 0,
        surfaces.len() == voxels.len(),
    ensures
        ({
            let origin_y = resting_surface(surfaces, fallback_surface) - lowest_y(voxels);
            &&& exists|i: int| 0 <= i < voxels.len() && voxels[i].0.y + origin_y == resting_surface(surfaces, fallback_surface)
            &&& forall|i: int| 0 <= i < voxels.len() ==> #[trigger] voxels[i].0.y + origin_y >= resting_surface(surfaces, fallback_surface)
            &&& forall|i: int| 0 <= i < surfaces.len() ==> #[trigger] surfaces[i] <= resting_surface(surfaces, fallback_surface)
        }),
{
    lemma_lowest_y_bounds(voxels);
    lemma_highest_surface_bounds(surfaces);
    let origin_y = resting_surface(surfaces, fallback_surface) - lowest_y(voxels);
    let j = choose|i: int| 0 <= i < voxels.len() && lowest_y(voxels) == voxels[i].0.y;
    assert(voxels[j].0.y + origin_y == resting_surface(surfaces, fallback_surface));
    assert forall|i: int| 0 <= i < surfaces.len() implies #[trigger] surfaces[i] <= resting_surface(surfaces, fallback_surface) by {
        if highest_surface(surfaces) == i32::MIN {
            assert(surfaces[i] <= highest_surface(surfaces));
        }
    }
}

} // verus!
