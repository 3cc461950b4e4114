//! The voxel terrain column rule: which material fills each height of a column whose
//! topmost solid voxel is known, which texture layers each material shows, and which chunk
//! holds a world voxel.

use vstd::prelude::*;
use crate::order::Voxel;
use crate::textures::{LAYER_DIRT, LAYER_GRASS_SIDE, LAYER_GRASS_TOP, LAYER_STONE};

verus! {

/// Material index of dirt.
pub const MAT_DIRT: u8 = 0;

/// Material index of grass (the top voxel of a column).
pub const MAT_GRASS: u8 = 1;

/// Material index of stone.
pub const MAT_STONE: u8 = 2;

/// Number of voxels from the top of a column, the grass voxel included, above the stone.
pub const SOIL_DEPTH: i32 = 4;

/// Content of one terrain voxel.
#[derive(Debug, Clone, Copy, PartialEq, Eq, Structural)]
pub enum ColumnVoxel {
    Air,
    Solid(u8),
}

/// The voxel at height `y` of a column whose topmost solid voxel is at `top_solid`: air above
/// it, grass at it, dirt for the next [`SOIL_DEPTH`]` - 1` voxels below, stone further down.
pub open spec fn column_voxel_spec(y: int, top_solid: int) -> ColumnVoxel {
    if y > top_solid {
        ColumnVoxel::Air
    } else if y == top_solid {
        ColumnVoxel::Solid(MAT_GRASS)
    } else if y > top_solid - SOIL_DEPTH {
        ColumnVoxel::Solid(MAT_DIRT)
    } else {
        ColumnVoxel::Solid(MAT_STONE)
    }
}

/// The voxel at height `y` of a column whose topmost solid voxel is at `top_solid`.
pub fn lookup_column_voxel(y: i32, top_solid: i32) -> (voxel: ColumnVoxel)
    ensures
        voxel == column_voxel_spec(y as int, top_solid as int),
{
    if y > top_solid {
        ColumnVoxel::Air
    } else if y == top_solid {
        ColumnVoxel::Solid(MAT_GRASS)
    } else if (y as i64) > (top_solid as i64) - (SOIL_DEPTH as i64) {
        ColumnVoxel::Solid(MAT_DIRT)
    } else {
        ColumnVoxel::Solid(MAT_STONE)
    }
}

/// Texture array layers `[top, sides, bottom]` of a material: grass shows the grass top,
/// grass sides and dirt below; stone shows stone everywhere; every other material shows dirt.
pub open spec fn texture_layers_spec(material: u8) -> Seq<u32> {
    if material == MAT_GRASS {
        seq![LAYER_GRASS_TOP, LAYER_GRASS_SIDE, LAYER_DIRT]
    } else if material == MAT_STONE {
        seq![LAYER_STONE, LAYER_STONE, LAYER_STONE]
    } else {
        seq![LAYER_DIRT, LAYER_DIRT, LAYER_DIRT]
    }
}

/// Texture array layers `[top, sides, bottom]` of a material.
pub fn texture_layers(material: u8) -> (layers: [u32; 3])
    ensures
        layers@ == texture_layers_spec(material),
{
    let layers = if material == MAT_GRASS {
        [LAYER_GRASS_TOP, LAYER_GRASS_SIDE, LAYER_DIRT]
    } else if material == MAT_STONE {
        [LAYER_STONE, LAYER_STONE, LAYER_STONE]
    } else {
        [LAYER_DIRT, LAYER_DIRT, LAYER_DIRT]
    };
    assert(layers@ =~= texture_layers_spec(material));
    layers
}

/// Euclidean quotient of `value` by a positive `divisor` (rounds toward negative infinity).
fn div_floor(value: i32, divisor: i32) -> (q: i32)
    requires
        divisor > 0,
    ensures
        q == value as int / divisor as int,
{
    let d = divisor as u64;
    if value >= 0 {
        let n = value as u64;
        let q = n / d;
        assert(q <= n) by (nonlinear_arith)
            requires
                q == n / d,
                d > 0,
        ;
        q as i32
    } else {
        let n = (-(value as i64) - 1) as u64;
        let q = n / d;
        let r = n % d;
        proof {
            assert(q * d + r == n && 0 <= r < d && q <= n) by (nonlinear_arith)
                requires
                    q == n / d,
                    r == n % d,
                    d > 0,
            ;
            let qi: int = -(q as int) - 1;
            assert(value as int == qi * (d as int) + (d as int - r as int - 1)) by (nonlinear_arith)
                requires
                    q * d + r == n,
                    n == -(value as int) - 1,
                    qi == -(q as int) - 1,
            ;
            vstd::arithmetic::div_mod::lemma_fundamental_div_mod_converse(
                value as int,
                d as int,
                qi,
                d as int - r as int - 1,
            );
        }
        -(q as i64) as i32 - 1
    }
}

/// Coordinates of the chunk of edge `chunk_size` that holds the world voxel `world`.
pub fn chunk_containing(world: Voxel, chunk_size: i32) -> (chunk: Voxel)
    requires
        chunk_size > 0,
    ensures
        chunk.x == world.x as int / chunk_size as int,
        chunk.y == world.y as int / chunk_size as int,
        chunk.z == world.z as int / chunk_size as int,
{
    Voxel {
        x: div_floor(world.x, chunk_size),
        y: div_floor(world.y, chunk_size),
        z: div_floor(world.z, chunk_size),
    }
}

/// A column holds air exactly above its top solid voxel, grass exactly at it, and dirt
/// exactly in the soil layer below it.
pub proof fn lemma_column_layers(y: int, top_solid: int)
    ensures
        (column_voxel_spec(y, top_solid) == ColumnVoxel::Air) <==> y > top_solid,
        (column_voxel_spec(y, top_solid) == ColumnVoxel::Solid(MAT_GRASS)) <==> y == top_solid,
        (column_voxel_spec(y, top_solid) == ColumnVoxel::Solid(MAT_DIRT)) <==> top_solid - SOIL_DEPTH < y < top_solid,
{
}

/// The chunk that [`chunk_containing`] names for a coordinate spans that coordinate:
/// `chunk * size <= v < (chunk + 1) * size`.
pub proof fn lemma_chunk_spans_coordinate(v: int, chunk_size: int)
    requires
        chunk_size > 0,
    ensures
        (v / chunk_size) * chunk_size <= v < (v / chunk_size + 1) * chunk_size,
{
    assert((v / chunk_size) * chunk_size <= v < (v / chunk_size + 1) * chunk_size) by (nonlinear_arith)
        requires
            chunk_size > 0,
    ;
}

} // verus!
