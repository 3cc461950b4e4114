//! Packing of procedural block textures for the stacked terrain array texture.
//!
//! Output is raw RGBA8 pixels. Layers are stacked top-to-bottom into a single image
//! of size `LAYER_SIZE × (LAYER_SIZE * LAYER_COUNT)`. The colour of each texel comes
//! from the noise-based sampler of the game crate; this module owns the layout.

use vstd::prelude::*;

verus! {

/// Pixels per layer edge.
pub const LAYER_SIZE: u32 = 32;
/// Number of stacked layers in the terrain array.
pub const LAYER_COUNT: u32 = 4;

pub const LAYER_DIRT: u32 = 0;
pub const LAYER_GRASS_TOP: u32 = 1;
pub const LAYER_GRASS_SIDE: u32 = 2;
pub const LAYER_STONE: u32 = 3;

/// Bytes of one packed layer (`LAYER_SIZE * LAYER_SIZE` RGBA8 texels).
pub const LAYER_BYTES: usize = 4096;

/// An opaque texel colour `(r, g, b)`.
pub type Rgb = (u8, u8, u8);

#[derive(Clone, Copy, Debug, PartialEq, Eq)]
pub enum TerrainLayer {
    Dirt,
    GrassTop,
    GrassSide,
    Stone,
}

/// Array slot of each layer.
pub open spec fn layer_index(layer: TerrainLayer) -> u32 {
    match layer {
        TerrainLayer::Dirt => LAYER_DIRT,
        TerrainLayer::GrassTop => LAYER_GRASS_TOP,
        TerrainLayer::GrassSide => LAYER_GRASS_SIDE,
        TerrainLayer::Stone => LAYER_STONE,
    }
}

impl TerrainLayer {
    /// All layers, in array order.
    pub fn all() -> (layers: [TerrainLayer; 4])
        ensures
            forall|i: int| 0 <= i < 4 ==> layer_index(#[trigger] layers@[i]) == i,
    {
        [TerrainLayer::Dirt, TerrainLayer::GrassTop, TerrainLayer::GrassSide, TerrainLayer::Stone]
    }

    pub fn index(self) -> (slot: u32)
        ensures
            slot == layer_index(self),
            slot < LAYER_COUNT,
    {
        match self {
            TerrainLayer::Dirt => LAYER_DIRT,
            TerrainLayer::GrassTop => LAYER_GRASS_TOP,
            TerrainLayer::GrassSide => LAYER_GRASS_SIDE,
            TerrainLayer::Stone => LAYER_STONE,
        }
    }
}

/// RGBA8 bytes of texels given in row-major order: texel `i` occupies bytes
/// `4i .. 4i + 4` as `(r, g, b, 255)`.
pub open spec fn packed_rgba(texels: Seq<Rgb>, bytes: Seq<u8>) -> bool {
    &&& bytes.len() == 4 * texels.len()
    &&& forall|i: int|
        #![trigger texels[i]]
        0 <= i < texels.len() ==> {
            &&& bytes[4 * i] == texels[i].0
            &&& bytes[4 * i + 1] == texels[i].1
            &&& bytes[4 * i + 2] == texels[i].2
            &&& bytes[4 * i + 3] == 255
        }
}

/// One layer as tightly packed RGBA8 (`4` bytes per texel, alpha always opaque).
pub fn generate_layer(texels: &[Rgb]) -> (pixels: Vec<u8>)
    requires
        texels@.len() * 4 <= usize::MAX,
    ensures
        packed_rgba(texels@, pixels@),
{
    let mut pixels: Vec<u8> = Vec::new();
    let n = texels.len();
    for i in 0..n
        invariant
            n == texels@.len(),
            pixels@.len() == 4 * i,
            forall|j: int|
                #![trigger texels@[j]]
                0 <= j < i ==> {
                    &&& pixels@[4 * j] == texels@[j].0
                    &&& pixels@[4 * j + 1] == texels@[j].1
                    &&& pixels@[4 * j + 2] == texels@[j].2
                    &&& pixels@[4 * j + 3] == 255
                },
    {
        let (r, g, b) = texels[i];
        pixels.push(r);
        pixels.push(g);
        pixels.push(b);
        pixels.push(255);
    }
    pixels
}

/// Stack all terrain layers into one vertical strip: width `LAYER_SIZE`, height
/// `LAYER_SIZE * LAYER_COUNT`. `layers[l]` is the packed layer whose
/// [`TerrainLayer::index`] is `l`; it lands at rows `l * LAYER_SIZE ..`.
pub fn generate_terrain_array(layers: &[Vec<u8>]) -> (out: Vec<u8>)
    requires
        layers@.len() == LAYER_COUNT,
        forall|l: int| 0 <= l < LAYER_COUNT ==> (#[trigger] layers@[l])@.len() == LAYER_BYTES,
    ensures
        out@.len() == LAYER_BYTES * LAYER_COUNT,
        forall|l: int, p: int|
            0 <= l < LAYER_COUNT && 0 <= p < LAYER_BYTES ==> out@[l * LAYER_BYTES + p]
                == #[trigger] layers@[l]@[p],
{
    let mut out: Vec<u8> = Vec::new();
    for l in 0..4usize
        invariant
            layers@.len() == LAYER_COUNT,
            forall|k: int| 0 <= k < LAYER_COUNT ==> (#[trigger] layers@[k])@.len() == LAYER_BYTES,
            out@.len() == l * LAYER_BYTES,
            forall|k: int, p: int|
                0 <= k < l && 0 <= p < LAYER_BYTES ==> out@[k * LAYER_BYTES + p]
                    == #[trigger] layers@[k]@[p],
    {
        let layer = &layers[l];
        for p in 0..LAYER_BYTES
            invariant
                l < LAYER_COUNT,
                layer@.len() == LAYER_BYTES,
                *layer == layers@[l as int],
                out@.len() == l * LAYER_BYTES + p,
                forall|k: int, q: int|
                    0 <= k < l && 0 <= q < LAYER_BYTES ==> out@[k * LAYER_BYTES + q]
                        == #[trigger] layers@[k]@[q],
                forall|q: int| 0 <= q < p ==> out@[l * LAYER_BYTES + q] == #[trigger] layer@[q],
        {
            out.push(layer[p]);
        }
        assert forall|k: int, q: int|
            0 <= k < l + 1 && 0 <= q < LAYER_BYTES implies out@[k * LAYER_BYTES + q]
                == #[trigger] layers@[k]@[q] by {
            if k == l {
                assert(out@[l * LAYER_BYTES + q] == layer@[q]);
            }
        }
    }
    out
}

} // verus!
