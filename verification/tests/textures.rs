use voxel_world::noise::lattice_hash_2d;
use voxel_world::textures::{
    generate_layer, generate_terrain_array, TerrainLayer, LAYER_BYTES, LAYER_COUNT, LAYER_DIRT,
    LAYER_GRASS_SIDE, LAYER_GRASS_TOP, LAYER_SIZE, LAYER_STONE,
};

const TEX_SEED: u64 = 0x7E22_A1E5;

fn smoothstep(t: f32) -> f32 {
    t * t * (3.0 - 2.0 * t)
}

fn lerp(a: f32, b: f32, t: f32) -> f32 {
    a + (b - a) * t
}

fn lattice(x: i32, z: i32, seed: u64) -> f32 {
    lattice_hash_2d(x, z, seed) as f32 / ((1u64 << 53) as f32)
}

fn value_noise_2d(x: f32, z: f32, seed: u64) -> f32 {
    let x0 = x.floor() as i32;
    let z0 = z.floor() as i32;
    let u = smoothstep(x - x0 as f32);
    let w = smoothstep(z - z0 as f32);
    let nx0 = lerp(lattice(x0, z0, seed), lattice(x0 + 1, z0, seed), u);
    let nx1 = lerp(lattice(x0, z0 + 1, seed), lattice(x0 + 1, z0 + 1, seed), u);
    lerp(nx0, nx1, w)
}

fn lerp_rgb(a: (u8, u8, u8), b: (u8, u8, u8), t: f32) -> (u8, u8, u8) {
    let t = t.clamp(0.0, 1.0);
    (
        (a.0 as f32 + (b.0 as f32 - a.0 as f32) * t) as u8,
        (a.1 as f32 + (b.1 as f32 - a.1 as f32) * t) as u8,
        (a.2 as f32 + (b.2 as f32 - a.2 as f32) * t) as u8,
    )
}

fn dirt(u: f32, v: f32) -> (u8, u8, u8) {
    let n = value_noise_2d(u * 6.0, v * 6.0, TEX_SEED);
    let n2 = value_noise_2d(u * 14.0 + 3.1, v * 14.0, TEX_SEED.wrapping_add(1));
    lerp_rgb((92, 58, 32), (140, 95, 55), 0.65 * n + 0.35 * n2)
}

fn grass_top(u: f32, v: f32) -> (u8, u8, u8) {
    let n = value_noise_2d(u * 8.0, v * 8.0, TEX_SEED.wrapping_add(2));
    let n2 = value_noise_2d(u * 18.0, v * 18.0 + 1.7, TEX_SEED.wrapping_add(3));
    lerp_rgb((34, 92, 28), (72, 140, 48), 0.55 * n + 0.45 * n2)
}

fn grass_side(u: f32, v: f32) -> (u8, u8, u8) {
    let fringe = 0.28;
    if v < fringe {
        let fade = v / fringe;
        lerp_rgb(grass_top(u, v), dirt(u, v), fade * fade)
    } else {
        dirt(u, v)
    }
}

fn stone(u: f32, v: f32) -> (u8, u8, u8) {
    let n = value_noise_2d(u * 5.0, v * 5.0, TEX_SEED.wrapping_add(4));
    let n2 = value_noise_2d(u * 22.0 + 0.5, v * 22.0, TEX_SEED.wrapping_add(5));
    let crack = if n2 < 0.22 { 0.35 } else { 1.0 };
    lerp_rgb((70, 72, 78), (145, 148, 155), n * crack)
}

fn texels(layer: TerrainLayer) -> Vec<(u8, u8, u8)> {
    let w = LAYER_SIZE as usize;
    let mut out = Vec::new();
    for y in 0..w {
        for x in 0..w {
            let u = x as f32 / LAYER_SIZE as f32;
            let v = y as f32 / LAYER_SIZE as f32;
            out.push(match layer {
                TerrainLayer::Dirt => dirt(u, v),
                TerrainLayer::GrassTop => grass_top(u, v),
                TerrainLayer::GrassSide => grass_side(u, v),
                TerrainLayer::Stone => stone(u, v),
            });
        }
    }
    out
}

fn layer_bytes(layer: TerrainLayer) -> Vec<u8> {
    generate_layer(&texels(layer))
}

fn all_layers() -> Vec<Vec<u8>> {
    let mut layers = vec![Vec::new(); LAYER_COUNT as usize];
    for layer in TerrainLayer::all() {
        layers[layer.index() as usize] = layer_bytes(layer);
    }
    layers
}

#[test]
fn layer_byte_len_is_rgba() {
    let layer = layer_bytes(TerrainLayer::Dirt);
    assert_eq!(layer.len(), (LAYER_SIZE * LAYER_SIZE * 4) as usize);
    assert_eq!(layer[3], 255);
}

#[test]
fn array_height_is_stacked_layers() {
    let arr = generate_terrain_array(&all_layers());
    assert_eq!(arr.len(), (LAYER_SIZE * LAYER_SIZE * LAYER_COUNT * 4) as usize);
}

#[test]
fn layers_differ_at_same_pixel() {
    let dirt = layer_bytes(TerrainLayer::Dirt);
    let grass = layer_bytes(TerrainLayer::GrassTop);
    let stone = layer_bytes(TerrainLayer::Stone);
    let i = ((LAYER_SIZE * LAYER_SIZE / 2) * 4) as usize;
    assert_ne!(&dirt[i..i + 3], &grass[i..i + 3]);
    assert_ne!(&dirt[i..i + 3], &stone[i..i + 3]);
}

#[test]
fn layer_index_matches_constants() {
    assert_eq!(TerrainLayer::Dirt.index(), LAYER_DIRT);
    assert_eq!(TerrainLayer::GrassTop.index(), LAYER_GRASS_TOP);
    assert_eq!(TerrainLayer::GrassSide.index(), LAYER_GRASS_SIDE);
    assert_eq!(TerrainLayer::Stone.index(), LAYER_STONE);
    let order: Vec<u32> = TerrainLayer::all().iter().map(|l| l.index()).collect();
    assert_eq!(order, vec![0, 1, 2, 3]);
}

#[test]
fn packing_writes_rgb_then_opaque_alpha() {
    let bytes = generate_layer(&[(1, 2, 3), (250, 0, 7)]);
    assert_eq!(bytes, vec![1, 2, 3, 255, 250, 0, 7, 255]);
    assert!(generate_layer(&[]).is_empty());
}

#[test]
fn stacked_array_places_each_layer_in_its_band() {
    let layers: Vec<Vec<u8>> = (0..4u8).map(|l| vec![l * 10; LAYER_BYTES]).collect();
    let arr = generate_terrain_array(&layers);
    assert_eq!(arr.len(), LAYER_BYTES * 4);
    for l in 0..4usize {
        assert!(arr[l * LAYER_BYTES..(l + 1) * LAYER_BYTES].iter().all(|b| *b == (l as u8) * 10));
    }
}

#[test]
fn stacked_array_copies_real_layers_byte_for_byte() {
    let layers = all_layers();
    let arr = generate_terrain_array(&layers);
    for (l, layer) in layers.iter().enumerate() {
        assert_eq!(&arr[l * LAYER_BYTES..(l + 1) * LAYER_BYTES], layer.as_slice());
    }
}
