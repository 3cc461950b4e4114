//! Integer lattice hashing and seed derivation behind the value-noise fields.
//!
//! Each hash maps lattice coordinates and a seed to 53 random bits; the noise
//! sampler divides them by `2^53` to obtain a lattice value in `[0, 1)`.

use vstd::prelude::*;

verus! {

/// Number of random bits kept from a lattice hash.
pub const LATTICE_BITS: u32 = 53;

/// Avalanche finalizer with three xor-shift/multiply rounds (shifts 33, 33, 33).
pub open spec fn fmix_33(n: u64) -> u64 {
    let a = (n ^ (n >> 33)).wrapping_mul(0xFF51_AFD7_ED55_8CCD);
    let b = (a ^ (a >> 33)).wrapping_mul(0xC4CE_B9FE_1A85_EC53);
    b ^ (b >> 33)
}

/// SplitMix64-style finalizer (shifts 30, 27, 31).
pub open spec fn fmix_splitmix(n: u64) -> u64 {
    let a = (n ^ (n >> 30)).wrapping_mul(0xBF58_476D_1CE4_E5B9);
    let b = (a ^ (a >> 27)).wrapping_mul(0x94D0_49BB_1331_11EB);
    b ^ (b >> 31)
}

/// The 53-bit lattice hash of the 2D moisture / terrain field.
pub open spec fn lattice_hash_2d_spec(x: i32, z: i32, seed: u64) -> u64 {
    let n = seed.wrapping_mul(0xC2B2_AE3D_27D4_EB4F).wrapping_add(x as u64).wrapping_mul(
        0x1656_67B1_9E37_79F9,
    ).wrapping_add(z as u64);
    fmix_33(n) >> 11
}

/// The 53-bit lattice hash of the 3D rock field.
pub open spec fn lattice_hash_3d_spec(x: i32, y: i32, z: i32, seed: u64) -> u64 {
    let n = seed.wrapping_mul(0x9E37_79B9_7F4A_7C15).wrapping_add(x as u64).wrapping_mul(
        0xBF58_476D_1CE4_E5B9,
    ).wrapping_add(y as u64).wrapping_mul(0x94D0_49BB_1331_11EB).wrapping_add(z as u64);
    fmix_splitmix(n) >> 11
}

/// Seed of the moisture layer derived from the world seed.
pub open spec fn moisture_seed_spec(world_seed: u64) -> u64 {
    world_seed.wrapping_mul(0xD6E8_FEB8_6659_FD93).wrapping_add(0xA076_1D64_78BD_642F)
}

/// Per-feature seed from the world seed, a feature kind and milli-unit XZ coordinates.
pub open spec fn feature_seed_spec(world_seed: u64, kind: u64, qx: i32, qz: i32) -> u64 {
    let a = world_seed.wrapping_mul(0x9E37_79B9_7F4A_7C15).wrapping_add(kind);
    let b = a.wrapping_mul(0xBF58_476D_1CE4_E5B9).wrapping_add(qx as u64);
    let c = b.wrapping_mul(0x94D0_49BB_1331_11EB).wrapping_add(qz as u64);
    fmix_splitmix(c)
}

fn fmix_33_exec(n: u64) -> (r: u64)
    ensures
        r == fmix_33(n),
{
    let a = (n ^ (n >> 33)).wrapping_mul(0xFF51_AFD7_ED55_8CCD);
    let b = (a ^ (a >> 33)).wrapping_mul(0xC4CE_B9FE_1A85_EC53);
    b ^ (b >> 33)
}

fn fmix_splitmix_exec(n: u64) -> (r: u64)
    ensures
        r == fmix_splitmix(n),
{
    let a = (n ^ (n >> 30)).wrapping_mul(0xBF58_476D_1CE4_E5B9);
    let b = (a ^ (a >> 27)).wrapping_mul(0x94D0_49BB_1331_11EB);
    b ^ (b >> 31)
}

proof fn lemma_shift_11_bound(n: u64)
    ensures
        n >> 11 < 0x20_0000_0000_0000,
{
    assert(n >> 11u64 < 0x20_0000_0000_0000u64) by (bit_vector);
}

/// Random bits of the lattice point `(x, z)` in the 2D field of `seed`.
pub fn lattice_hash_2d(x: i32, z: i32, seed: u64) -> (bits: u64)
    ensures
        bits == lattice_hash_2d_spec(x, z, seed),
        bits < 0x20_0000_0000_0000,
{
    let n = seed.wrapping_mul(0xC2B2_AE3D_27D4_EB4F).wrapping_add(x as u64).wrapping_mul(
        0x1656_67B1_9E37_79F9,
    ).wrapping_add(z as u64);
    let mixed = fmix_33_exec(n);
    proof {
        lemma_shift_11_bound(mixed);
    }
    mixed >> 11
}

/// Random bits of the lattice point `(x, y, z)` in the 3D field of `seed`.
pub fn lattice_hash_3d(x: i32, y: i32, z: i32, seed: u64) -> (bits: u64)
    ensures
        bits == lattice_hash_3d_spec(x, y, z, seed),
        bits < 0x20_0000_0000_0000,
{
    let n = seed.wrapping_mul(0x9E37_79B9_7F4A_7C15).wrapping_add(x as u64).wrapping_mul(
        0xBF58_476D_1CE4_E5B9,
    ).wrapping_add(y as u64).wrapping_mul(0x94D0_49BB_1331_11EB).wrapping_add(z as u64);
    let mixed = fmix_splitmix_exec(n);
    proof {
        lemma_shift_11_bound(mixed);
    }
    mixed >> 11
}

/// Derive a dedicated seed for the moisture layer so it is not identical
/// to a height-noise field that might use the same world seed.
pub fn moisture_seed(world_seed: u64) -> (seed: u64)
    ensures
        seed == moisture_seed_spec(world_seed),
{
    world_seed.wrapping_mul(0xD6E8_FEB8_6659_FD93).wrapping_add(0xA076_1D64_78BD_642F)
}

/// Deterministic per-feature seed from world seed, feature kind and the XZ position
/// quantized to milli-units (`qx = round(x * 1000)`, `qz = round(z * 1000)`).
pub fn feature_seed(world_seed: u64, kind: u64, qx: i32, qz: i32) -> (seed: u64)
    ensures
        seed == feature_seed_spec(world_seed, kind, qx, qz),
{
    let a = world_seed.wrapping_mul(0x9E37_79B9_7F4A_7C15).wrapping_add(kind);
    let b = a.wrapping_mul(0xBF58_476D_1CE4_E5B9).wrapping_add(qx as u64);
    let c = b.wrapping_mul(0x94D0_49BB_1331_11EB).wrapping_add(qz as u64);
    fmix_splitmix_exec(c)
}

} // verus!
