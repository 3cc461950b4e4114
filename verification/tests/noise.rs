use voxel_world::noise::{feature_seed, lattice_hash_2d, lattice_hash_3d, moisture_seed};

#[test]
fn lattice_hash_2d_exact_values() {
    assert_eq!(lattice_hash_2d(0, 0, 0), 0);
    assert_eq!(lattice_hash_2d(3, -1, 9), 3010970801042447);
    assert_eq!(lattice_hash_2d(-5, 7, 42), 1972399764125017);
}

#[test]
fn lattice_hash_3d_exact_values() {
    assert_eq!(lattice_hash_3d(0, 0, 0, 0), 0);
    assert_eq!(lattice_hash_3d(1, 2, 3, 7), 660478852478054);
    assert_eq!(lattice_hash_3d(-4, 0, 9, 99), 810753119344697);
}

#[test]
fn lattice_values_fit_in_53_bits() {
    for x in -20..20 {
        for z in -20..20 {
            assert!(lattice_hash_2d(x, z, 5) < (1u64 << 53));
            assert!(lattice_hash_3d(x, z, x ^ z, 5) < (1u64 << 53));
        }
    }
}

#[test]
fn lattice_hashes_are_deterministic() {
    assert_eq!(lattice_hash_2d(3, -2, 9), lattice_hash_2d(3, -2, 9));
    assert_eq!(lattice_hash_3d(3, -2, 1, 9), lattice_hash_3d(3, -2, 1, 9));
}

#[test]
fn moisture_seed_exact_values() {
    assert_eq!(moisture_seed(0), 11562461410679940143);
    assert_eq!(moisture_seed(42), 16334529070484225613);
    assert_ne!(moisture_seed(42), 42);
}

#[test]
fn feature_seed_depends_on_kind() {
    assert_ne!(feature_seed(1, 2, 0, 0), feature_seed(1, 3, 0, 0));
}
