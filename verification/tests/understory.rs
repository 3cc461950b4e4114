use rand::rngs::StdRng;
use rand::{Rng, SeedableRng};

use voxel_world::order::Voxel;
use voxel_world::understory::{bush_cluster_voxels, fallen_log_moss_voxels, fallen_log_sections};

fn fallen_log_voxels(seed: u64) -> Vec<Voxel> {
    let mut rng = StdRng::seed_from_u64(seed);
    let angle: f32 = rng.gen_range(0.0..std::f32::consts::TAU);
    let (dx, dz) = (angle.cos(), angle.sin());
    let start_offset: f32 = rng.gen_range(3.0..5.0);
    let steps: i32 = rng.gen_range(5..=8);
    let (sx, sz) = (dx * start_offset, dz * start_offset);
    let mut centers = Vec::new();
    for i in 0..=steps {
        let t = i as f32 / steps as f32;
        let along = t * steps as f32;
        centers.push(((sx + dx * along).round() as i32, (sz + dz * along).round() as i32));
    }
    fallen_log_sections(&centers)
}

#[test]
fn bush_cluster_is_non_empty_and_deterministic() {
    let a = bush_cluster_voxels(77);
    let b = bush_cluster_voxels(77);
    assert_eq!(a, b);
    assert!(!a.is_empty());
    assert!(a.iter().all(|p| p.y >= 0 && p.y <= 2));
}

#[test]
fn bush_cluster_stays_inside_its_radius() {
    for seed in 0..50 {
        for p in bush_cluster_voxels(seed) {
            assert!(p.x.abs() <= 2 && p.z.abs() <= 2, "seed {seed}: {p:?}");
            assert!(p.x * p.x + p.z * p.z <= 4);
        }
    }
}

#[test]
fn fallen_log_is_non_empty_and_deterministic() {
    let a = fallen_log_voxels(99);
    let b = fallen_log_voxels(99);
    assert_eq!(a, b);
    assert!(a.len() >= 10);
    assert!(a.iter().all(|p| p.y == 0 || p.y == 1));
}

#[test]
fn fallen_log_moss_is_deterministic_and_above_log() {
    let log = fallen_log_voxels(99);
    let a = fallen_log_moss_voxels(99, &log);
    let b = fallen_log_moss_voxels(99, &log);
    assert_eq!(a, b);
    assert!(!a.is_empty());
    assert!(a.iter().all(|p| p.y >= 2));
    for m in &a {
        assert!(
            log.iter().any(|l| l.x == m.x && l.z == m.z && l.y == m.y - 1),
            "moss {m:?} must sit on a log cell"
        );
    }
}

#[test]
fn log_section_is_a_two_high_plus_shape() {
    let voxels = fallen_log_sections(&[(5, -3)]);
    assert_eq!(
        voxels,
        vec![
            Voxel::new(4, 0, -3),
            Voxel::new(4, 1, -3),
            Voxel::new(5, 0, -4),
            Voxel::new(5, 0, -3),
            Voxel::new(5, 1, -4),
            Voxel::new(5, 1, -3),
        ]
    );
}

#[test]
fn overlapping_sections_are_deduplicated_and_sorted() {
    let voxels = fallen_log_sections(&[(0, 0), (1, 0), (0, 0)]);
    for w in voxels.windows(2) {
        assert!((w[0].x, w[0].y, w[0].z) < (w[1].x, w[1].y, w[1].z));
    }
    assert_eq!(voxels.len(), 10);
    assert!(fallen_log_sections(&[]).is_empty());
}

#[test]
fn moss_needs_an_upper_log_cell() {
    let ground_only = vec![Voxel::new(0, 0, 0), Voxel::new(1, 0, 0)];
    assert!(fallen_log_moss_voxels(5, &ground_only).is_empty());
}
