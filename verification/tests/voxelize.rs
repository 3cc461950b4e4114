use std::collections::HashSet;

use voxel_world::order::Voxel;
use voxel_world::voxelize::{
    add_leaves, leaf_cluster_radius, max_segment_depth, min_leaf_depth, voxelize, voxelize_with_shape,
    BlockType, CrossSectionShape, GridSegment, LeafPlacement,
};

fn to_voxel(p: (f32, f32, f32)) -> Voxel {
    Voxel::new(p.0.round() as i32, p.1.round() as i32, p.2.round() as i32)
}

fn voxel_radius(thickness: f32) -> i32 {
    if thickness <= 1.0 {
        0
    } else {
        (thickness / 2.0).ceil() as i32
    }
}

fn walk_line(start: Voxel, end: Voxel) -> Vec<Voxel> {
    let (dx, dy, dz) = (end.x - start.x, end.y - start.y, end.z - start.z);
    let steps = dx.abs().max(dy.abs()).max(dz.abs());
    if steps == 0 {
        return vec![start];
    }
    let mut points: Vec<Voxel> = Vec::new();
    for step in 0..=steps {
        let t = step as f32 / steps as f32;
        let point = Voxel::new(
            (start.x as f32 + dx as f32 * t).round() as i32,
            (start.y as f32 + dy as f32 * t).round() as i32,
            (start.z as f32 + dz as f32 * t).round() as i32,
        );
        if points.last() != Some(&point) {
            points.push(point);
        }
    }
    points
}

fn segment_with_depth(start: (f32, f32, f32), end: (f32, f32, f32), thickness: f32, depth: u32) -> GridSegment {
    let s = to_voxel(start);
    let e = to_voxel(end);
    GridSegment { start: s, end: e, radius: voxel_radius(thickness), depth, path: walk_line(s, e) }
}

fn segment(start: (f32, f32, f32), end: (f32, f32, f32), thickness: f32) -> GridSegment {
    segment_with_depth(start, end, thickness, 0)
}

fn wood_at(positions: &[(i32, i32, i32)]) -> Vec<(Voxel, BlockType)> {
    let mut voxels: Vec<_> = positions.iter().map(|&(x, y, z)| (Voxel::new(x, y, z), BlockType::Wood)).collect();
    voxels.sort_by_key(|(p, _)| (p.x, p.y, p.z));
    voxels
}

fn fill_sphere(center: Voxel, radius: i32, out: &mut HashSet<Voxel>) {
    for dx in -radius..=radius {
        for dy in -radius..=radius {
            for dz in -radius..=radius {
                if dx * dx + dy * dy + dz * dz <= radius * radius {
                    out.insert(Voxel::new(center.x + dx, center.y + dy, center.z + dz));
                }
            }
        }
    }
}

fn fill_cube(center: Voxel, radius: i32, delta: (i32, i32, i32), out: &mut HashSet<Voxel>) {
    let (ax, ay, az) = (delta.0.abs(), delta.1.abs(), delta.2.abs());
    for a in -radius..=radius {
        for b in -radius..=radius {
            let offset = if ay >= ax && ay >= az {
                (a, 0, b)
            } else if ax >= az {
                (0, a, b)
            } else {
                (a, b, 0)
            };
            out.insert(Voxel::new(center.x + offset.0, center.y + offset.1, center.z + offset.2));
        }
    }
}

fn expected_voxels_for_segment(start: Voxel, end: Voxel, thickness: f32, shape: CrossSectionShape) -> HashSet<Voxel> {
    let radius = voxel_radius(thickness);
    let delta = (end.x - start.x, end.y - start.y, end.z - start.z);
    let mut voxels = HashSet::new();
    for center in walk_line(start, end) {
        match shape {
            CrossSectionShape::Sphere => fill_sphere(center, radius, &mut voxels),
            CrossSectionShape::Cube => fill_cube(center, radius, delta, &mut voxels),
        }
    }
    voxels
}

fn voxel_positions(voxels: &[(Voxel, BlockType)]) -> HashSet<Voxel> {
    voxels.iter().map(|(p, _)| *p).collect()
}

fn leaf_count(voxels: &[(Voxel, BlockType)]) -> usize {
    voxels.iter().filter(|(_, b)| *b == BlockType::Leaf).count()
}

fn sphere_voxel_count(radius: i32) -> usize {
    let mut set = HashSet::new();
    fill_sphere(Voxel::new(0, 0, 0), radius, &mut set);
    set.len()
}

fn has(voxels: &[(Voxel, BlockType)], p: (i32, i32, i32), b: BlockType) -> bool {
    voxels.iter().any(|(q, k)| *q == Voxel::new(p.0, p.1, p.2) && *k == b)
}

#[test]
fn leaf_cluster_radius_scales_with_branch_thickness() {
    assert_eq!(leaf_cluster_radius(voxel_radius(1.0)), 3, "thin tip: branch r=0 + extension 3");
    assert_eq!(leaf_cluster_radius(voxel_radius(2.0)), 4, "thickness 2 -> branch r=1 + extension 3");
    assert_eq!(leaf_cluster_radius(voxel_radius(4.0)), 5, "thickness 4 -> branch r=2 + extension 3");
}

#[test]
fn voxelize_default_shape_is_cube() {
    assert_eq!(CrossSectionShape::default(), CrossSectionShape::Cube);
    let segments = vec![segment((0.0, 0.0, 0.0), (0.0, 4.0, 0.0), 4.0)];
    assert_eq!(voxelize(&segments), voxelize_with_shape(&segments, CrossSectionShape::Cube));
}

#[test]
fn leaves_only_on_outermost_branch_depth_levels() {
    let segments = vec![
        segment_with_depth((0.0, 0.0, 0.0), (0.0, 2.0, 0.0), 2.0, 0),
        segment_with_depth((0.0, 2.0, 0.0), (0.0, 10.0, 0.0), 1.0, 1),
        segment_with_depth((0.0, 2.0, 0.0), (6.0, 5.0, 0.0), 1.0, 2),
        segment_with_depth((0.0, 2.0, 0.0), (-6.0, 5.0, 0.0), 1.0, 3),
    ];
    let wood = voxelize(&segments);
    let voxels = add_leaves(&wood, &segments, LeafPlacement { crown_levels: 2 });

    let leaves_near_tip = |tip: Voxel, thickness: f32| {
        let radius = leaf_cluster_radius(voxel_radius(thickness));
        voxels.iter().any(|(p, b)| {
            if *b != BlockType::Leaf {
                return false;
            }
            let (dx, dy, dz) = (p.x - tip.x, p.y - tip.y, p.z - tip.z);
            dx * dx + dy * dy + dz * dz <= radius * radius
        })
    };

    assert_eq!(max_segment_depth(&segments), 3);
    assert_eq!(min_leaf_depth(&segments, LeafPlacement { crown_levels: 2 }), 2);
    assert!(leaves_near_tip(Voxel::new(6, 5, 0), 1.0), "depth-2 tip should receive a leaf cluster");
    assert!(leaves_near_tip(Voxel::new(-6, 5, 0), 1.0), "depth-3 tip should receive a leaf cluster");
    assert!(
        !leaves_near_tip(Voxel::new(0, 10, 0), 1.0),
        "depth-1 tip must stay leafless when crown_levels=2 on this tree"
    );
}

#[test]
fn min_leaf_depth_is_relative_to_each_tree() {
    let shallow = vec![segment_with_depth((0.0, 0.0, 0.0), (0.0, 1.0, 0.0), 1.0, 0)];
    let deep = vec![
        segment_with_depth((0.0, 0.0, 0.0), (0.0, 1.0, 0.0), 1.0, 0),
        segment_with_depth((0.0, 1.0, 0.0), (0.0, 2.0, 0.0), 1.0, 4),
    ];
    assert_eq!(min_leaf_depth(&shallow, LeafPlacement { crown_levels: 2 }), 0);
    assert_eq!(min_leaf_depth(&deep, LeafPlacement { crown_levels: 2 }), 3);
}

#[test]
fn thick_branch_tip_produces_mostly_visible_leaf_shell() {
    let segments = vec![segment((0.0, 0.0, 0.0), (0.0, 2.0, 0.0), 4.0)];
    let wood = voxelize_with_shape(&segments, CrossSectionShape::Cube);
    let wood_positions = voxel_positions(&wood);
    let voxels = add_leaves(&wood, &segments, LeafPlacement::all());
    let leaf_positions: Vec<_> = voxels.iter().filter(|(_, b)| *b == BlockType::Leaf).map(|(p, _)| *p).collect();
    assert!(!leaf_positions.is_empty(), "thick branch tip should produce leaf voxels");
    let visible_leaves = leaf_positions.iter().filter(|p| !wood_positions.contains(p)).count();
    assert!(visible_leaves * 2 > leaf_positions.len());
    assert!(visible_leaves >= 80, "thick branch should form a substantial leaf shell, not 1-2 voxels");
    assert_eq!(leaf_cluster_radius(voxel_radius(4.0)), 5, "thickness 4 -> branch r=2, leaf r=5");
}

#[test]
fn neighboring_tip_clusters_overlap_and_deduplicate() {
    let segments = vec![
        segment_with_depth((0.0, 0.0, 0.0), (0.0, 2.0, 0.0), 1.0, 0),
        segment_with_depth((0.0, 2.0, 0.0), (2.0, 4.0, 0.0), 1.0, 2),
        segment_with_depth((0.0, 2.0, 0.0), (-2.0, 4.0, 0.0), 1.0, 2),
    ];
    let wood = voxelize(&segments);
    let merged = add_leaves(&wood, &segments, LeafPlacement::all());
    let single_left = add_leaves(
        &wood,
        &[segment_with_depth((0.0, 2.0, 0.0), (-2.0, 4.0, 0.0), 1.0, 2)],
        LeafPlacement::all(),
    );
    assert_eq!(leaf_cluster_radius(voxel_radius(1.0)), 3);
    assert!(has(&merged, (0, 4, 0), BlockType::Leaf), "overlapping clusters should fill the crown gap");
    assert!(leaf_count(&merged) < leaf_count(&single_left) * 2, "shared overlap region must deduplicate");
    assert!(leaf_count(&merged) > leaf_count(&single_left), "merged crown should be larger than a single tip cluster");
}

#[test]
fn single_branch_tip_gets_leaf_cluster_around_end() {
    let segments = vec![segment((0.0, 0.0, 0.0), (0.0, 2.0, 0.0), 1.0)];
    let wood = voxelize(&segments);
    let voxels = add_leaves(&wood, &segments, LeafPlacement::all());
    assert!(has(&voxels, (0, 3, 0), BlockType::Leaf));
    assert!(has(&voxels, (1, 2, 0), BlockType::Leaf));
    assert_eq!(voxels.iter().filter(|(_, b)| *b == BlockType::Wood).count(), 3);
}

#[test]
fn junction_is_not_treated_as_branch_tip() {
    let segments = vec![
        segment((0.0, 0.0, 0.0), (0.0, 1.0, 0.0), 1.0),
        segment((0.0, 1.0, 0.0), (0.0, 2.0, 0.0), 1.0),
    ];
    let wood = voxelize(&segments);
    let voxels = add_leaves(&wood, &segments, LeafPlacement::all());
    assert!(!has(&voxels, (0, 1, 0), BlockType::Leaf), "junction at y=1 must not receive leaves");
    assert!(has(&voxels, (0, 3, 0), BlockType::Leaf));
}

#[test]
fn wood_takes_priority_when_leaf_cluster_overlaps_existing_wood() {
    let segments = vec![segment((0.0, 0.0, 0.0), (0.0, 1.0, 0.0), 1.0)];
    let wood = voxelize(&segments);
    let voxels = add_leaves(&wood, &segments, LeafPlacement::all());
    let tip_entry = voxels.iter().find(|(p, _)| *p == Voxel::new(0, 1, 0)).expect("tip voxel should exist");
    assert_eq!(tip_entry.1, BlockType::Wood);
    assert_eq!(voxels.iter().filter(|(p, _)| *p == Voxel::new(0, 1, 0)).count(), 1);
}

#[test]
fn add_leaves_without_wood_places_cluster_at_tip() {
    let segments = vec![segment((0.0, 0.0, 0.0), (0.0, 1.0, 0.0), 1.0)];
    let voxels = add_leaves(&[], &segments, LeafPlacement::all());
    let radius = leaf_cluster_radius(voxel_radius(1.0));
    assert_eq!(radius, 3);
    assert_eq!(leaf_count(&voxels), sphere_voxel_count(radius));
    assert!(has(&voxels, (0, 4, 0), BlockType::Leaf));
    assert!(has(&voxels, (3, 1, 0), BlockType::Leaf));
}

#[test]
fn thick_axis_aligned_segment_applies_sphere_at_every_waypoint() {
    let segments = vec![segment((0.0, 0.0, 0.0), (0.0, 4.0, 0.0), 4.0)];
    let voxels = voxelize_with_shape(&segments, CrossSectionShape::Sphere);
    let actual = voxel_positions(&voxels);
    let start = Voxel::new(0, 0, 0);
    let end = Voxel::new(0, 4, 0);
    let expected = expected_voxels_for_segment(start, end, 4.0, CrossSectionShape::Sphere);
    assert_eq!(voxel_radius(4.0), 2, "thickness 4.0 -> radius 2");
    assert_eq!(actual, expected, "voxelize must match per-waypoint sphere union");
    assert!(actual.len() > walk_line(start, end).len());
    for &center_y in &[0, 2, 4] {
        for x in -2..=2 {
            for z in -2..=2 {
                if x * x + z * z <= 4 {
                    assert!(actual.contains(&Voxel::new(x, center_y, z)));
                }
            }
        }
    }
}

#[test]
fn thick_axis_aligned_segment_applies_cube_at_every_waypoint() {
    let segments = vec![segment((0.0, 0.0, 0.0), (0.0, 4.0, 0.0), 4.0)];
    let voxels = voxelize_with_shape(&segments, CrossSectionShape::Cube);
    let actual = voxel_positions(&voxels);
    let expected =
        expected_voxels_for_segment(Voxel::new(0, 0, 0), Voxel::new(0, 4, 0), 4.0, CrossSectionShape::Cube);
    assert_eq!(actual, expected, "voxelize must match per-waypoint cube union");
    assert_eq!(actual.len(), 125, "five 5x5 cross-section slices");
    for &center_y in &[0, 2, 4] {
        for x in -2..=2 {
            for z in -2..=2 {
                assert!(actual.contains(&Voxel::new(x, center_y, z)));
            }
        }
    }
}

#[test]
fn axis_aligned_segment_with_unit_thickness_produces_centerline_voxels() {
    let segments = vec![segment((0.0, 0.0, 0.0), (0.0, 3.0, 0.0), 1.0)];
    assert_eq!(
        voxelize_with_shape(&segments, CrossSectionShape::Sphere),
        wood_at(&[(0, 0, 0), (0, 1, 0), (0, 2, 0), (0, 3, 0)])
    );
    assert_eq!(
        voxelize_with_shape(&segments, CrossSectionShape::Cube),
        wood_at(&[(0, 0, 0), (0, 1, 0), (0, 2, 0), (0, 3, 0)])
    );
}

#[test]
fn meeting_segments_do_not_duplicate_shared_voxel() {
    let segments = vec![
        segment((0.0, 0.0, 0.0), (0.0, 1.0, 0.0), 1.0),
        segment((0.0, 1.0, 0.0), (0.0, 2.0, 0.0), 1.0),
    ];
    for shape in [CrossSectionShape::Sphere, CrossSectionShape::Cube] {
        let voxels = voxelize_with_shape(&segments, shape);
        assert_eq!(voxels.len(), 3, "{shape:?}");
        assert_eq!(voxels, wood_at(&[(0, 0, 0), (0, 1, 0), (0, 2, 0)]), "{shape:?}");
    }
}

#[test]
fn zero_length_segment_produces_single_voxel() {
    let segments = vec![segment((2.0, 4.0, 6.0), (2.0, 4.0, 6.0), 1.0)];
    for shape in [CrossSectionShape::Sphere, CrossSectionShape::Cube] {
        assert_eq!(voxelize_with_shape(&segments, shape), wood_at(&[(2, 4, 6)]), "{shape:?}");
    }
}

#[test]
fn zero_length_segment_with_thickness_fills_spherical_cross_section() {
    let segments = vec![segment((0.0, 0.0, 0.0), (0.0, 0.0, 0.0), 2.0)];
    assert_eq!(
        voxelize_with_shape(&segments, CrossSectionShape::Sphere),
        wood_at(&[(0, 0, 0), (1, 0, 0), (-1, 0, 0), (0, 1, 0), (0, -1, 0), (0, 0, 1), (0, 0, -1)])
    );
}

#[test]
fn zero_length_segment_with_thickness_fills_cube_cross_section() {
    let segments = vec![segment((0.0, 0.0, 0.0), (0.0, 0.0, 0.0), 2.0)];
    let mut expected = Vec::new();
    for x in -1..=1 {
        for z in -1..=1 {
            expected.push((x, 0, z));
        }
    }
    assert_eq!(voxelize_with_shape(&segments, CrossSectionShape::Cube), wood_at(&expected));
}

#[test]
fn empty_segment_list_produces_no_voxels() {
    assert!(voxelize_with_shape(&[], CrossSectionShape::Sphere).is_empty());
    assert!(voxelize_with_shape(&[], CrossSectionShape::Cube).is_empty());
}

#[test]
fn diagonal_segment_walks_through_expected_voxels() {
    let segments = vec![segment((0.0, 0.0, 0.0), (2.0, 2.0, 0.0), 1.0)];
    for shape in [CrossSectionShape::Sphere, CrossSectionShape::Cube] {
        assert_eq!(voxelize_with_shape(&segments, shape), wood_at(&[(0, 0, 0), (1, 1, 0), (2, 2, 0)]), "{shape:?}");
    }
}

#[test]
fn output_is_sorted_and_unique_positions() {
    let segments = vec![
        segment((0.0, 0.0, 0.0), (3.0, 5.0, 1.0), 3.0),
        segment((3.0, 5.0, 1.0), (-2.0, 8.0, 0.0), 2.0),
    ];
    for shape in [CrossSectionShape::Sphere, CrossSectionShape::Cube] {
        let voxels = voxelize_with_shape(&segments, shape);
        for w in voxels.windows(2) {
            assert!((w[0].0.x, w[0].0.y, w[0].0.z) < (w[1].0.x, w[1].0.y, w[1].0.z));
        }
        let leafy = add_leaves(&voxels, &segments, LeafPlacement::default());
        for w in leafy.windows(2) {
            assert!((w[0].0.x, w[0].0.y, w[0].0.z) < (w[1].0.x, w[1].0.y, w[1].0.z));
        }
    }
}

#[test]
fn leaf_placement_defaults() {
    assert_eq!(LeafPlacement::default().crown_levels, 2);
    assert_eq!(LeafPlacement::all().crown_levels, u32::MAX);
}
