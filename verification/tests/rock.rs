use voxel_world::order::Voxel;
use voxel_world::rock::{keep_largest_component, BlockType};

fn stones(points: &[(i32, i32, i32)]) -> Vec<(Voxel, BlockType)> {
    points.iter().map(|&(x, y, z)| (Voxel::new(x, y, z), BlockType::Stone)).collect()
}

fn is_connected(voxels: &[(Voxel, BlockType)]) -> bool {
    if voxels.is_empty() {
        return true;
    }
    let cells: Vec<Voxel> = voxels.iter().map(|(p, _)| *p).collect();
    let mut seen = vec![false; cells.len()];
    let mut stack = vec![0usize];
    seen[0] = true;
    while let Some(i) = stack.pop() {
        for j in 0..cells.len() {
            let (a, b) = (cells[i], cells[j]);
            let d = (a.x - b.x).abs() + (a.y - b.y).abs() + (a.z - b.z).abs();
            if !seen[j] && d == 1 {
                seen[j] = true;
                stack.push(j);
            }
        }
    }
    seen.iter().all(|s| *s)
}

#[test]
fn empty_and_single_inputs_are_unchanged() {
    assert!(keep_largest_component(Vec::new()).is_empty());
    let one = stones(&[(4, -2, 9)]);
    assert_eq!(keep_largest_component(one.clone()), one);
}

#[test]
fn island_is_discarded() {
    let input = stones(&[(0, 0, 0), (5, 5, 5), (1, 0, 0), (1, 1, 0)]);
    let kept = keep_largest_component(input);
    assert_eq!(kept, stones(&[(0, 0, 0), (1, 0, 0), (1, 1, 0)]));
    assert!(is_connected(&kept));
}

#[test]
fn diagonal_neighbours_are_not_connected() {
    let input = stones(&[(0, 0, 0), (1, 1, 0), (2, 2, 0), (3, 3, 0), (3, 4, 0)]);
    let kept = keep_largest_component(input);
    assert_eq!(kept, stones(&[(3, 3, 0), (3, 4, 0)]));
}

#[test]
fn tie_keeps_component_with_least_position() {
    let input = stones(&[(10, 0, 0), (10, 1, 0), (-3, 7, 7), (-3, 7, 8)]);
    let kept = keep_largest_component(input);
    assert_eq!(kept, stones(&[(-3, 7, 7), (-3, 7, 8)]));
}

#[test]
fn kept_voxels_keep_input_order() {
    let input = stones(&[(2, 0, 0), (9, 9, 9), (0, 0, 0), (1, 0, 0)]);
    let kept = keep_largest_component(input);
    assert_eq!(kept, stones(&[(2, 0, 0), (0, 0, 0), (1, 0, 0)]));
}

#[test]
fn connected_input_is_kept_whole_and_result_is_idempotent() {
    let mut points = Vec::new();
    for x in -2..=2 {
        for y in 0..=1 {
            for z in -1..=1 {
                points.push((x, y, z));
            }
        }
    }
    points.push((20, 20, 20));
    let input = stones(&points);
    let kept = keep_largest_component(input.clone());
    assert_eq!(kept.len(), input.len() - 1);
    assert!(is_connected(&kept));
    assert_eq!(keep_largest_component(kept.clone()), kept);
}

#[test]
fn kept_positions_stay_distinct() {
    let input = stones(&[(0, 0, 0), (0, 0, 1), (0, 1, 1), (4, 4, 4), (0, 2, 1)]);
    let kept = keep_largest_component(input);
    let mut positions: Vec<(i32, i32, i32)> = kept.iter().map(|(p, _)| (p.x, p.y, p.z)).collect();
    let before = positions.len();
    positions.sort();
    positions.dedup();
    assert_eq!(positions.len(), before);
    assert_eq!(before, 4);
}
