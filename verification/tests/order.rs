use voxel_world::order::{contains_sorted, index_of_sorted, sort_by_position, sort_unique, voxel_less, Voxel};

#[test]
fn sort_unique_orders_and_deduplicates() {
    let input = vec![Voxel::new(1, 0, 0), Voxel::new(0, 5, 5), Voxel::new(1, 0, 0), Voxel::new(0, 5, -1)];
    assert_eq!(sort_unique(&input), vec![Voxel::new(0, 5, -1), Voxel::new(0, 5, 5), Voxel::new(1, 0, 0)]);
    assert!(sort_unique(&Vec::new()).is_empty());
}

#[test]
fn sort_by_position_is_stable() {
    let input = vec![(Voxel::new(2, 0, 0), 'a'), (Voxel::new(1, 0, 0), 'b'), (Voxel::new(2, 0, 0), 'c')];
    assert_eq!(
        sort_by_position(&input),
        vec![(Voxel::new(1, 0, 0), 'b'), (Voxel::new(2, 0, 0), 'a'), (Voxel::new(2, 0, 0), 'c')]
    );
}

#[test]
fn binary_search_finds_members_only() {
    let sorted = sort_unique(&vec![Voxel::new(3, 3, 3), Voxel::new(-1, 0, 2), Voxel::new(0, 0, 0)]);
    assert!(contains_sorted(&sorted, &Voxel::new(0, 0, 0)));
    assert!(!contains_sorted(&sorted, &Voxel::new(0, 0, 1)));
    assert_eq!(index_of_sorted(&sorted, &Voxel::new(3, 3, 3)), Some(2));
    assert_eq!(index_of_sorted(&sorted, &Voxel::new(4, 0, 0)), None);
}

#[test]
fn voxel_order_is_lexicographic() {
    assert!(voxel_less(&Voxel::new(0, 9, 9), &Voxel::new(1, 0, 0)));
    assert!(voxel_less(&Voxel::new(1, 0, 9), &Voxel::new(1, 1, 0)));
    assert!(voxel_less(&Voxel::new(1, 1, 0), &Voxel::new(1, 1, 1)));
    assert!(!voxel_less(&Voxel::new(1, 1, 1), &Voxel::new(1, 1, 1)));
}
