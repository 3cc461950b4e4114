use voxel_world::placement::SampleGrid;

#[test]
fn empty_grid_finds_nothing() {
    let grid = SampleGrid::new(4, 3);
    assert!(grid.block_neighbours(1, 1).is_empty());
}

#[test]
fn block_lookup_visits_rows_then_columns() {
    let mut grid = SampleGrid::new(6, 6);
    grid.insert(3, 3, 7);
    grid.insert(1, 1, 2);
    grid.insert(5, 1, 9);
    grid.insert(0, 5, 4);
    assert_eq!(grid.block_neighbours(2, 2), vec![2, 7]);
    assert_eq!(grid.block_neighbours(1, 4), vec![7, 4]);
    assert_eq!(grid.block_neighbours(4, 2), vec![9, 7]);
    assert_eq!(grid.block_neighbours(5, 5), vec![7]);
}

#[test]
fn later_sample_replaces_earlier_in_same_cell() {
    let mut grid = SampleGrid::new(3, 3);
    grid.insert(1, 1, 0);
    grid.insert(1, 1, 5);
    assert_eq!(grid.block_neighbours(1, 1), vec![5]);
}

#[test]
fn positions_outside_the_cell_array_are_ignored() {
    let mut grid = SampleGrid::new(2, 2);
    grid.insert(-1, 0, 1);
    grid.insert(0, 2, 3);
    assert!(grid.block_neighbours(0, 0).is_empty());
    // Linear position 2 is row 1, column 0.
    grid.insert(2, 0, 8);
    assert_eq!(grid.block_neighbours(0, 1), vec![8]);
}

#[test]
fn far_cells_are_not_neighbours() {
    let mut grid = SampleGrid::new(10, 10);
    grid.insert(9, 9, 1);
    assert!(grid.block_neighbours(6, 6).is_empty());
    assert_eq!(grid.block_neighbours(7, 7), vec![1]);
}
