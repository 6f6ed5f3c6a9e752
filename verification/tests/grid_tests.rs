use spatial_grid::grid::{Grid, GridError, Position};

fn pos(x: i64, y: i64) -> Position {
    Position { x, y }
}

#[test]
fn new_computes_dimensions() {
    let g = Grid::new(100, 25).unwrap();
    assert_eq!(g.columns(), 4);
    assert_eq!(g.rows(), 4);
    assert_eq!(g.total_cells(), 16);
    assert_eq!(g.extent(), 100);
    assert_eq!(g.cell_size(), 25);
}

#[test]
fn new_rounds_columns_up() {
    // 100 / 30 = 3.33..., so four cells per axis are needed to cover it.
    let g = Grid::new(100, 30).unwrap();
    assert_eq!(g.columns(), 4);
    assert_eq!(g.total_cells(), 16);
    // An exact fit does not round up.
    let g2 = Grid::new(90, 30).unwrap();
    assert_eq!(g2.columns(), 3);
    assert_eq!(g2.total_cells(), 9);
}

#[test]
fn new_rejects_zero_extent() {
    assert_eq!(Grid::new(0, 25).unwrap_err(), GridError::InvalidConfig);
}

#[test]
fn new_rejects_negative_extent() {
    assert_eq!(Grid::new(-100, 25).unwrap_err(), GridError::InvalidConfig);
}

#[test]
fn new_rejects_zero_cell_size() {
    assert_eq!(Grid::new(100, 0).unwrap_err(), GridError::InvalidConfig);
}

#[test]
fn new_rejects_negative_cell_size() {
    assert_eq!(Grid::new(100, -1).unwrap_err(), GridError::InvalidConfig);
}

#[test]
fn single_cell_grid() {
    // cell_size larger than the extent still yields one covering cell.
    let g = Grid::new(1, 25).unwrap();
    assert_eq!(g.columns(), 1);
    assert_eq!(g.total_cells(), 1);
    assert_eq!(g.cell_index_for(pos(0, 0)), Some(0));
    assert_eq!(g.cell_index_for(pos(1, 0)), None);
}

#[test]
fn mapping_matches_row_major_formula() {
    let g = Grid::new(100, 25).unwrap();
    // floor(x / 25) + floor(y / 25) * 4
    assert_eq!(g.cell_index_for(pos(0, 0)), Some(0));
    assert_eq!(g.cell_index_for(pos(24, 0)), Some(0));
    assert_eq!(g.cell_index_for(pos(25, 0)), Some(1));
    assert_eq!(g.cell_index_for(pos(0, 25)), Some(4));
    assert_eq!(g.cell_index_for(pos(30, 80)), Some(1 + 3 * 4));
    assert_eq!(g.cell_index_for(pos(0, 99)), Some(12));
    assert_eq!(g.cell_index_for(pos(99, 99)), Some(15));
}

#[test]
fn out_of_bounds_positions_are_unindexed() {
    let g = Grid::new(100, 25).unwrap();
    assert_eq!(g.cell_index_for(pos(-1, 50)), None);
    assert_eq!(g.cell_index_for(pos(50, -1)), None);
    assert_eq!(g.cell_index_for(pos(100, 50)), None);
    assert_eq!(g.cell_index_for(pos(50, 100)), None);
    assert_eq!(g.cell_index_for(pos(1000, 1000)), None);
}

#[test]
fn upper_bound_is_exclusive() {
    // The grid covers [0, extent), not [0, extent]: a position exactly on the
    // upper bound maps to no cell.
    let g = Grid::new(100, 25).unwrap();
    assert_eq!(g.cell_index_for(pos(100, 50)), None);
    assert_eq!(g.cell_index_for(pos(99, 50)), Some(3 + 2 * 4));
}

#[test]
fn insert_appends_to_mapped_bucket() {
    let mut g = Grid::new(100, 25).unwrap();
    g.insert(7, pos(0, 99));
    for c in 0..g.total_cells() {
        let want: &[u64] = if c == 12 { &[7] } else { &[] };
        assert_eq!(g.bucket_contents(c), want);
    }
}

#[test]
fn insert_out_of_bounds_is_silently_dropped() {
    let mut g = Grid::new(100, 25).unwrap();
    g.insert(7, pos(100, 50));
    for c in 0..g.total_cells() {
        assert_eq!(g.bucket_len(c), 0);
    }
}

#[test]
fn insert_does_not_deduplicate() {
    // Duplicate insertion without removal is a caller contract violation the
    // grid deliberately does not detect: both entries stay.
    let mut g = Grid::new(100, 25).unwrap();
    g.insert(7, pos(1, 1));
    g.insert(7, pos(2, 2));
    assert_eq!(g.bucket_contents(0), vec![7, 7]);
}

#[test]
fn remove_takes_first_occurrence() {
    let mut g = Grid::new(100, 25).unwrap();
    g.insert(7, pos(1, 1));
    g.insert(8, pos(2, 2));
    g.insert(7, pos(3, 3));
    assert_eq!(g.remove(7, 0), Ok(()));
    assert_eq!(g.bucket_contents(0), vec![8, 7]);
}

#[test]
fn remove_missing_id_reports_not_found() {
    let mut g = Grid::new(100, 25).unwrap();
    g.insert(7, pos(1, 1));
    assert_eq!(g.remove(9, 0), Err(GridError::NotFound));
    // The grid is unchanged.
    assert_eq!(g.bucket_contents(0), vec![7]);
}

#[test]
fn clear_empties_every_bucket() {
    let mut g = Grid::new(100, 25).unwrap();
    g.insert(1, pos(0, 0));
    g.insert(2, pos(99, 99));
    g.clear();
    for c in 0..g.total_cells() {
        assert_eq!(g.bucket_len(c), 0);
    }
    assert_eq!(g.total_cells(), 16);
}

#[test]
fn cell_coords_inverts_row_major_index() {
    let g = Grid::new(100, 25).unwrap();
    assert_eq!(g.cell_coords(0), (0, 0));
    assert_eq!(g.cell_coords(1), (1, 0));
    assert_eq!(g.cell_coords(4), (0, 1));
    assert_eq!(g.cell_coords(15), (3, 3));
    for c in 0..g.total_cells() {
        let (col, row) = g.cell_coords(c);
        assert_eq!(col + row * g.columns(), c);
    }
}

#[test]
fn bucket_contents_is_a_snapshot() {
    let mut g = Grid::new(100, 25).unwrap();
    g.insert(7, pos(1, 1));
    let snapshot = g.bucket_contents(0);
    g.insert(8, pos(2, 2));
    assert_eq!(snapshot, vec![7]);
    assert_eq!(g.bucket_contents(0), vec![7, 8]);
}
