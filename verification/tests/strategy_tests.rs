use spatial_grid::grid::{Grid, Position};
use spatial_grid::incremental::{update, update_tick, TrackedEntity};
use spatial_grid::rebuild::rebuild;

fn pos(x: i64, y: i64) -> Position {
    Position { x, y }
}

fn all_buckets(g: &Grid) -> Vec<Vec<u64>> {
    (0..g.total_cells()).map(|c| g.bucket_contents(c)).collect()
}

fn sorted_buckets(g: &Grid) -> Vec<Vec<u64>> {
    let mut bs = all_buckets(g);
    for b in bs.iter_mut() {
        b.sort();
    }
    bs
}

#[test]
fn rebuild_reflects_snapshot_exactly() {
    let mut g = Grid::new(100, 25).unwrap();
    let snapshot = vec![(1, pos(0, 99)), (2, pos(99, 99)), (3, pos(0, 99))];
    rebuild(&mut g, &snapshot);
    assert_eq!(g.bucket_contents(12), vec![1, 3]);
    assert_eq!(g.bucket_contents(15), vec![2]);
    for c in 0..g.total_cells() {
        if c != 12 && c != 15 {
            assert_eq!(g.bucket_len(c), 0);
        }
    }
}

#[test]
fn rebuild_with_empty_snapshot_empties_the_grid() {
    let mut g = Grid::new(100, 25).unwrap();
    rebuild(&mut g, &vec![(1, pos(0, 0))]);
    rebuild(&mut g, &vec![]);
    for c in 0..g.total_cells() {
        assert_eq!(g.bucket_len(c), 0);
    }
}

#[test]
fn rebuild_is_idempotent_on_static_input() {
    let mut g = Grid::new(100, 25).unwrap();
    let snapshot = vec![(1, pos(10, 10)), (2, pos(99, 0)), (3, pos(50, 50))];
    rebuild(&mut g, &snapshot);
    let first = all_buckets(&g);
    rebuild(&mut g, &snapshot);
    rebuild(&mut g, &snapshot);
    assert_eq!(all_buckets(&g), first);
}

#[test]
fn rebuild_drops_entities_from_earlier_ticks() {
    let mut g = Grid::new(100, 25).unwrap();
    rebuild(&mut g, &vec![(1, pos(0, 0))]);
    assert_eq!(g.bucket_len(0), 1);
    rebuild(&mut g, &vec![(1, pos(99, 99))]);
    assert_eq!(g.bucket_len(0), 0);
    assert_eq!(g.bucket_len(15), 1);
}

#[test]
fn single_entity_moves_between_buckets() {
    // A single entity at (0, 99) occupies bucket 12; moving it to (99, 99)
    // under the incremental strategy empties bucket 12 and fills bucket 15.
    let mut g = Grid::new(100, 25).unwrap();
    let mut e = TrackedEntity::new(42);
    assert_eq!(update(&mut g, &mut e, pos(0, 99)), Ok(()));
    assert_eq!(e.current_cell(), Some(12));
    assert_eq!(g.bucket_contents(12), vec![42]);
    for c in 0..g.total_cells() {
        if c != 12 {
            assert_eq!(g.bucket_len(c), 0);
        }
    }
    assert_eq!(update(&mut g, &mut e, pos(99, 99)), Ok(()));
    assert_eq!(e.current_cell(), Some(15));
    assert_eq!(g.bucket_len(12), 0);
    assert_eq!(g.bucket_contents(15), vec![42]);
}

#[test]
fn update_twice_with_same_position_is_a_noop() {
    let mut g = Grid::new(100, 25).unwrap();
    let mut e = TrackedEntity::new(42);
    assert_eq!(update(&mut g, &mut e, pos(30, 80)), Ok(()));
    let cell = e.current_cell();
    let buckets = all_buckets(&g);
    assert_eq!(update(&mut g, &mut e, pos(30, 80)), Ok(()));
    assert_eq!(e.current_cell(), cell);
    assert_eq!(all_buckets(&g), buckets);
}

#[test]
fn update_within_one_cell_is_a_noop() {
    let mut g = Grid::new(100, 25).unwrap();
    let mut e = TrackedEntity::new(42);
    assert_eq!(update(&mut g, &mut e, pos(26, 0)), Ok(()));
    let buckets = all_buckets(&g);
    assert_eq!(update(&mut g, &mut e, pos(49, 24)), Ok(()));
    assert_eq!(e.current_cell(), Some(1));
    assert_eq!(all_buckets(&g), buckets);
}

#[test]
fn leaving_the_region_evicts_from_the_old_bucket() {
    // The Some -> None transition must remove the entity from its prior
    // bucket, or stale membership leaks.
    let mut g = Grid::new(100, 25).unwrap();
    let mut e = TrackedEntity::new(42);
    assert_eq!(update(&mut g, &mut e, pos(10, 10)), Ok(()));
    assert_eq!(g.bucket_len(0), 1);
    assert_eq!(update(&mut g, &mut e, pos(200, 10)), Ok(()));
    assert_eq!(e.current_cell(), None);
    for c in 0..g.total_cells() {
        assert_eq!(g.bucket_len(c), 0);
    }
}

#[test]
fn unplaced_entity_out_of_bounds_stays_unplaced() {
    let mut g = Grid::new(100, 25).unwrap();
    let mut e = TrackedEntity::new(42);
    assert_eq!(update(&mut g, &mut e, pos(-5, 0)), Ok(()));
    assert_eq!(e.current_cell(), None);
    for c in 0..g.total_cells() {
        assert_eq!(g.bucket_len(c), 0);
    }
}

#[test]
fn desynchronized_state_reports_not_found_but_recovers() {
    let mut g = Grid::new(100, 25).unwrap();
    let mut e = TrackedEntity::new(42);
    assert_eq!(update(&mut g, &mut e, pos(10, 10)), Ok(()));
    // Someone else empties the grid behind the tracker's back.
    g.clear();
    let r = update(&mut g, &mut e, pos(99, 99));
    assert!(r.is_err());
    // The tracker and the grid are still brought up to date.
    assert_eq!(e.current_cell(), Some(15));
    assert_eq!(g.bucket_contents(15), vec![42]);
}

#[test]
fn incremental_matches_rebuild_on_final_snapshot() {
    // Drive several entities over several ticks both ways; the final bucket
    // contents must agree as unordered collections.
    let ids: Vec<u64> = vec![1, 2, 3, 4];
    let ticks: Vec<Vec<Position>> = vec![
        vec![pos(0, 0), pos(10, 10), pos(99, 99), pos(50, 50)],
        vec![pos(0, 99), pos(10, 10), pos(120, 99), pos(51, 51)],
        vec![pos(0, 99), pos(80, 10), pos(99, 0), pos(26, 74)],
    ];

    let mut inc = Grid::new(100, 25).unwrap();
    let mut trackers: Vec<TrackedEntity> =
        ids.iter().map(|&id| TrackedEntity::new(id)).collect();
    for tick in &ticks {
        update_tick(&mut inc, &mut trackers, tick);
    }

    let mut reb = Grid::new(100, 25).unwrap();
    let last: Vec<(u64, Position)> =
        ids.iter().copied().zip(ticks.last().unwrap().iter().copied()).collect();
    rebuild(&mut reb, &last);

    assert_eq!(sorted_buckets(&inc), sorted_buckets(&reb));
}

#[test]
fn update_tick_updates_every_tracker() {
    let mut g = Grid::new(100, 25).unwrap();
    let mut trackers = vec![TrackedEntity::new(5), TrackedEntity::new(6)];
    update_tick(&mut g, &mut trackers, &vec![pos(0, 0), pos(99, 99)]);
    assert_eq!(trackers[0].current_cell(), Some(0));
    assert_eq!(trackers[1].current_cell(), Some(15));
    assert_eq!(trackers[0].id(), 5);
    assert_eq!(trackers[1].id(), 6);
    assert_eq!(g.bucket_contents(0), vec![5]);
    assert_eq!(g.bucket_contents(15), vec![6]);
}
