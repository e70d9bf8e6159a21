use swarm_sim::grid::{GridError, Point};
use swarm_sim::index::{IndexError, SpatialIndex};

fn index() -> SpatialIndex {
    SpatialIndex::new(100, 100, 8).unwrap()
}

fn sorted(mut ids: Vec<usize>) -> Vec<usize> {
    ids.sort();
    ids
}

#[test]
fn new_index_is_empty() {
    let ix = index();
    assert_eq!(ix.grid().bucket_count(), 169);
    for slot in 0..169 {
        assert_eq!(ix.ids_in_bucket(slot), Some(vec![]));
    }
    assert_eq!(ix.ids_in_bucket(169), None);
    assert_eq!(ix.spilled_count(), 0);
}

#[test]
fn new_index_passes_grid_errors_on() {
    assert!(matches!(SpatialIndex::new(0, 100, 8), Err(GridError::NonPositiveWorld)));
    assert!(matches!(SpatialIndex::new(100, 100, 0), Err(GridError::NonPositiveCell)));
}

#[test]
fn insert_puts_the_id_into_the_bucket_of_its_cell() {
    let mut ix = index();
    assert_eq!(ix.insert(7, Point { x: 12, y: 10 }), Ok(()));
    assert_eq!(ix.ids_in_bucket(1 + 13), Some(vec![7]));
    assert_eq!(ix.insert(3, Point { x: 15, y: 15 }), Ok(()));
    assert_eq!(ix.ids_in_bucket(14), Some(vec![7, 3]));
    assert_eq!(ix.ids_in_bucket(0), Some(vec![]));
}

#[test]
fn insert_outside_the_world_is_refused() {
    let mut ix = index();
    assert_eq!(ix.insert(1, Point { x: 100, y: 0 }), Err(IndexError::OutOfBounds));
    assert_eq!(ix.insert(1, Point { x: 0, y: -1 }), Err(IndexError::OutOfBounds));
    for slot in 0..169 {
        assert_eq!(ix.ids_in_bucket(slot), Some(vec![]));
    }
}

#[test]
fn remove_takes_the_id_out_and_keeps_the_order() {
    let mut ix = index();
    for id in 0..4 {
        ix.insert(id, Point { x: 1, y: 1 }).unwrap();
    }
    assert_eq!(ix.remove(1, Point { x: 7, y: 7 }), Ok(()));
    assert_eq!(ix.ids_in_bucket(0), Some(vec![0, 2, 3]));
    assert_eq!(ix.remove(3, Point { x: 0, y: 0 }), Ok(()));
    assert_eq!(ix.ids_in_bucket(0), Some(vec![0, 2]));
}

#[test]
fn remove_of_a_missing_id_is_an_invariant_violation() {
    let mut ix = index();
    ix.insert(5, Point { x: 1, y: 1 }).unwrap();
    assert_eq!(ix.remove(6, Point { x: 1, y: 1 }), Err(IndexError::InvariantViolation));
    assert_eq!(ix.remove(5, Point { x: 9, y: 1 }), Err(IndexError::InvariantViolation));
    assert_eq!(ix.ids_in_bucket(0), Some(vec![5]));
}

#[test]
fn remove_outside_the_world_is_refused() {
    let mut ix = index();
    ix.insert(5, Point { x: 1, y: 1 }).unwrap();
    assert_eq!(ix.remove(5, Point { x: -1, y: 1 }), Err(IndexError::OutOfBounds));
    assert_eq!(ix.ids_in_bucket(0), Some(vec![5]));
}

#[test]
fn relocate_within_one_cell_changes_nothing() {
    let mut ix = index();
    ix.insert(1, Point { x: 8, y: 8 }).unwrap();
    ix.insert(2, Point { x: 9, y: 9 }).unwrap();
    assert_eq!(ix.relocate(1, Point { x: 8, y: 8 }, Point { x: 15, y: 15 }), Ok(()));
    assert_eq!(ix.ids_in_bucket(14), Some(vec![1, 2]));
}

#[test]
fn relocate_within_one_cell_does_not_look_for_the_id() {
    let mut ix = index();
    assert_eq!(ix.relocate(9, Point { x: 8, y: 8 }, Point { x: 15, y: 15 }), Ok(()));
    assert_eq!(ix.ids_in_bucket(14), Some(vec![]));
}

#[test]
fn relocate_moves_the_id_to_the_new_bucket() {
    let mut ix = index();
    ix.insert(1, Point { x: 8, y: 8 }).unwrap();
    ix.insert(2, Point { x: 9, y: 9 }).unwrap();
    ix.insert(3, Point { x: 20, y: 9 }).unwrap();
    assert_eq!(ix.relocate(1, Point { x: 8, y: 8 }, Point { x: 16, y: 8 }), Ok(()));
    assert_eq!(ix.ids_in_bucket(14), Some(vec![2]));
    assert_eq!(ix.ids_in_bucket(15), Some(vec![3, 1]));
}

#[test]
fn relocate_outside_the_world_is_refused() {
    let mut ix = index();
    ix.insert(1, Point { x: 8, y: 8 }).unwrap();
    assert_eq!(
        ix.relocate(1, Point { x: 8, y: 8 }, Point { x: 100, y: 8 }),
        Err(IndexError::OutOfBounds)
    );
    assert_eq!(
        ix.relocate(1, Point { x: -8, y: 8 }, Point { x: 10, y: 8 }),
        Err(IndexError::OutOfBounds)
    );
    assert_eq!(ix.ids_in_bucket(14), Some(vec![1]));
}

#[test]
fn relocate_of_a_missing_id_is_an_invariant_violation() {
    let mut ix = index();
    ix.insert(1, Point { x: 8, y: 8 }).unwrap();
    assert_eq!(
        ix.relocate(2, Point { x: 8, y: 8 }, Point { x: 50, y: 50 }),
        Err(IndexError::InvariantViolation)
    );
    assert_eq!(ix.ids_in_bucket(14), Some(vec![1]));
    assert_eq!(ix.ids_in_bucket(6 + 6 * 13), Some(vec![]));
}

#[test]
fn query_returns_the_block_around_the_position() {
    let mut ix = index();
    ix.insert(0, Point { x: 10, y: 10 }).unwrap();
    ix.insert(1, Point { x: 12, y: 10 }).unwrap();
    ix.insert(2, Point { x: 23, y: 23 }).unwrap();
    ix.insert(3, Point { x: 24, y: 10 }).unwrap();
    ix.insert(4, Point { x: 0, y: 0 }).unwrap();
    ix.insert(5, Point { x: 10, y: 24 }).unwrap();
    let found = ix.query_neighbors(Point { x: 10, y: 10 }, 8).unwrap();
    assert_eq!(sorted(found), vec![0, 1, 2, 4]);
}

#[test]
fn query_scans_column_by_column() {
    let mut ix = index();
    ix.insert(0, Point { x: 20, y: 20 }).unwrap();
    ix.insert(1, Point { x: 10, y: 20 }).unwrap();
    ix.insert(2, Point { x: 10, y: 10 }).unwrap();
    ix.insert(3, Point { x: 20, y: 10 }).unwrap();
    let found = ix.query_neighbors(Point { x: 12, y: 12 }, 8).unwrap();
    assert_eq!(found, vec![2, 1, 3, 0]);
}

#[test]
fn query_with_a_wider_radius_reaches_farther() {
    let mut ix = index();
    ix.insert(0, Point { x: 10, y: 10 }).unwrap();
    ix.insert(1, Point { x: 40, y: 10 }).unwrap();
    ix.insert(2, Point { x: 99, y: 99 }).unwrap();
    assert_eq!(ix.query_neighbors(Point { x: 10, y: 10 }, 8).unwrap(), vec![0]);
    assert_eq!(sorted(ix.query_neighbors(Point { x: 10, y: 10 }, 30).unwrap()), vec![0, 1]);
    assert_eq!(sorted(ix.query_neighbors(Point { x: 10, y: 10 }, 1000).unwrap()), vec![0, 1, 2]);
}

#[test]
fn query_with_radius_zero_returns_the_own_cell() {
    let mut ix = index();
    ix.insert(0, Point { x: 10, y: 10 }).unwrap();
    ix.insert(1, Point { x: 16, y: 10 }).unwrap();
    assert_eq!(ix.query_neighbors(Point { x: 15, y: 15 }, 0).unwrap(), vec![0]);
}

#[test]
fn query_with_a_negative_radius_finds_nothing() {
    let mut ix = index();
    ix.insert(0, Point { x: 10, y: 10 }).unwrap();
    assert_eq!(ix.query_neighbors(Point { x: 10, y: 10 }, -1).unwrap(), Vec::<usize>::new());
}

#[test]
fn query_outside_the_world_is_refused() {
    let ix = index();
    assert_eq!(ix.query_neighbors(Point { x: 100, y: 10 }, 8), Err(IndexError::OutOfBounds));
    assert_eq!(ix.query_neighbors(Point { x: 10, y: -1 }, 8), Err(IndexError::OutOfBounds));
}

#[test]
fn query_finds_nothing_in_an_empty_neighbourhood() {
    let mut ix = index();
    ix.insert(0, Point { x: 90, y: 90 }).unwrap();
    assert_eq!(ix.query_neighbors(Point { x: 10, y: 10 }, 8).unwrap(), Vec::<usize>::new());
}

#[test]
fn a_bucket_spills_at_the_seventeenth_id() {
    let mut ix = index();
    for id in 0..16 {
        ix.insert(id, Point { x: 1, y: 1 }).unwrap();
    }
    assert_eq!(ix.spilled_count(), 0);
    ix.insert(16, Point { x: 2, y: 2 }).unwrap();
    assert_eq!(ix.spilled_count(), 1);
    assert_eq!(ix.ids_in_bucket(0), Some((0..17).collect::<Vec<usize>>()));
    ix.insert(17, Point { x: 50, y: 50 }).unwrap();
    assert_eq!(ix.spilled_count(), 1);
}
