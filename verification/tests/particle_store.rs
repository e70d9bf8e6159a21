use swarm_sim::grid::Point;
use swarm_sim::store::ParticleStore;

#[test]
fn new_store_is_empty() {
    let store = ParticleStore::new();
    assert_eq!(store.len(), 0);
}

#[test]
fn create_bulk_hands_out_consecutive_ids() {
    let mut store = ParticleStore::new();
    let first = store.create_bulk(&vec![Point { x: 1, y: 2 }, Point { x: 3, y: 4 }], 0);
    assert_eq!(first, vec![0, 1]);
    let second =
        store.create_bulk(&vec![Point { x: 5, y: 6 }, Point { x: 7, y: 8 }, Point { x: 9, y: 0 }], 1);
    assert_eq!(second, vec![2, 3, 4]);
    assert_eq!(store.len(), 5);
}

#[test]
fn create_bulk_of_nothing_changes_nothing() {
    let mut store = ParticleStore::new();
    store.create_bulk(&vec![Point { x: 1, y: 2 }], 3);
    assert_eq!(store.create_bulk(&vec![], 4), Vec::<usize>::new());
    assert_eq!(store.len(), 1);
}

#[test]
fn store_keeps_position_and_owner_by_id() {
    let mut store = ParticleStore::new();
    store.create_bulk(&vec![Point { x: 1, y: 2 }, Point { x: 3, y: 4 }], 0);
    store.create_bulk(&vec![Point { x: 5, y: 6 }], 7);
    assert_eq!(store.get_position(0), Point { x: 1, y: 2 });
    assert_eq!(store.get_position(1), Point { x: 3, y: 4 });
    assert_eq!(store.get_position(2), Point { x: 5, y: 6 });
    assert_eq!(store.get_owner(0), 0);
    assert_eq!(store.get_owner(1), 0);
    assert_eq!(store.get_owner(2), 7);
}

#[test]
fn set_position_changes_one_particle() {
    let mut store = ParticleStore::new();
    store.create_bulk(&vec![Point { x: 1, y: 2 }, Point { x: 3, y: 4 }], 0);
    store.set_position(1, Point { x: -9, y: 9 });
    assert_eq!(store.get_position(0), Point { x: 1, y: 2 });
    assert_eq!(store.get_position(1), Point { x: -9, y: 9 });
    assert_eq!(store.get_owner(1), 0);
    assert_eq!(store.len(), 2);
}
