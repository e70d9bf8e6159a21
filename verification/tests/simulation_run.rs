use swarm_sim::config::{Config, ConfigurationError};
use swarm_sim::grid::Point;
use swarm_sim::simulation::{Contact, ParticleRecord, Relation, Simulation};

fn default_world() -> Config {
    Config {
        world_width: 1600,
        world_height: 896,
        cell_size: 8,
        player_count: 8,
        particles_per_player: 960,
    }
}

fn small_world() -> Config {
    Config {
        world_width: 800,
        world_height: 480,
        cell_size: 8,
        player_count: 2,
        particles_per_player: 3,
    }
}

/// Slot of the bucket that should hold a particle at `p`.
fn expected_slot(c: &Config, p: Point) -> usize {
    ((p.x / c.cell_size) + (p.y / c.cell_size) * (c.world_width / c.cell_size)) as usize
}

/// Asserts that every particle is held once, by the bucket of its cell.
fn assert_buckets_match(sim: &Simulation) {
    let c = sim.config();
    let slots = ((c.world_width / c.cell_size) * (c.world_height / c.cell_size)) as usize;
    let mut seen = vec![0usize; sim.len()];
    for slot in 0..slots {
        for id in sim.ids_in_bucket(slot).unwrap() {
            assert!(id < sim.len());
            assert_eq!(expected_slot(&c, sim.position(id)), slot);
            seen[id] += 1;
        }
    }
    assert_eq!(sim.ids_in_bucket(slots), None);
    assert!(seen.iter().all(|&n| n == 1));
}

#[test]
fn start_names_the_fault_of_the_parameters() {
    let c = Config { player_count: 0, ..default_world() };
    assert!(matches!(Simulation::start(c), Err(ConfigurationError::NoPlayers)));
    let c = Config { world_width: 100, world_height: 100, ..small_world() };
    assert!(matches!(Simulation::start(c), Err(ConfigurationError::CellSizeMismatch)));
    let c = Config { particles_per_player: 100_000, ..small_world() };
    assert!(matches!(Simulation::start(c), Err(ConfigurationError::TooManyParticles)));
}

#[test]
fn start_lays_the_particles_out() {
    let sim = Simulation::start(default_world()).unwrap();
    assert_eq!(sim.len(), 7680);
    assert_eq!(sim.config(), default_world());
    assert_eq!(sim.position(0), Point { x: 0, y: 0 });
    assert_eq!(sim.position(31), Point { x: 10, y: 10 });
    assert_eq!(sim.position(960), Point { x: 400, y: 0 });
    assert_eq!(sim.position(7679), Point { x: 1510, y: 738 });
    assert_eq!(sim.owner(0), 0);
    assert_eq!(sim.owner(959), 0);
    assert_eq!(sim.owner(960), 1);
    assert_eq!(sim.owner(7679), 7);
}

#[test]
fn start_fills_the_buckets() {
    let sim = Simulation::start(default_world()).unwrap();
    assert_buckets_match(&sim);
    assert_eq!(sim.ids_in_bucket(0), Some(vec![0]));
    assert_eq!(sim.ids_in_bucket(1 + 200), Some(vec![31]));
    assert_eq!(sim.spilled_count(), 0);
}

#[test]
fn two_starts_with_the_same_parameters_agree() {
    let a = Simulation::start(default_world()).unwrap();
    let b = Simulation::start(default_world()).unwrap();
    assert_eq!(a.snapshot(), b.snapshot());
    assert_eq!(a.len(), b.len());
    for player in 0..8 {
        assert_eq!(a.cursor_start(player), b.cursor_start(player));
    }
}

#[test]
fn snapshot_lists_every_particle_by_id() {
    let sim = Simulation::start(small_world()).unwrap();
    assert_eq!(
        sim.snapshot(),
        vec![
            ParticleRecord { id: 0, position: Point { x: 0, y: 0 }, owner: 0 },
            ParticleRecord { id: 1, position: Point { x: 0, y: 10 }, owner: 0 },
            ParticleRecord { id: 2, position: Point { x: 0, y: 20 }, owner: 0 },
            ParticleRecord { id: 3, position: Point { x: 200, y: 0 }, owner: 1 },
            ParticleRecord { id: 4, position: Point { x: 200, y: 10 }, owner: 1 },
            ParticleRecord { id: 5, position: Point { x: 200, y: 20 }, owner: 1 },
        ]
    );
}

#[test]
fn cursor_start_knows_the_players_of_the_run() {
    let sim = Simulation::start(small_world()).unwrap();
    assert_eq!(sim.cursor_start(0), Some((200, 200)));
    assert_eq!(sim.cursor_start(1), Some((400, 200)));
    assert_eq!(sim.cursor_start(2), None);
}

#[test]
fn a_move_inside_the_world_is_taken() {
    let mut sim = Simulation::start(small_world()).unwrap();
    assert!(sim.try_move(1, Point { x: 799, y: 479 }));
    assert_eq!(sim.position(1), Point { x: 799, y: 479 });
    assert_eq!(sim.ids_in_bucket(99 + 59 * 100), Some(vec![1]));
    assert_eq!(sim.ids_in_bucket(100), Some(vec![]));
    assert_buckets_match(&sim);
}

#[test]
fn a_move_within_the_cell_keeps_the_bucket() {
    let mut sim = Simulation::start(small_world()).unwrap();
    assert!(sim.try_move(0, Point { x: 7, y: 7 }));
    assert_eq!(sim.position(0), Point { x: 7, y: 7 });
    assert_eq!(sim.ids_in_bucket(0), Some(vec![0]));
    assert_buckets_match(&sim);
}

#[test]
fn a_move_out_of_the_world_is_dropped() {
    let mut sim = Simulation::start(small_world()).unwrap();
    let before = sim.snapshot();
    assert!(!sim.try_move(4, Point { x: 800, y: 10 }));
    assert!(!sim.try_move(4, Point { x: 10, y: 480 }));
    assert!(!sim.try_move(4, Point { x: -1, y: 10 }));
    assert!(!sim.try_move(4, Point { x: 10, y: -1 }));
    assert!(!sim.try_move(4, Point { x: i32::MAX, y: i32::MIN }));
    assert_eq!(sim.position(4), Point { x: 200, y: 10 });
    assert_eq!(sim.snapshot(), before);
    assert_buckets_match(&sim);
}

#[test]
fn integrate_takes_the_targets_inside_the_world() {
    let mut sim = Simulation::start(small_world()).unwrap();
    let targets = vec![
        Point { x: 5, y: 5 },
        Point { x: -1, y: 10 },
        Point { x: 300, y: 300 },
        Point { x: 200, y: 480 },
        Point { x: 300, y: 301 },
        Point { x: 0, y: 0 },
    ];
    assert_eq!(sim.integrate(&targets), vec![true, false, true, false, true, true]);
    assert_eq!(sim.position(0), Point { x: 5, y: 5 });
    assert_eq!(sim.position(1), Point { x: 0, y: 10 });
    assert_eq!(sim.position(2), Point { x: 300, y: 300 });
    assert_eq!(sim.position(3), Point { x: 200, y: 0 });
    assert_eq!(sim.position(4), Point { x: 300, y: 301 });
    assert_eq!(sim.position(5), Point { x: 0, y: 0 });
    assert_eq!(sim.ids_in_bucket(0), Some(vec![0, 5]));
    assert_eq!(sim.ids_in_bucket(37 + 37 * 100), Some(vec![2, 4]));
    assert_buckets_match(&sim);
}

#[test]
fn tick_returns_the_positions_after_the_moves() {
    let mut sim = Simulation::start(small_world()).unwrap();
    let targets = vec![
        Point { x: 1, y: 1 },
        Point { x: 0, y: 11 },
        Point { x: 0, y: 500 },
        Point { x: 201, y: 0 },
        Point { x: 900, y: 10 },
        Point { x: 200, y: 21 },
    ];
    let records = sim.tick(&targets);
    assert_eq!(
        records,
        vec![
            ParticleRecord { id: 0, position: Point { x: 1, y: 1 }, owner: 0 },
            ParticleRecord { id: 1, position: Point { x: 0, y: 11 }, owner: 0 },
            ParticleRecord { id: 2, position: Point { x: 0, y: 20 }, owner: 0 },
            ParticleRecord { id: 3, position: Point { x: 201, y: 0 }, owner: 1 },
            ParticleRecord { id: 4, position: Point { x: 200, y: 10 }, owner: 1 },
            ParticleRecord { id: 5, position: Point { x: 200, y: 21 }, owner: 1 },
        ]
    );
    assert_eq!(sim.snapshot(), records);
    assert_buckets_match(&sim);
}

#[test]
fn buckets_match_after_many_ticks() {
    let mut sim = Simulation::start(default_world()).unwrap();
    let n = sim.len();
    for round in 0..5i32 {
        let mut targets = Vec::new();
        for id in 0..n {
            let p = sim.position(id);
            let step = (id as i32 % 23) - 11 + round;
            targets.push(Point { x: p.x + 3 * step, y: p.y - 2 * step });
        }
        let committed = sim.integrate(&targets);
        for id in 0..n {
            let inside = targets[id].x >= 0
                && targets[id].x < 1600
                && targets[id].y >= 0
                && targets[id].y < 896;
            assert_eq!(committed[id], inside);
            if inside {
                assert_eq!(sim.position(id), targets[id]);
            }
        }
        assert_buckets_match(&sim);
    }
}

#[test]
fn neighbors_are_the_others_in_the_cells_around() {
    let mut sim = Simulation::start(small_world()).unwrap();
    assert!(sim.try_move(0, Point { x: 100, y: 100 }));
    assert!(sim.try_move(1, Point { x: 102, y: 100 }));
    assert!(sim.try_move(2, Point { x: 111, y: 111 }));
    assert!(sim.try_move(3, Point { x: 112, y: 100 }));
    assert!(sim.try_move(4, Point { x: 95, y: 95 }));
    assert!(sim.try_move(5, Point { x: 100, y: 87 }));
    let mut near = sim.neighbors(0);
    near.sort();
    assert_eq!(near, vec![1, 2, 4]);
    let mut near = sim.neighbors(3);
    near.sort();
    assert_eq!(near, vec![2]);
    assert_eq!(sim.neighbors(5), vec![4]);
    assert_eq!(sim.neighbors(4), vec![5, 0, 1]);
}

#[test]
fn neighbors_never_name_the_particle_itself() {
    let sim = Simulation::start(default_world()).unwrap();
    for id in [0usize, 31, 960, 7679] {
        assert!(!sim.neighbors(id).contains(&id));
    }
}

#[test]
fn a_particle_alone_has_no_neighbors() {
    let mut sim = Simulation::start(default_world()).unwrap();
    assert_eq!(sim.neighbors(0), vec![1, 30, 31]);
    assert!(sim.try_move(0, Point { x: 1590, y: 890 }));
    assert_eq!(sim.neighbors(0), Vec::<usize>::new());
}

#[test]
fn neighbors_see_each_other() {
    let mut sim = Simulation::start(default_world()).unwrap();
    let n = sim.len();
    let mut targets = Vec::new();
    for id in 0..n {
        targets.push(Point { x: 700 + (id as i32 * 7) % 60, y: 300 + (id as i32 * 13) % 45 });
    }
    sim.integrate(&targets);
    for a in (0..n).step_by(97) {
        for b in sim.neighbors(a) {
            assert!(sim.neighbors(b).contains(&a));
        }
    }
    assert_buckets_match(&sim);
}

#[test]
fn no_particle_within_a_cell_side_is_missed() {
    let mut sim = Simulation::start(default_world()).unwrap();
    let n = sim.len();
    let mut targets = Vec::new();
    for id in 0..n {
        targets.push(Point { x: 700 + (id as i32 * 7) % 60, y: 300 + (id as i32 * 13) % 45 });
    }
    sim.integrate(&targets);
    for a in (0..n).step_by(211) {
        let near = sim.neighbors(a);
        let p = sim.position(a);
        for b in 0..n {
            let q = sim.position(b);
            if b != a && (q.x - p.x).abs() <= 8 && (q.y - p.y).abs() <= 8 {
                assert!(near.contains(&b));
            }
        }
    }
}

#[test]
fn relation_goes_by_the_owners() {
    let sim = Simulation::start(small_world()).unwrap();
    assert_eq!(sim.relation(0, 1), Relation::Friendly);
    assert_eq!(sim.relation(0, 0), Relation::Friendly);
    assert_eq!(sim.relation(2, 3), Relation::Enemy);
    assert_eq!(sim.relation(3, 2), Relation::Enemy);
    assert_eq!(sim.relation(4, 5), Relation::Friendly);
}

#[test]
fn contacts_come_from_both_sides() {
    let mut sim = Simulation::start(small_world()).unwrap();
    assert!(sim.try_move(0, Point { x: 100, y: 100 }));
    assert!(sim.try_move(1, Point { x: 102, y: 100 }));
    assert!(sim.try_move(3, Point { x: 110, y: 100 }));
    let found = sim.contacts();
    assert_eq!(
        found,
        vec![
            Contact { a: 0, b: 1, relation: Relation::Friendly },
            Contact { a: 0, b: 3, relation: Relation::Enemy },
            Contact { a: 1, b: 0, relation: Relation::Friendly },
            Contact { a: 1, b: 3, relation: Relation::Enemy },
            Contact { a: 3, b: 0, relation: Relation::Enemy },
            Contact { a: 3, b: 1, relation: Relation::Enemy },
            Contact { a: 4, b: 5, relation: Relation::Friendly },
            Contact { a: 5, b: 4, relation: Relation::Friendly },
        ]
    );
}

#[test]
fn contacts_of_the_start_layout() {
    let sim = Simulation::start(small_world()).unwrap();
    let found = sim.contacts();
    assert_eq!(
        found,
        vec![
            Contact { a: 0, b: 1, relation: Relation::Friendly },
            Contact { a: 1, b: 0, relation: Relation::Friendly },
            Contact { a: 1, b: 2, relation: Relation::Friendly },
            Contact { a: 2, b: 1, relation: Relation::Friendly },
            Contact { a: 3, b: 4, relation: Relation::Friendly },
            Contact { a: 4, b: 3, relation: Relation::Friendly },
            Contact { a: 4, b: 5, relation: Relation::Friendly },
            Contact { a: 5, b: 4, relation: Relation::Friendly },
        ]
    );
}

#[test]
fn restart_goes_back_to_the_layout() {
    let fresh = Simulation::start(small_world()).unwrap().snapshot();
    let mut sim = Simulation::start(small_world()).unwrap();
    assert!(sim.try_move(0, Point { x: 500, y: 400 }));
    assert!(sim.try_move(5, Point { x: 1, y: 1 }));
    assert_ne!(sim.snapshot(), fresh);
    sim.restart();
    assert_eq!(sim.snapshot(), fresh);
    assert_eq!(sim.config(), small_world());
    assert_buckets_match(&sim);
}

#[test]
fn buckets_spill_when_many_particles_share_a_cell() {
    let mut sim = Simulation::start(default_world()).unwrap();
    for id in 0..16 {
        assert!(sim.try_move(id, Point { x: 801, y: 401 }));
    }
    assert_eq!(sim.spilled_count(), 0);
    assert!(sim.try_move(16, Point { x: 802, y: 402 }));
    assert_eq!(sim.spilled_count(), 1);
    assert_buckets_match(&sim);
}
