use quadlife::detector::{CollisionDetector, ConfigError};
use quadlife::life::Species;
use quadlife::universe::Universe;

fn universe500() -> Universe {
    let detector = CollisionDetector::new(500, 500).unwrap();
    Universe::new(500, 500, detector)
}

#[test]
fn empty_birth_then_step_does_nothing() {
    // birth(Plant, 0) followed by step leaves the master sequence empty
    // and performs no index operations.
    let mut universe = universe500();
    assert!(universe.birth(Species::Plant, 0).is_ok());
    assert_eq!(universe.life_count(), 0);
    assert_eq!(universe.collision_detector.quad_tree.member_count(), 0);
    universe.next_step();
    assert_eq!(universe.life_count(), 0);
    assert_eq!(universe.collision_detector.quad_tree.member_count(), 0);
}

#[test]
fn birth_spawns_in_bounds_and_registers() {
    let mut universe = universe500();
    assert!(universe.birth(Species::Plant, 3).is_ok());
    assert!(universe.birth(Species::Carnivore, 2).is_ok());
    assert_eq!(universe.life_count(), 5);
    assert_eq!(universe.collision_detector.quad_tree.member_count(), 5);
    for i in 0..3 {
        let life = universe.get_life(i);
        assert_eq!(life.species, Species::Plant);
        assert_eq!(life.size, 10);
        assert!(life.direction.is_none());
    }
    for i in 3..5 {
        assert_eq!(universe.get_life(i).species, Species::Carnivore);
    }
    for i in 0..5 {
        let life = universe.get_life(i);
        let half = life.half_of_size();
        assert!(life.x >= half && life.x + half < 500);
        assert!(life.y >= half && life.y + half < 500);
    }
}

#[test]
fn birth_fails_fast_on_an_empty_spawn_range() {
    // Half-diameter 5 against a 10-wide field: the position range
    // [5, 10 - 5) is empty, so birth reports it without spawning.
    let detector = CollisionDetector::new(10, 10).unwrap();
    let mut universe = Universe::new(10, 10, detector);
    assert_eq!(
        universe.birth(Species::Plant, 1).unwrap_err(),
        ConfigError::EmptyBirthRange
    );
    assert_eq!(universe.life_count(), 0);
}

#[test]
fn stepping_keeps_every_entity_in_bounds() {
    let mut universe = universe500();
    assert!(universe.birth(Species::Herbivore, 8).is_ok());
    for _ in 0..300 {
        universe.next_step();
        for i in 0..universe.life_count() {
            let life = universe.get_life(i);
            let half = life.half_of_size();
            assert!(life.x >= half && life.x + half < 500);
            assert!(life.y >= half && life.y + half < 500);
        }
    }
}

#[test]
fn stepping_keeps_the_index_in_sync() {
    let mut universe = universe500();
    assert!(universe.birth(Species::Plant, 6).is_ok());
    for _ in 0..100 {
        universe.next_step();
    }
    assert_eq!(universe.collision_detector.quad_tree.member_count(), 6);
    // Every entity is found by a query scanning from its own node.
    for i in 0..universe.life_count() {
        let h = universe.nodes[i];
        let candidates = universe.collision_detector.query(h);
        assert!(candidates.contains(&i));
    }
}

#[test]
fn stepping_preserves_species_and_count() {
    let mut universe = universe500();
    assert!(universe.birth(Species::Carnivore, 4).is_ok());
    for _ in 0..50 {
        universe.next_step();
    }
    assert_eq!(universe.life_count(), 4);
    for i in 0..4 {
        assert_eq!(universe.get_life(i).species, Species::Carnivore);
        assert_eq!(universe.get_life(i).size, 10);
    }
}
