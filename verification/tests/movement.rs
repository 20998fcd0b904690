use quadlife::field::Field;
use quadlife::life::{direction_from_index, Direction, Life, Species};

fn field500() -> Field {
    Field::new(500, 500)
}

#[test]
fn half_of_size_rounds_up() {
    let life = Life::new(Species::Plant, 250, 250);
    assert_eq!(life.size, 10);
    assert_eq!(life.half_of_size(), 5);
}

#[test]
fn new_life_is_stationary() {
    let life = Life::new(Species::Herbivore, 40, 60);
    assert_eq!(life.x, 40);
    assert_eq!(life.y, 60);
    assert!(life.direction.is_none());
}

#[test]
fn colors_by_species() {
    assert_eq!(Life::get_color(Species::Plant), "#02ab83");
    assert_eq!(Life::get_color(Species::Herbivore), "#eac435");
    assert_eq!(Life::get_color(Species::Carnivore), "#fb4d3d");
}

#[test]
fn direction_indices() {
    assert_eq!(direction_from_index(0), Direction::North);
    assert_eq!(direction_from_index(1), Direction::East);
    assert_eq!(direction_from_index(2), Direction::South);
    assert_eq!(direction_from_index(3), Direction::West);
}

#[test]
fn stationary_tick_keeps_position() {
    let field = field500();
    let mut life = Life::new(Species::Plant, 250, 250);
    life.step_with(&field, false, Direction::East);
    assert_eq!((life.x, life.y), (250, 250));
    assert!(life.direction.is_none());
}

#[test]
fn tick_moves_one_unit_along_heading() {
    let field = field500();
    let mut life = Life::new(Species::Plant, 250, 250);
    life.set_direction(Some(Direction::North));
    life.step_with(&field, false, Direction::East);
    assert_eq!((life.x, life.y), (250, 249));
    life.set_direction(Some(Direction::South));
    life.step_with(&field, false, Direction::East);
    assert_eq!((life.x, life.y), (250, 250));
    life.set_direction(Some(Direction::East));
    life.step_with(&field, false, Direction::North);
    assert_eq!((life.x, life.y), (251, 250));
    life.set_direction(Some(Direction::West));
    life.step_with(&field, false, Direction::North);
    assert_eq!((life.x, life.y), (250, 250));
}

#[test]
fn redraw_adopts_drawn_heading_and_moves() {
    let field = field500();
    let mut life = Life::new(Species::Carnivore, 100, 100);
    life.step_with(&field, true, Direction::South);
    assert_eq!(life.direction, Some(Direction::South));
    assert_eq!((life.x, life.y), (100, 101));
}

#[test]
fn east_blocked_at_right_edge() {
    let field = field500();
    // x + half + 1 == 500 is not < 500: blocked, heading kept.
    let mut life = Life::new(Species::Plant, 494, 250);
    life.set_direction(Some(Direction::East));
    life.step_with(&field, false, Direction::East);
    assert_eq!((life.x, life.y), (494, 250));
    assert_eq!(life.direction, Some(Direction::East));
}

#[test]
fn south_blocked_at_bottom_edge() {
    let field = field500();
    let mut life = Life::new(Species::Plant, 250, 494);
    life.set_direction(Some(Direction::South));
    life.step_with(&field, false, Direction::South);
    assert_eq!((life.x, life.y), (250, 494));
}

#[test]
fn west_boundary_never_crossed() {
    // An entity already at the west boundary with heading West never moves
    // further west, whatever is drawn: the boundary predicate is false.
    let field = field500();
    let mut life = Life::new(Species::Plant, 0, 250);
    life.set_direction(Some(Direction::West));
    for _ in 0..50 {
        life.step_with(&field, false, Direction::West);
        assert_eq!(life.x, 0);
    }
    life.step_with(&field, true, Direction::West);
    assert_eq!(life.x, 0);
}

#[test]
fn north_blocked_near_top_edge() {
    let field = field500();
    // y - half - 1 == 0 is not > 0: blocked.
    let mut life = Life::new(Species::Plant, 250, 6);
    life.set_direction(Some(Direction::North));
    life.step_with(&field, false, Direction::North);
    assert_eq!(life.y, 6);
    // One unit lower the move is allowed.
    let mut life = Life::new(Species::Plant, 250, 7);
    life.set_direction(Some(Direction::North));
    life.step_with(&field, false, Direction::North);
    assert_eq!(life.y, 6);
}

#[test]
fn random_ticks_stay_in_bounds() {
    let field = field500();
    let mut life = Life::new(Species::Herbivore, 250, 250);
    for _ in 0..2000 {
        life.next_step(&field);
        let half = life.half_of_size();
        assert!(life.x >= half && life.x + half < field.width);
        assert!(life.y >= half && life.y + half < field.height);
    }
}

#[test]
fn bounding_square_corners() {
    let life = Life::new(Species::Plant, 250, 250);
    let ul = life.get_up_left_point();
    let dr = life.get_down_right_point();
    assert_eq!((ul.x, ul.y), (245, 245));
    assert_eq!((dr.x, dr.y), (255, 255));
}
