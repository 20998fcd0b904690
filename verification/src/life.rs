use vstd::prelude::*;
use crate::field::{Field, Point};
use crate::rng::random_in;

verus! {

/// Diameter given to every entity at creation.
pub const DEFAULT_LIFE_SIZE: u32 = 10;

/// Closed set of species; fixes the render color and, in principle,
/// behavior. Immutable for the lifetime of an entity.
#[derive(Clone, Copy, PartialEq, Eq, Structural, Debug)]
pub enum Species {
    Plant,
    Herbivore,
    Carnivore,
}

/// A heading for one tick of movement. `None` as `Option<Direction>` means
/// the entity is stationary until a random draw picks a heading.
#[derive(Clone, Copy, PartialEq, Eq, Structural, Debug)]
pub enum Direction {
    North,
    East,
    South,
    West,
}

/// Margin between an entity's center and the edge of its bounding square:
/// the diameter halved, rounded up.
pub open spec fn half_of(size: u32) -> int {
    (size + 1) / 2
}

/// A circular entity: species tag, center position, fixed diameter and the
/// current heading of its random walk.
#[derive(Clone, Copy, Debug)]
pub struct Life {
    pub species: Species,
    pub x: u32,
    pub y: u32,
    /// Diameter of the circle.
    pub size: u32,
    pub direction: Option<Direction>,
}

impl Life {
    /// The entity's full bounding square lies inside the field, with the
    /// leading edges strictly short of the far bounds.
    pub open spec fn in_bounds(self, field: Field) -> bool {
        let h = half_of(self.size);
        &&& h <= self.x
        &&& self.x + h < field.width
        &&& h <= self.y
        &&& self.y + h < field.height
    }

    /// The heading after this tick's draw was resolved: a change adopts the
    /// drawn direction, otherwise the previous heading (possibly none) stays.
    pub open spec fn heading_after_draw(self, change: bool, drawn: Direction) -> Option<
        Direction,
    > {
        if change {
            Some(drawn)
        } else {
            self.direction
        }
    }

    /// The boundary predicate: a one-unit move along `d` is allowed only when
    /// the bounding square's leading edge stays strictly inside the field.
    pub open spec fn can_move(self, field: Field, d: Direction) -> bool {
        let h = half_of(self.size);
        match d {
            Direction::North => self.y - h - 1 > 0,
            Direction::East => self.x + h + 1 < field.width,
            Direction::South => self.y + h + 1 < field.height,
            Direction::West => self.x - h - 1 > 0,
        }
    }

    /// The position after an unchecked one-unit move along `d`.
    pub open spec fn moved(self, d: Direction) -> Life {
        match d {
            Direction::North => Life { y: (self.y - 1) as u32, ..self },
            Direction::East => Life { x: (self.x + 1) as u32, ..self },
            Direction::South => Life { y: (self.y + 1) as u32, ..self },
            Direction::West => Life { x: (self.x - 1) as u32, ..self },
        }
    }

    /// One tick of the movement state machine: resolve the heading draw, then
    /// move one unit along the heading if the boundary predicate allows it;
    /// a blocked tick keeps the position (and the heading) unchanged.
    pub open spec fn step_spec(self, field: Field, change: bool, drawn: Direction) -> Life {
        let dir = self.heading_after_draw(change, drawn);
        let l1 = Life { direction: dir, ..self };
        match dir {
            None => l1,
            Some(d) => if l1.can_move(field, d) {
                l1.moved(d)
            } else {
                l1
            },
        }
    }

    /// Up-left corner of the bounding square (meaningful when the entity is
    /// in bounds, where the subtraction cannot wrap).
    pub open spec fn up_left_spec(self) -> Point {
        Point {
            x: (self.x - half_of(self.size)) as u32,
            y: (self.y - half_of(self.size)) as u32,
        }
    }

    /// Down-right corner of the bounding square (meaningful when the entity
    /// is in bounds, where the addition cannot wrap).
    pub open spec fn down_right_spec(self) -> Point {
        Point {
            x: (self.x + half_of(self.size)) as u32,
            y: (self.y + half_of(self.size)) as u32,
        }
    }

    pub fn new(species: Species, x: u32, y: u32) -> (r: Life)
        ensures
            r.species == species,
            r.x == x,
            r.y == y,
            r.size == DEFAULT_LIFE_SIZE,
            r.direction is None,
    {
        Life { species, x, y, size: DEFAULT_LIFE_SIZE, direction: None }
    }

    /// Render color of a species, as a CSS hex code.
    pub fn get_color(species: Species) -> (r: &'static str)
        ensures
            species == Species::Plant ==> r@ == "#02ab83"@,
            species == Species::Herbivore ==> r@ == "#eac435"@,
            species == Species::Carnivore ==> r@ == "#fb4d3d"@,
    {
        match species {
            Species::Plant => "#02ab83",
            Species::Herbivore => "#eac435",
            Species::Carnivore => "#fb4d3d",
        }
    }

    /// Half of the diameter, rounded up: the margin used by the boundary
    /// predicates and the bounding-square corners.
    pub fn half_of_size(&self) -> (r: u32)
        ensures
            r == half_of(self.size),
    {
        self.size / 2 + self.size % 2
    }

    /// Decides whether this tick re-draws the heading, with fixed probability
    /// one in ten. The entity itself is not changed.
    pub fn change_direction(&mut self) -> (r: bool)
        ensures
            *final(self) == *old(self),
    {
        random_in(0, 10) == 0
    }

    pub fn set_direction(&mut self, direction: Option<Direction>)
        ensures
            *final(self) == (Life { direction, ..*old(self) }),
    {
        self.direction = direction;
    }

    /// One tick with the randomness resolved outside: `change` says whether
    /// the heading is re-drawn and `drawn` which heading a re-draw picks.
    /// Total: underflow near the field edges is guarded, never wrapped.
    pub fn step_with(&mut self, field: &Field, change: bool, drawn: Direction)
        ensures
            *final(self) == old(self).step_spec(*field, change, drawn),
    {
        if change {
            self.direction = Some(drawn);
        }
        let half: u32 = self.half_of_size();
        match self.direction {
            Some(Direction::North) => {
                if self.y as u64 > half as u64 + 1 {
                    self.y = self.y - 1;
                }
            },
            Some(Direction::East) => {
                if self.x as u64 + half as u64 + 1 < field.width as u64 {
                    self.x = self.x + 1;
                }
            },
            Some(Direction::South) => {
                if self.y as u64 + half as u64 + 1 < field.height as u64 {
                    self.y = self.y + 1;
                }
            },
            Some(Direction::West) => {
                if self.x as u64 > half as u64 + 1 {
                    self.x = self.x - 1;
                }
            },
            None => {},
        }
    }

    /// One tick with the draws taken from the process-wide random source:
    /// some draw outcome explains the new state, and nothing else changes.
    pub fn next_step(&mut self, field: &Field)
        ensures
            stepped_from(*final(self), *old(self), *field),
    {
        let change: bool = self.change_direction();
        let drawn: Direction = random_direction();
        self.step_with(field, change, drawn);
        proof {
            assert(*self == old(self).step_spec(*field, change, drawn));
        }
    }

    /// Upper-left corner of the bounding square: the center minus the
    /// half-diameter on each axis.
    pub fn get_up_left_point(&self) -> (r: Point)
        requires
            half_of(self.size) <= self.x,
            half_of(self.size) <= self.y,
        ensures
            r.x == self.x - half_of(self.size),
            r.y == self.y - half_of(self.size),
    {
        let half: u32 = self.half_of_size();
        Point { x: self.x - half, y: self.y - half }
    }

    /// Lower-right corner of the bounding square: the center plus the
    /// half-diameter on each axis.
    pub fn get_down_right_point(&self) -> (r: Point)
        requires
            self.x + half_of(self.size) <= u32::MAX,
            self.y + half_of(self.size) <= u32::MAX,
        ensures
            r.x == self.x + half_of(self.size),
            r.y == self.y + half_of(self.size),
    {
        let half: u32 = self.half_of_size();
        Point { x: self.x + half, y: self.y + half }
    }
}

/// A heading drawn uniformly from the four directions.
pub fn random_direction() -> (d: Direction) {
    direction_from_index(random_in(0, 4))
}

/// The fixed numbering of the four headings used by the random draw.
pub open spec fn direction_of_index(i: u32) -> Direction {
    if i == 0 {
        Direction::North
    } else if i == 1 {
        Direction::East
    } else if i == 2 {
        Direction::South
    } else {
        Direction::West
    }
}

pub fn direction_from_index(i: u32) -> (d: Direction)
    ensures
        d == direction_of_index(i),
{
    match i {
        0 => Direction::North,
        1 => Direction::East,
        2 => Direction::South,
        _ => Direction::West,
    }
}

/// Some draw outcome explains `l_new` as one tick of `l_old`: there are a
/// change decision and a drawn heading whose step takes `l_old` to `l_new`.
pub open spec fn stepped_from(l_new: Life, l_old: Life, f: Field) -> bool {
    exists|change: bool, drawn: Direction| l_new == #[trigger] l_old.step_spec(f, change, drawn)
}

/// A tick keeps the bounding square inside the field: whatever the draw and
/// whatever the heading, an entity that starts in bounds ends in bounds.
pub proof fn lemma_step_in_bounds(l: Life, f: Field, change: bool, drawn: Direction)
    requires
        l.in_bounds(f),
    ensures
        l.step_spec(f, change, drawn).in_bounds(f),
{
}

/// A tick never changes the species or the size of an entity.
pub proof fn lemma_step_keeps_identity(l: Life, f: Field, change: bool, drawn: Direction)
    ensures
        l.step_spec(f, change, drawn).species == l.species,
        l.step_spec(f, change, drawn).size == l.size,
{
}

/// A west-blocked tick is a no-op for the position: when the resolved heading
/// is West and the boundary predicate fails, the entity stays where it is. In
/// particular the predicate is false whenever the center is at x = 0, so an
/// entity at the west boundary never moves further west, whatever is drawn.
pub proof fn lemma_west_blocked(l: Life, f: Field, change: bool, drawn: Direction)
    requires
        l.heading_after_draw(change, drawn) == Some(Direction::West),
        l.x - half_of(l.size) - 1 <= 0,
    ensures
        l.step_spec(f, change, drawn).x == l.x,
        l.step_spec(f, change, drawn).y == l.y,
{
}

/// A tick never moves the entity west of x = 0: the west boundary predicate
/// is always false there, whatever the draw and the heading.
pub proof fn lemma_west_boundary_holds(l: Life, f: Field, change: bool, drawn: Direction)
    requires
        l.x == 0,
    ensures
        l.step_spec(f, change, drawn).x == 0 || l.step_spec(f, change, drawn).x == 1,
        l.step_spec(f, change, drawn).x == 1 ==> l.heading_after_draw(change, drawn) == Some(
            Direction::East,
        ),
{
}

} // verus!
