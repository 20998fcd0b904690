use vstd::prelude::*;
use crate::field::Field;
use crate::life::{Life, Species, Direction, half_of, DEFAULT_LIFE_SIZE, lemma_step_in_bounds, stepped_from};
use crate::detector::{CollisionDetector, ConfigError};
use crate::rng::random_in;

verus! {

/// Owns the field, the master entity sequence and the collision detector;
/// spawns entities, advances them each tick, and re-buckets each entity
/// after its tick. Drawing is left to an external renderer, which reads
/// the entities through `life_count` and `get_life`.
pub struct Universe {
    pub field: Field,
    pub lives: Vec<Life>,
    /// Detector node handle of each entity, by entity handle.
    pub nodes: Vec<usize>,
    pub collision_detector: CollisionDetector,
}

impl Universe {
    /// Entity `i`'s detector node references it back and sits in the
    /// bucket computed from the entity's current position.
    pub open spec fn node_ok(self, i: int) -> bool {
        let h = self.nodes@[i] as int;
        let qt = self.collision_detector.quad_tree;
        &&& qt.slot_filled(h)
        &&& qt.node_at(h).life as int == i
        &&& qt.node_at(h).belongs_to as int == qt.bucket_of(self.lives@[i])
    }

    pub open spec fn wf(self) -> bool {
        &&& self.field.wf()
        &&& self.collision_detector.wf()
        &&& self.collision_detector.field_spec() == self.field
        &&& self.lives@.len() == self.nodes@.len()
        &&& (forall|i: int|
            0 <= i < self.lives@.len() ==> (#[trigger] self.lives@[i]).in_bounds(self.field))
        &&& (forall|i: int| 0 <= i < self.nodes@.len() ==> #[trigger] self.node_ok(i))
        &&& (forall|l: usize| #[trigger]
            self.collision_detector.occ().dom().contains(l) ==> (l as int) < self.lives@.len())
    }

    /// Every entity of the master sequence is registered in the index, in
    /// exactly one bucket: its handle is in the occupancy map, which sends
    /// each handle to a single bucket, the one computed from the entity's
    /// current position.
    pub proof fn lemma_every_entity_registered(self, i: int)
        requires
            self.wf(),
            0 <= i < self.lives@.len(),
        ensures
            self.collision_detector.occ().contains_pair(
                i as usize,
                (self.collision_detector.quad_tree.bucket_of(self.lives@[i]) as usize),
            ),
    {
        assert(self.node_ok(i));
        let qt = self.collision_detector.quad_tree;
        let h = self.nodes@[i] as int;
        assert(qt.slot_filled(h));
        assert(qt.in_lists(h));
        let (b0, k0) = choose|b0: int, k0: int|
            qt.valid_pos(b0, k0) && (#[trigger] qt.slot_at(b0, k0)) as int == h;
        assert(qt.pos_ok(b0, k0));
    }

    /// Assemble a universe over a freshly built detector for the same
    /// dimensions; zero dimensions were already rejected when the detector
    /// was constructed.
    pub fn new(width: u32, height: u32, collision_detector: CollisionDetector) -> (r: Universe)
        requires
            collision_detector.wf(),
            collision_detector.occ() == Map::<usize, usize>::empty(),
            collision_detector.field_spec() == (Field { width, height }),
        ensures
            r.wf(),
            r.field == (Field { width, height }),
            r.lives@.len() == 0,
            r.collision_detector.occ() == Map::<usize, usize>::empty(),
    {
        let field = Field { width, height };
        let lives: Vec<Life> = Vec::new();
        let nodes: Vec<usize> = Vec::new();
        Universe { field, lives, nodes, collision_detector }
    }

    /// Number of entities in the master sequence.
    pub fn life_count(&self) -> (r: usize)
        ensures
            r == self.lives@.len(),
    {
        self.lives.len()
    }

    /// Read one entity, for rendering or inspection.
    pub fn get_life(&self, i: usize) -> (r: Life)
        requires
            i < self.lives@.len(),
        ensures
            r == self.lives@[i as int],
    {
        self.lives[i]
    }

    /// Spawn `num` entities of `species` at uniformly random positions
    /// whose bounding squares lie inside the field from creation, append
    /// them to the master sequence and register each with the collision
    /// detector. Fails fast, before any spawn, when the random position
    /// range is empty.
    pub fn birth(&mut self, species: Species, num: u32) -> (r: Result<(), ConfigError>)
        requires
            old(self).wf(),
        ensures
            final(self).wf(),
            final(self).field == old(self).field,
            r is Err <==> (2 * half_of(DEFAULT_LIFE_SIZE) >= old(self).field.width as int || 2
                * half_of(DEFAULT_LIFE_SIZE) >= old(self).field.height as int),
            r matches Err(e) ==> e == ConfigError::EmptyBirthRange,
            r is Err ==> *final(self) == *old(self),
            r is Ok ==> final(self).lives@.len() == old(self).lives@.len() + num,
            forall|i: int|
                0 <= i < old(self).lives@.len() ==> #[trigger] final(self).lives@[i] == old(self).lives@[i],
            r is Ok ==> forall|i: int|
                old(self).lives@.len() <= i < final(self).lives@.len() ==> ((#[trigger] final(self).lives@[i]).species
                    == species && final(self).lives@[i].size == DEFAULT_LIFE_SIZE && final(self).lives@[i].direction is None && final(self).lives@[i].in_bounds(
                    old(self).field,
                )),
    {
        let hos: u32 = DEFAULT_LIFE_SIZE / 2 + DEFAULT_LIFE_SIZE % 2;
        if self.field.width <= 2 * hos || self.field.height <= 2 * hos {
            return Err(ConfigError::EmptyBirthRange);
        }
        let mut c: u32 = 0;
        while c < num
            invariant
                self.wf(),
                self.field == old(self).field,
                hos == half_of(DEFAULT_LIFE_SIZE),
                2 * hos < self.field.width,
                2 * hos < self.field.height,
                c <= num,
                self.lives@.len() == old(self).lives@.len() + c,
                forall|i: int|
                    0 <= i < old(self).lives@.len() ==> #[trigger] self.lives@[i] == old(self).lives@[i],
                forall|i: int|
                    old(self).lives@.len() <= i < self.lives@.len() ==> ((
                    #[trigger] self.lives@[i]).species == species && self.lives@[i].size
                        == DEFAULT_LIFE_SIZE && self.lives@[i].direction is None
                        && self.lives@[i].in_bounds(old(self).field)),
            decreases num - c,
        {
            let ghost pre = *self;
            let x: u32 = random_in(hos, self.field.width - hos);
            let y: u32 = random_in(hos, self.field.height - hos);
            let life = Life::new(species, x, y);
            proof {
                assert(life.in_bounds(self.field));
            }
            let handle: usize = self.lives.len();
            self.lives.push(life);
            let node_h: usize = self.collision_detector.add_member(handle, &life);
            self.nodes.push(node_h);
            proof {
                assert forall|i: int| 0 <= i < self.nodes@.len() implies #[trigger] self.node_ok(
                    i,
                ) by {
                    if i < pre.nodes@.len() {
                        assert(pre.node_ok(i));
                        assert(self.lives@[i] == pre.lives@[i]);
                    } else {
                        assert(i == pre.nodes@.len());
                        assert(self.nodes@[i] == node_h);
                        assert(self.lives@[i] == life);
                    }
                }
            }
            c = c + 1;
        }
        Ok(())
    }

    /// Advance every entity one tick of its movement state machine, then
    /// notify the collision detector so the entity's bucket is recomputed
    /// from its new position.
    pub fn next_step(&mut self)
        requires
            old(self).wf(),
        ensures
            final(self).wf(),
            final(self).field == old(self).field,
            final(self).lives@.len() == old(self).lives@.len(),
            forall|i: int|
                0 <= i < old(self).lives@.len() ==> #[trigger] stepped_from(
                    final(self).lives@[i],
                    old(self).lives@[i],
                    old(self).field,
                ),
    {
        let n: usize = self.lives.len();
        let field: Field = self.field;
        let ghost mut draws: Seq<(bool, Direction)> = Seq::empty();
        let mut i: usize = 0;
        while i < n
            invariant
                self.wf(),
                self.field == old(self).field,
                field == self.field,
                n == self.lives@.len(),
                self.lives@.len() == old(self).lives@.len(),
                i <= n,
                draws.len() == i,
                forall|k: int| i <= k < n ==> #[trigger] self.lives@[k] == old(self).lives@[k],
                forall|k: int|
                    0 <= k < i ==> #[trigger] self.lives@[k] == old(self).lives@[k].step_spec(
                        field,
                        draws[k].0,
                        draws[k].1,
                    ),
            decreases n - i,
        {
            let ghost pre = *self;
            let mut life: Life = self.lives[i];
            life.next_step(&field);
            proof {
                assert(stepped_from(life, pre.lives@[i as int], field));
                let (change, drawn) = choose|change: bool, drawn: Direction|
                    life == pre.lives@[i as int].step_spec(field, change, drawn);
                lemma_step_in_bounds(pre.lives@[i as int], field, change, drawn);
                assert(life.in_bounds(field));
                assert(pre.node_ok(i as int));
                draws = draws.push((change, drawn));
            }
            self.lives.set(i, life);
            let h: usize = self.nodes[i];
            self.collision_detector.notify_moved(h, &life);
            proof {
                assert forall|k: int| 0 <= k < self.nodes@.len() implies #[trigger] self.node_ok(
                    k,
                ) by {
                    assert(pre.node_ok(k));
                    if k != i as int {
                        let hk = pre.nodes@[k] as int;
                        if hk == h as int {
                            assert(pre.collision_detector.quad_tree.node_at(hk).life as int
                                == k);
                            assert(false);
                        }
                        assert(self.lives@[k] == pre.lives@[k]);
                    }
                }
                assert(self.lives@[i as int] == old(self).lives@[i as int].step_spec(
                    field,
                    draws[i as int].0,
                    draws[i as int].1,
                ));
            }
            i = i + 1;
        }
        proof {
            assert forall|ix: int| 0 <= ix < old(self).lives@.len() implies #[trigger] stepped_from(
                self.lives@[ix],
                old(self).lives@[ix],
                old(self).field,
            ) by {
                assert(self.lives@[ix] == old(self).lives@[ix].step_spec(
                    old(self).field,
                    draws[ix].0,
                    draws[ix].1,
                ));
            }
        }
    }
}

} // verus!
