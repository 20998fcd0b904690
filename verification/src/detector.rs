use vstd::prelude::*;
use crate::field::Field;
use crate::life::Life;
use crate::morton::{NUM_SPACES, pow4};
use crate::quadtree::{QuadTree, relevant, covers, quad_of_bucket};

verus! {

/// Configuration errors, surfaced to the caller at construction or birth
/// and never recovered internally.
#[derive(Clone, Copy, PartialEq, Eq, Structural, Debug)]
pub enum ConfigError {
    /// A world dimension is zero.
    ZeroDimension,
    /// The random spawn range is empty: the half-diameter reaches at least
    /// half of a field dimension.
    EmptyBirthRange,
}

/// Thin facade owning one spatial index and exposing entity registration,
/// removal, relocation and candidate queries to the simulation driver.
pub struct CollisionDetector {
    pub quad_tree: QuadTree,
}

impl CollisionDetector {
    pub open spec fn wf(self) -> bool {
        self.quad_tree.wf()
    }

    /// Abstract state: the bucket each registered life handle occupies.
    pub open spec fn occ(self) -> Map<usize, usize> {
        self.quad_tree.occ()
    }

    pub open spec fn field_spec(self) -> Field {
        self.quad_tree.field_spec()
    }

    /// Build a detector over a fresh, empty index. The only failure is a
    /// zero world dimension, rejected once here so that registration can
    /// never fail later.
    pub fn new(world_width: u32, world_height: u32) -> (r: Result<
        CollisionDetector,
        ConfigError,
    >)
        ensures
            r is Err <==> (world_width == 0 || world_height == 0),
            r matches Err(e) ==> e == ConfigError::ZeroDimension,
            r matches Ok(d) ==> (d.wf() && d.occ() == Map::<usize, usize>::empty()
                && d.field_spec() == (Field { width: world_width, height: world_height })
                && d.quad_tree.nodes@.len() == 0),
    {
        if world_width == 0 || world_height == 0 {
            Err(ConfigError::ZeroDimension)
        } else {
            Ok(CollisionDetector { quad_tree: QuadTree::new(world_width, world_height) })
        }
    }

    /// Register an entity under its handle; returns the node handle used
    /// for later removal or relocation.
    pub fn add_member(&mut self, life_handle: usize, life: &Life) -> (h: usize)
        requires
            old(self).wf(),
            life.in_bounds(old(self).field_spec()),
            !old(self).occ().dom().contains(life_handle),
        ensures
            final(self).wf(),
            final(self).field_spec() == old(self).field_spec(),
            final(self).occ() == old(self).occ().insert(
                life_handle,
                old(self).quad_tree.bucket_of(*life) as usize,
            ),
            h == old(self).quad_tree.nodes@.len(),
            final(self).quad_tree.nodes@.len() == old(self).quad_tree.nodes@.len() + 1,
            final(self).quad_tree.slot_filled(h as int),
            final(self).quad_tree.node_at(h as int).life == life_handle,
            final(self).quad_tree.node_at(h as int).belongs_to as int == old(
                self,
            ).quad_tree.bucket_of(*life),
            forall|i: int|
                0 <= i < old(self).quad_tree.nodes@.len() ==> (((#[trigger] final(self).quad_tree.nodes@[i]) is Some
                    <==> old(self).quad_tree.nodes@[i] is Some) && (old(self).quad_tree.nodes@[i]
                    is Some ==> final(self).quad_tree.node_at(i).life == old(
                    self,
                ).quad_tree.node_at(i).life && final(self).quad_tree.node_at(i).belongs_to
                    == old(self).quad_tree.node_at(i).belongs_to)),
    {
        self.quad_tree.add_member(life_handle, life)
    }

    /// Remove a node handle from the index. A handle that names no live
    /// node (already unregistered) is ignored.
    pub fn unregister(&mut self, h: usize)
        requires
            old(self).wf(),
        ensures
            final(self).wf(),
            final(self).field_spec() == old(self).field_spec(),
            old(self).quad_tree.slot_filled(h as int) ==> final(self).occ() == old(
                self,
            ).occ().remove(old(self).quad_tree.node_at(h as int).life),
            !old(self).quad_tree.slot_filled(h as int) ==> *final(self) == *old(self),
    {
        if h < self.quad_tree.nodes.len() {
            if self.quad_tree.nodes[h].is_some() {
                self.quad_tree.remove_member(h);
            }
        }
    }

    /// Re-bucket the entity referenced by node `h` after a position
    /// change.
    pub fn notify_moved(&mut self, h: usize, life: &Life)
        requires
            old(self).wf(),
            old(self).quad_tree.slot_filled(h as int),
            life.in_bounds(old(self).field_spec()),
        ensures
            final(self).wf(),
            final(self).field_spec() == old(self).field_spec(),
            final(self).occ() == old(self).occ().insert(
                old(self).quad_tree.node_at(h as int).life,
                old(self).quad_tree.bucket_of(*life) as usize,
            ),
            final(self).quad_tree.nodes@.len() == old(self).quad_tree.nodes@.len(),
            final(self).quad_tree.slot_filled(h as int),
            final(self).quad_tree.node_at(h as int).life == old(self).quad_tree.node_at(
                h as int,
            ).life,
            final(self).quad_tree.node_at(h as int).belongs_to as int == old(
                self,
            ).quad_tree.bucket_of(*life),
            forall|i: int|
                0 <= i < old(self).quad_tree.nodes@.len() && i != h as int ==> (((
                #[trigger] final(self).quad_tree.nodes@[i]) is Some <==> old(
                    self,
                ).quad_tree.nodes@[i] is Some) && (old(self).quad_tree.nodes@[i] is Some
                    ==> final(self).quad_tree.node_at(i).life == old(self).quad_tree.node_at(
                    i,
                ).life && final(self).quad_tree.node_at(i).belongs_to == old(
                    self,
                ).quad_tree.node_at(i).belongs_to)),
    {
        self.quad_tree.relocate_member(h, life);
    }

    /// Candidate handles for narrow-phase testing against the entity at
    /// node `h`: exactly the entities registered in a bucket relevant to
    /// its bucket, each once. Narrow-phase testing itself is the caller's.
    pub fn query(&self, h: usize) -> (r: Vec<usize>)
        requires
            self.wf(),
            self.quad_tree.slot_filled(h as int),
        ensures
            forall|l: usize| #[trigger]
                r@.contains(l) <==> (self.occ().dom().contains(l) && relevant(
                    self.quad_tree.node_at(h as int).belongs_to as int,
                    self.occ()[l] as int,
                )),
            forall|i1: int, i2: int| 0 <= i1 < i2 < r@.len() ==> r@[i1] != r@[i2],
    {
        self.quad_tree.candidates_for(h)
    }
}

/// Registering an entity and then unregistering it restores the previous
/// bucket occupancy: inserting a fresh handle into the occupancy map and
/// removing it again is the identity.
pub proof fn lemma_register_unregister_roundtrip(occ: Map<usize, usize>, l: usize, b: usize)
    requires
        !occ.dom().contains(l),
    ensures
        occ.insert(l, b).remove(l) == occ,
{
    assert(occ.insert(l, b).remove(l) =~= occ);
}

/// A bucket is always relevant to itself, so a candidate query scanning
/// from an entity's own bucket finds the entity.
pub proof fn lemma_relevant_reflexive(b: int)
    requires
        0 <= b < NUM_SPACES,
    ensures
        relevant(b, b),
{
    assert(pow4(0) == 1);
    assert(quad_of_bucket(b) / 1 == quad_of_bucket(b));
    assert(covers(b, b));
}

/// After a move the entity is found by queries scanning from its new
/// bucket, and not from a stale bucket that is not relevant to the new
/// one: membership in a query's result is exactly relevance of the
/// occupancy bucket to the scanned bucket.
pub proof fn lemma_found_after_move(occ: Map<usize, usize>, l: usize, b_new: usize, b_stale: usize)
    requires
        occ.dom().contains(l),
        occ[l] == b_new,
        b_new < NUM_SPACES,
    ensures
        occ.dom().contains(l) && relevant(b_new as int, occ[l] as int),
        !relevant(b_stale as int, b_new as int) ==> !(occ.dom().contains(l) && relevant(
            b_stale as int,
            occ[l] as int,
        )),
{
    lemma_relevant_reflexive(b_new as int);
}

} // verus!
