use vstd::prelude::*;
use crate::field::Field;
use crate::life::Life;
use crate::morton::{
    QUAD_TREE_LEVEL_COUNT, NUM_SPACES, pow2, pow4, point_code, level_offset, diverge_level,
    bucket_from_codes, lemma_xor_group, pow2_exec,
};

verus! {

/// One bucket of the spatial index: the head of its doubly linked
/// membership list, as an index into the node arena.
#[derive(Clone, Copy, Debug)]
pub struct QuadTreeSpace {
    pub head_node: Option<usize>,
}

impl QuadTreeSpace {
    pub fn new(head_node: Option<usize>) -> (r: QuadTreeSpace)
        ensures
            r.head_node == head_node,
    {
        QuadTreeSpace { head_node }
    }
}

/// One membership record: ties a life handle to the bucket holding it and
/// to its list neighbors, all by arena index.
#[derive(Clone, Copy, Debug)]
pub struct QuadTreeNode {
    pub belongs_to: usize,
    pub life: usize,
    pub prev_node: Option<usize>,
    pub next_node: Option<usize>,
}

impl QuadTreeNode {
    pub fn new(belongs_to: usize, life: usize, prev_node: Option<usize>, next_node: Option<
        usize,
    >) -> (r: QuadTreeNode)
        ensures
            r == (QuadTreeNode { belongs_to, life, prev_node, next_node }),
    {
        QuadTreeNode { belongs_to, life, prev_node, next_node }
    }
}

/// The depth-limited spatial index. Buckets of every level sit in one flat
/// array, coarsest level first; each registered entity has exactly one node
/// in the arena, threaded into its bucket's doubly linked list.
pub struct QuadTree {
    pub world_width: u32,
    pub world_height: u32,
    pub spaces: Vec<QuadTreeSpace>,
    /// Node arena; a removed node leaves an empty slot behind.
    pub nodes: Vec<Option<QuadTreeNode>>,
    /// Each bucket's membership list in list order, as arena slots.
    pub lists: Ghost<Seq<Seq<usize>>>,
    /// The bucket each registered life handle occupies.
    pub occupancy: Ghost<Map<usize, usize>>,
}

impl QuadTree {
    pub open spec fn field_spec(self) -> Field {
        Field { width: self.world_width, height: self.world_height }
    }

    /// Abstract state: which bucket each registered life handle is in.
    pub open spec fn occ(self) -> Map<usize, usize> {
        self.occupancy@
    }

    pub open spec fn slot_filled(self, i: int) -> bool {
        0 <= i < self.nodes@.len() && self.nodes@[i] is Some
    }

    pub open spec fn node_at(self, i: int) -> QuadTreeNode {
        self.nodes@[i]->0
    }

    pub open spec fn valid_pos(self, b: int, k: int) -> bool {
        0 <= b < self.lists@.len() && 0 <= k < self.lists@[b].len()
    }

    pub open spec fn slot_at(self, b: int, k: int) -> usize {
        self.lists@[b][k]
    }

    pub open spec fn life_at(self, b: int, k: int) -> usize {
        self.node_at(self.slot_at(b, k) as int).life
    }

    /// Position `k` of bucket `b`'s list names a filled arena slot whose
    /// node points at its neighbors and is recorded in the occupancy map.
    pub open spec fn pos_ok(self, b: int, k: int) -> bool {
        let s = self.lists@[b];
        let i = s[k] as int;
        &&& self.slot_filled(i)
        &&& self.node_at(i).belongs_to as int == b
        &&& self.node_at(i).prev_node == (if k == 0 {
            None::<usize>
        } else {
            Some(s[k - 1])
        })
        &&& self.node_at(i).next_node == (if k == s.len() - 1 {
            None::<usize>
        } else {
            Some(s[k + 1])
        })
        &&& self.occ().contains_pair(self.node_at(i).life, self.node_at(i).belongs_to)
    }

    pub open spec fn head_ok(self, b: int) -> bool {
        self.spaces@[b].head_node == (if self.lists@[b].len() == 0 {
            None::<usize>
        } else {
            Some(self.lists@[b][0])
        })
    }

    pub open spec fn in_lists(self, i: int) -> bool {
        exists|b: int, k: int|
            self.valid_pos(b, k) && (#[trigger] self.slot_at(b, k)) as int == i
    }

    pub open spec fn slots_injective(self) -> bool {
        forall|b1: int, k1: int, b2: int, k2: int|
            self.valid_pos(b1, k1) && self.valid_pos(b2, k2) && #[trigger] self.slot_at(b1, k1)
                == #[trigger] self.slot_at(b2, k2) ==> b1 == b2 && k1 == k2
    }

    pub open spec fn lives_injective(self) -> bool {
        forall|b1: int, k1: int, b2: int, k2: int|
            self.valid_pos(b1, k1) && self.valid_pos(b2, k2) && #[trigger] self.life_at(b1, k1)
                == #[trigger] self.life_at(b2, k2) ==> b1 == b2 && k1 == k2
    }

    /// Every registered handle is reachable through some bucket list.
    pub open spec fn occ_backed(self) -> bool {
        forall|l: usize| #[trigger]
            self.occ().dom().contains(l) ==> exists|b: int, k: int|
                self.valid_pos(b, k) && #[trigger] self.life_at(b, k) == l
    }

    pub open spec fn wf(self) -> bool {
        &&& self.world_width > 0
        &&& self.world_height > 0
        &&& self.spaces@.len() == NUM_SPACES
        &&& self.lists@.len() == NUM_SPACES
        &&& (forall|b: int, k: int| self.valid_pos(b, k) ==> #[trigger] self.pos_ok(b, k))
        &&& (forall|b: int| 0 <= b < NUM_SPACES ==> #[trigger] self.head_ok(b))
        &&& (forall|i: int| #[trigger] self.slot_filled(i) ==> self.in_lists(i))
        &&& self.slots_injective()
        &&& self.lives_injective()
        &&& self.occ_backed()
    }

    /// The bucket the index assigns to an entity: Morton-encode the two
    /// bounding-square corners at the finest level and take the quadrant,
    /// at the level where the codes diverge, that holds the up-left corner.
    pub open spec fn bucket_of(self, l: Life) -> int {
        bucket_from_codes(
            point_code(l.up_left_spec(), QUAD_TREE_LEVEL_COUNT as int - 1, self.field_spec()),
            point_code(l.down_right_spec(), QUAD_TREE_LEVEL_COUNT as int - 1, self.field_spec()),
        )
    }

    /// Allocate the flat bucket array: one bucket covering the whole field,
    /// then four times as many per finer level, all initially empty.
    pub fn new(world_width: u32, world_height: u32) -> (r: QuadTree)
        requires
            world_width > 0,
            world_height > 0,
        ensures
            r.wf(),
            r.world_width == world_width,
            r.world_height == world_height,
            r.occ() == Map::<usize, usize>::empty(),
            r.nodes@.len() == 0,
    {
        let mut spaces: Vec<QuadTreeSpace> = Vec::new();
        let ghost glists: Seq<Seq<usize>> = Seq::empty();
        let mut lists: Ghost<Seq<Seq<usize>>> = Ghost(glists);
        let mut i: u32 = 0;
        while i < QUAD_TREE_LEVEL_COUNT
            invariant
                i <= QUAD_TREE_LEVEL_COUNT,
                spaces@.len() == level_offset(i as int),
                lists@.len() == spaces@.len(),
                forall|b: int|
                    0 <= b < spaces@.len() ==> (#[trigger] spaces@[b].head_node) is None,
                forall|b: int| 0 <= b < lists@.len() ==> (#[trigger] lists@[b]).len() == 0,
            decreases QUAD_TREE_LEVEL_COUNT - i,
        {
            let side: u32 = pow2_exec(i);
            proof {
                assert(side as int * side as int <= 64) by (nonlinear_arith)
                    requires
                        side <= 8,
                ;
            }
            let count: u32 = side * side;
            proof {
                lemma_pow4_square(i as int);
                assert(count as int == pow4(i as int));
            }
            let mut j: u32 = 0;
            while j < count
                invariant
                    j <= count,
                    i < QUAD_TREE_LEVEL_COUNT,
                    count as int == pow4(i as int),
                    spaces@.len() == level_offset(i as int) + j as int,
                    lists@.len() == spaces@.len(),
                    forall|b: int|
                        0 <= b < spaces@.len() ==> (#[trigger] spaces@[b].head_node) is None,
                    forall|b: int| 0 <= b < lists@.len() ==> (#[trigger] lists@[b]).len() == 0,
                decreases count - j,
            {
                spaces.push(QuadTreeSpace { head_node: None });
                lists = Ghost(lists@.push(Seq::empty()));
                j = j + 1;
            }
            i = i + 1;
        }
        proof {
            reveal_with_fuel(level_offset, 5);
            reveal_with_fuel(pow4, 5);
            assert(spaces@.len() == NUM_SPACES);
        }
        let r = QuadTree {
            world_width,
            world_height,
            spaces,
            nodes: Vec::new(),
            lists,
            occupancy: Ghost(Map::empty()),
        };
        proof {
            assert forall|b: int, k: int| r.valid_pos(b, k) implies r.pos_ok(b, k) by {
                assert(r.lists@[b].len() == 0);
            }
            assert forall|b: int| 0 <= b < NUM_SPACES implies r.head_ok(b) by {
                assert(r.spaces@[b].head_node is None);
                assert(r.lists@[b].len() == 0);
            }
        }
        r
    }

    /// Bucket index for an entity, by the XOR-of-corner-codes rule: encode
    /// both corners, XOR the codes, and the highest nonzero two-bit group
    /// picks the level; the up-left corner's code picks the quadrant there.
    pub fn get_belongs_to_space_index(&self, life: &Life) -> (idx: usize)
        requires
            self.world_width > 0,
            self.world_height > 0,
            life.in_bounds(self.field_spec()),
        ensures
            idx as int == self.bucket_of(*life),
            idx < NUM_SPACES,
    {
        let field = Field { width: self.world_width, height: self.world_height };
        let max_level: u32 = QUAD_TREE_LEVEL_COUNT - 1;
        let up_left = life.get_up_left_point();
        let down_right = life.get_down_right_point();
        let mu: u32 = up_left.to_quad_tree_index(max_level, &field);
        let md: u32 = down_right.to_quad_tree_index(max_level, &field);
        proof {
            reveal_with_fuel(pow4, 5);
            assert(mu < 64 && md < 64);
        }
        let xor: u32 = mu ^ md;
        let idx: usize = if xor == 0 {
            21 + mu as usize
        } else if xor < 4 {
            5 + (mu / 4) as usize
        } else if xor < 16 {
            1 + (mu / 16) as usize
        } else {
            0
        };
        proof {
            reveal_with_fuel(level_offset, 5);
            reveal_with_fuel(pow4, 5);
            assert(level_offset(3) == 21 && level_offset(2) == 5 && level_offset(1) == 1
                && level_offset(0) == 0);
            assert(pow4(0) == 1 && pow4(1) == 4 && pow4(2) == 16 && pow4(3) == 64);
            lemma_xor_group(mu, md);
            if xor == 0 {
                assert(diverge_level(mu as int, md as int) == 3);
                assert(bucket_from_codes(mu as int, md as int) == level_offset(3) + mu as int
                    / pow4(0));
            } else if xor < 4 {
                assert(diverge_level(mu as int, md as int) == 2);
            } else if xor < 16 {
                assert(diverge_level(mu as int, md as int) == 1);
            } else {
                assert(diverge_level(mu as int, md as int) == 0);
                assert(mu as int / 64 == 0);
            }
            assert(idx as int == bucket_from_codes(mu as int, md as int));
        }
        idx
    }

    /// Thread a node for `life_handle` into bucket `b` at slot `h`, which
    /// must be an empty arena slot, linking it in at the head of the list.
    fn attach_at(&mut self, h: usize, life_handle: usize, b: usize)
        requires
            old(self).wf(),
            h < old(self).nodes@.len(),
            old(self).nodes@[h as int] is None,
            b < NUM_SPACES,
            !old(self).occ().dom().contains(life_handle),
        ensures
            final(self).wf(),
            final(self).occ() == old(self).occ().insert(life_handle, b),
            final(self).world_width == old(self).world_width,
            final(self).world_height == old(self).world_height,
            final(self).nodes@.len() == old(self).nodes@.len(),
            final(self).slot_filled(h as int),
            final(self).node_at(h as int).life == life_handle,
            final(self).node_at(h as int).belongs_to == b,
            forall|i: int|
                0 <= i < old(self).nodes@.len() && i != h as int ==> (((#[trigger] final(self).nodes@[i]) is Some
                    <==> old(self).nodes@[i] is Some) && (old(self).nodes@[i] is Some
                    ==> final(self).node_at(i).life == old(self).node_at(i).life
                        && final(self).node_at(i).belongs_to == old(self).node_at(i).belongs_to)),
    {
        proof {
            assert(old(self).head_ok(b as int));
            if old(self).lists@[b as int].len() > 0 {
                assert(old(self).pos_ok(b as int, 0));
            }
        }
        let old_head: Option<usize> = self.spaces[b].head_node;
        self.nodes.set(
            h,
            Some(
                QuadTreeNode {
                    belongs_to: b,
                    life: life_handle,
                    prev_node: None,
                    next_node: old_head,
                },
            ),
        );
        if let Some(second) = old_head {
            let mut sn: QuadTreeNode = self.nodes[second].unwrap();
            sn.prev_node = Some(h);
            self.nodes.set(second, Some(sn));
        }
        self.spaces.set(b, QuadTreeSpace { head_node: Some(h) });
        self.lists = Ghost(self.lists@.update(b as int, seq![h] + self.lists@[b as int]));
        self.occupancy = Ghost(self.occupancy@.insert(life_handle, b));
        proof {
            let olds = *old(self);
            let news = *self;
            let bb = b as int;
            let s_old = olds.lists@[bb];
            let s_new = news.lists@[bb];
            assert(s_new =~= seq![h] + s_old);
            assert(s_new.len() == s_old.len() + 1);
            assert(s_new[0] == h);
            assert(forall|k: int| 0 <= k < s_old.len() ==> s_new[k + 1] == #[trigger] s_old[k]);

            assert forall|b2: int, k2: int| news.valid_pos(b2, k2) implies news.pos_ok(
                b2,
                k2,
            ) by {
                if b2 == bb {
                    if k2 == 0 {
                        assert(news.slot_at(bb, 0) == h);
                        if s_old.len() > 0 {
                            assert(olds.pos_ok(bb, 0));
                        }
                    } else {
                        assert(olds.pos_ok(bb, k2 - 1));
                        if k2 - 1 > 0 {
                            assert(olds.pos_ok(bb, 0));
                            if olds.slot_at(bb, k2 - 1) == olds.slot_at(bb, 0) {
                                assert(false);
                            }
                        }
                    }
                } else {
                    assert(olds.valid_pos(b2, k2));
                    assert(olds.pos_ok(b2, k2));
                    if s_old.len() > 0 {
                        assert(olds.pos_ok(bb, 0));
                        if olds.slot_at(b2, k2) == olds.slot_at(bb, 0) {
                            assert(false);
                        }
                    }
                }
            }

            assert forall|b2: int| 0 <= b2 < NUM_SPACES implies news.head_ok(b2) by {
                if b2 != bb {
                    assert(olds.head_ok(b2));
                }
            }

            assert forall|i: int| news.slot_filled(i) implies news.in_lists(i) by {
                if i == h as int {
                    assert(news.valid_pos(bb, 0) && news.slot_at(bb, 0) as int == i);
                } else {
                    assert(olds.slot_filled(i));
                    let (b0, k0) = choose|b0: int, k0: int|
                        olds.valid_pos(b0, k0) && (#[trigger] olds.slot_at(b0, k0)) as int == i;
                    if b0 == bb {
                        assert(news.valid_pos(bb, k0 + 1) && news.slot_at(bb, k0 + 1) as int
                            == i);
                    } else {
                        assert(news.valid_pos(b0, k0) && news.slot_at(b0, k0) as int == i);
                    }
                }
            }

            assert forall|b1: int, k1: int, b2: int, k2: int|
                news.valid_pos(b1, k1) && news.valid_pos(b2, k2) && news.slot_at(b1, k1)
                    == news.slot_at(b2, k2) implies b1 == b2 && k1 == k2 by {
                let n1 = if b1 == bb {
                    k1 - 1
                } else {
                    k1
                };
                let n2 = if b2 == bb {
                    k2 - 1
                } else {
                    k2
                };
                if b1 == bb && k1 == 0 {
                    if !(b2 == bb && k2 == 0) {
                        assert(olds.valid_pos(b2, n2));
                        assert(olds.pos_ok(b2, n2));
                        assert(olds.slot_at(b2, n2) == h);
                        assert(false);
                    }
                } else if b2 == bb && k2 == 0 {
                    assert(olds.valid_pos(b1, n1));
                    assert(olds.pos_ok(b1, n1));
                    assert(olds.slot_at(b1, n1) == h);
                    assert(false);
                } else {
                    assert(olds.valid_pos(b1, n1) && olds.valid_pos(b2, n2));
                    assert(olds.slot_at(b1, n1) == olds.slot_at(b2, n2));
                }
            }

            assert forall|b1: int, k1: int, b2: int, k2: int|
                news.valid_pos(b1, k1) && news.valid_pos(b2, k2) && news.life_at(b1, k1)
                    == news.life_at(b2, k2) implies b1 == b2 && k1 == k2 by {
                let n1 = if b1 == bb {
                    k1 - 1
                } else {
                    k1
                };
                let n2 = if b2 == bb {
                    k2 - 1
                } else {
                    k2
                };
                if b1 == bb && k1 == 0 {
                    if !(b2 == bb && k2 == 0) {
                        assert(olds.valid_pos(b2, n2));
                        assert(olds.pos_ok(b2, n2));
                        assert(olds.life_at(b2, n2) == life_handle);
                        assert(olds.occ().dom().contains(life_handle));
                        assert(false);
                    }
                } else if b2 == bb && k2 == 0 {
                    assert(olds.valid_pos(b1, n1));
                    assert(olds.pos_ok(b1, n1));
                    assert(olds.life_at(b1, n1) == life_handle);
                    assert(olds.occ().dom().contains(life_handle));
                    assert(false);
                } else {
                    assert(olds.valid_pos(b1, n1) && olds.valid_pos(b2, n2));
                    assert(olds.pos_ok(b1, n1));
                    assert(olds.pos_ok(b2, n2));
                    assert(news.life_at(b1, k1) == olds.life_at(b1, n1));
                    assert(news.life_at(b2, k2) == olds.life_at(b2, n2));
                    assert(olds.life_at(b1, n1) == olds.life_at(b2, n2));
                }
            }

            assert forall|l: usize| news.occ().dom().contains(l) implies exists|b0: int, k0: int|
                news.valid_pos(b0, k0) && #[trigger] news.life_at(b0, k0) == l by {
                if l == life_handle {
                    assert(news.valid_pos(bb, 0) && news.life_at(bb, 0) == l);
                } else {
                    assert(olds.occ().dom().contains(l));
                    let (b0, k0) = choose|b0: int, k0: int|
                        olds.valid_pos(b0, k0) && #[trigger] olds.life_at(b0, k0) == l;
                    assert(olds.pos_ok(b0, k0));
                    if b0 == bb {
                        assert(news.valid_pos(bb, k0 + 1) && news.life_at(bb, k0 + 1) == l);
                    } else {
                        assert(news.valid_pos(b0, k0) && news.life_at(b0, k0) == l);
                    }
                }
            }
        }
    }

    /// Register an entity under its handle: compute its bucket from the
    /// bounding-square corners and insert a fresh node at the head of that
    /// bucket's list. Returns the node handle.
    pub fn add_member(&mut self, life_handle: usize, life: &Life) -> (h: usize)
        requires
            old(self).wf(),
            life.in_bounds(old(self).field_spec()),
            !old(self).occ().dom().contains(life_handle),
        ensures
            final(self).wf(),
            final(self).occ() == old(self).occ().insert(
                life_handle,
                old(self).bucket_of(*life) as usize,
            ),
            final(self).world_width == old(self).world_width,
            final(self).world_height == old(self).world_height,
            h == old(self).nodes@.len(),
            final(self).nodes@.len() == old(self).nodes@.len() + 1,
            final(self).slot_filled(h as int),
            final(self).node_at(h as int).life == life_handle,
            final(self).node_at(h as int).belongs_to as int == old(self).bucket_of(*life),
            forall|i: int|
                0 <= i < old(self).nodes@.len() ==> (((#[trigger] final(self).nodes@[i]) is Some
                    <==> old(self).nodes@[i] is Some) && (old(self).nodes@[i] is Some
                    ==> final(self).node_at(i).life == old(self).node_at(i).life
                        && final(self).node_at(i).belongs_to == old(self).node_at(i).belongs_to)),
    {
        let b = self.get_belongs_to_space_index(life);
        let h = self.nodes.len();
        self.nodes.push(None);
        proof {
            let olds = *old(self);
            let mids = *self;
            assert(mids.nodes@ =~= olds.nodes@.push(None));
            assert forall|b2: int, k2: int| mids.valid_pos(b2, k2) implies mids.pos_ok(
                b2,
                k2,
            ) by {
                assert(olds.pos_ok(b2, k2));
            }
            assert forall|b2: int| 0 <= b2 < NUM_SPACES implies mids.head_ok(b2) by {
                assert(olds.head_ok(b2));
            }
            assert forall|i: int| mids.slot_filled(i) implies mids.in_lists(i) by {
                assert(olds.slot_filled(i));
                let (b0, k0) = choose|b0: int, k0: int|
                    olds.valid_pos(b0, k0) && (#[trigger] olds.slot_at(b0, k0)) as int == i;
                assert(mids.valid_pos(b0, k0) && mids.slot_at(b0, k0) as int == i);
            }
            assert forall|b1: int, k1: int, b2: int, k2: int|
                mids.valid_pos(b1, k1) && mids.valid_pos(b2, k2) && mids.slot_at(b1, k1)
                    == mids.slot_at(b2, k2) implies b1 == b2 && k1 == k2 by {
                assert(olds.slot_at(b1, k1) == olds.slot_at(b2, k2));
            }
            assert forall|b1: int, k1: int, b2: int, k2: int|
                mids.valid_pos(b1, k1) && mids.valid_pos(b2, k2) && mids.life_at(b1, k1)
                    == mids.life_at(b2, k2) implies b1 == b2 && k1 == k2 by {
                assert(olds.pos_ok(b1, k1));
                assert(olds.pos_ok(b2, k2));
                assert(mids.life_at(b1, k1) == olds.life_at(b1, k1));
                assert(mids.life_at(b2, k2) == olds.life_at(b2, k2));
                assert(olds.life_at(b1, k1) == olds.life_at(b2, k2));
            }
            assert forall|l: usize| mids.occ().dom().contains(l) implies exists|b0: int, k0: int|
                mids.valid_pos(b0, k0) && #[trigger] mids.life_at(b0, k0) == l by {
                let (b0, k0) = choose|b0: int, k0: int|
                    olds.valid_pos(b0, k0) && #[trigger] olds.life_at(b0, k0) == l;
                assert(olds.pos_ok(b0, k0));
                assert(mids.valid_pos(b0, k0) && mids.life_at(b0, k0) == l);
            }
            assert(mids.wf());
        }
        self.attach_at(h, life_handle, b);
        h
    }
    /// Unlink the node with handle `h` in constant time, using its stored
    /// neighbor links and bucket back-reference, and clear its arena slot;
    /// the bucket's head pointer is corrected when the node was the head.
    #[verifier::rlimit(60)]
    pub fn remove_member(&mut self, h: usize)
        requires
            old(self).wf(),
            old(self).slot_filled(h as int),
        ensures
            final(self).wf(),
            final(self).occ() == old(self).occ().remove(old(self).node_at(h as int).life),
            final(self).world_width == old(self).world_width,
            final(self).world_height == old(self).world_height,
            final(self).nodes@.len() == old(self).nodes@.len(),
            final(self).nodes@[h as int] is None,
            forall|i: int|
                0 <= i < old(self).nodes@.len() && i != h as int ==> (((#[trigger] final(self).nodes@[i]) is Some
                    <==> old(self).nodes@[i] is Some) && (old(self).nodes@[i] is Some
                    ==> final(self).node_at(i).life == old(self).node_at(i).life
                        && final(self).node_at(i).belongs_to == old(self).node_at(i).belongs_to)),
    {
        let node: QuadTreeNode = self.nodes[h].unwrap();
        let b: usize = node.belongs_to;
        proof {
            assert(old(self).slot_filled(h as int));
            assert(old(self).in_lists(h as int));
            let (b0, k0) = choose|b0: int, k0: int|
                old(self).valid_pos(b0, k0) && (#[trigger] old(self).slot_at(b0, k0)) as int
                    == h as int;
            assert(old(self).pos_ok(b0, k0));
            assert(b0 == b as int);
            assert(old(self).valid_pos(b as int, k0) && old(self).slot_at(b as int, k0) as int
                == h as int);
        }
        let ghost gk: int = choose|k0: int|
            old(self).valid_pos(b as int, k0) && (#[trigger] old(self).slot_at(b as int, k0))
                as int == h as int;
        proof {
            let olds = *old(self);
            let bb = b as int;
            let s_old = olds.lists@[bb];
            assert(olds.valid_pos(bb, gk) && olds.slot_at(bb, gk) as int == h as int);
            assert(olds.pos_ok(bb, gk));
            if node.prev_node is Some {
                assert(gk > 0);
                assert(olds.pos_ok(bb, gk - 1));
            }
            if node.next_node is Some {
                assert(gk < s_old.len() - 1);
                assert(olds.pos_ok(bb, gk + 1));
            }
            if node.prev_node is Some && node.next_node is Some {
                if olds.slot_at(bb, gk - 1) == olds.slot_at(bb, gk + 1) {
                    assert(false);
                }
            }
        }
        match node.prev_node {
            None => {
                self.spaces.set(b, QuadTreeSpace { head_node: node.next_node });
            },
            Some(p) => {
                let mut pn: QuadTreeNode = self.nodes[p].unwrap();
                pn.next_node = node.next_node;
                self.nodes.set(p, Some(pn));
            },
        }
        match node.next_node {
            None => {},
            Some(nx) => {
                let mut xn: QuadTreeNode = self.nodes[nx].unwrap();
                xn.prev_node = node.prev_node;
                self.nodes.set(nx, Some(xn));
            },
        }
        self.nodes.set(h, None);
        self.lists = Ghost(
            self.lists@.update(
                b as int,
                self.lists@[b as int].subrange(0, gk) + self.lists@[b as int].subrange(
                    gk + 1,
                    self.lists@[b as int].len() as int,
                ),
            ),
        );
        self.occupancy = Ghost(self.occupancy@.remove(node.life));
        proof {
            let olds = *old(self);
            let news = *self;
            let bb = b as int;
            let s_old = olds.lists@[bb];
            let s_new = news.lists@[bb];
            assert(s_new.len() == s_old.len() - 1);
            assert(forall|j: int| 0 <= j < gk ==> #[trigger] s_new[j] == s_old[j]);
            assert(forall|j: int| gk <= j < s_new.len() ==> #[trigger] s_new[j] == s_old[j + 1]);

            assert forall|i: int|
                0 <= i < olds.nodes@.len() && i != h as int implies ((news.nodes@[i] is Some
                <==> olds.nodes@[i] is Some) && (olds.nodes@[i] is Some ==> news.node_at(i).life
                == olds.node_at(i).life && news.node_at(i).belongs_to == olds.node_at(
                i,
            ).belongs_to)) by {}

            assert forall|b2: int, k2: int| news.valid_pos(b2, k2) implies news.pos_ok(
                b2,
                k2,
            ) by {
                if b2 == bb {
                    let ok2 = if k2 < gk {
                        k2
                    } else {
                        k2 + 1
                    };
                    assert(olds.pos_ok(bb, ok2));
                    assert(olds.pos_ok(bb, gk));
                    if k2 > 0 {
                        let okm = if k2 - 1 < gk {
                            k2 - 1
                        } else {
                            k2
                        };
                        assert(olds.pos_ok(bb, okm));
                    }
                    if k2 < s_new.len() - 1 {
                        let okp = if k2 + 1 < gk {
                            k2 + 1
                        } else {
                            k2 + 2
                        };
                        assert(olds.pos_ok(bb, okp));
                    }
                    if olds.slot_at(bb, ok2) == olds.slot_at(bb, gk) {
                        assert(false);
                    }
                    if ok2 != gk - 1 && gk > 0 && olds.slot_at(bb, ok2) == olds.slot_at(
                        bb,
                        gk - 1,
                    ) {
                        assert(false);
                    }
                    if ok2 != gk + 1 && gk < s_old.len() - 1 && olds.slot_at(bb, ok2)
                        == olds.slot_at(bb, gk + 1) {
                        assert(false);
                    }
                    if olds.life_at(bb, ok2) == olds.life_at(bb, gk) {
                        assert(false);
                    }
                } else {
                    assert(olds.pos_ok(b2, k2));
                    assert(olds.pos_ok(bb, gk));
                    if olds.slot_at(b2, k2) == olds.slot_at(bb, gk) {
                        assert(false);
                    }
                    if gk > 0 && olds.slot_at(b2, k2) == olds.slot_at(bb, gk - 1) {
                        assert(false);
                    }
                    if gk < s_old.len() - 1 && olds.slot_at(b2, k2) == olds.slot_at(
                        bb,
                        gk + 1,
                    ) {
                        assert(false);
                    }
                    if olds.life_at(b2, k2) == olds.life_at(bb, gk) {
                        assert(false);
                    }
                }
            }

            assert forall|b2: int| 0 <= b2 < NUM_SPACES implies news.head_ok(b2) by {
                assert(olds.head_ok(b2));
                if b2 == bb && gk > 0 {
                    assert(olds.pos_ok(bb, 0));
                    if olds.slot_at(bb, 0) == olds.slot_at(bb, gk) {
                        assert(false);
                    }
                }
            }

            assert forall|i: int| news.slot_filled(i) implies news.in_lists(i) by {
                assert(olds.slot_filled(i));
                let (b0, k0) = choose|b0: int, k0: int|
                    olds.valid_pos(b0, k0) && (#[trigger] olds.slot_at(b0, k0)) as int == i;
                if b0 == bb {
                    if k0 == gk {
                        assert(false);
                    } else if k0 < gk {
                        assert(news.valid_pos(bb, k0) && news.slot_at(bb, k0) as int == i);
                    } else {
                        assert(news.valid_pos(bb, k0 - 1) && news.slot_at(bb, k0 - 1) as int
                            == i);
                    }
                } else {
                    assert(news.valid_pos(b0, k0) && news.slot_at(b0, k0) as int == i);
                }
            }

            assert forall|b1: int, k1: int, b2: int, k2: int|
                news.valid_pos(b1, k1) && news.valid_pos(b2, k2) && news.slot_at(b1, k1)
                    == news.slot_at(b2, k2) implies b1 == b2 && k1 == k2 by {
                let o1 = if b1 == bb && k1 >= gk {
                    k1 + 1
                } else {
                    k1
                };
                let o2 = if b2 == bb && k2 >= gk {
                    k2 + 1
                } else {
                    k2
                };
                assert(olds.valid_pos(b1, o1) && olds.valid_pos(b2, o2));
                assert(news.slot_at(b1, k1) == olds.slot_at(b1, o1));
                assert(news.slot_at(b2, k2) == olds.slot_at(b2, o2));
                assert(olds.slot_at(b1, o1) == olds.slot_at(b2, o2));
            }

            assert forall|b1: int, k1: int, b2: int, k2: int|
                news.valid_pos(b1, k1) && news.valid_pos(b2, k2) && news.life_at(b1, k1)
                    == news.life_at(b2, k2) implies b1 == b2 && k1 == k2 by {
                let o1 = if b1 == bb && k1 >= gk {
                    k1 + 1
                } else {
                    k1
                };
                let o2 = if b2 == bb && k2 >= gk {
                    k2 + 1
                } else {
                    k2
                };
                assert(olds.valid_pos(b1, o1) && olds.valid_pos(b2, o2));
                assert(olds.pos_ok(b1, o1));
                assert(olds.pos_ok(b2, o2));
                assert(news.life_at(b1, k1) == olds.life_at(b1, o1));
                assert(news.life_at(b2, k2) == olds.life_at(b2, o2));
                assert(olds.life_at(b1, o1) == olds.life_at(b2, o2));
            }

            assert forall|l: usize| news.occ().dom().contains(l) implies exists|b0: int, k0: int|
                news.valid_pos(b0, k0) && #[trigger] news.life_at(b0, k0) == l by {
                assert(olds.occ().dom().contains(l));
                let (b0, k0) = choose|b0: int, k0: int|
                    olds.valid_pos(b0, k0) && #[trigger] olds.life_at(b0, k0) == l;
                assert(olds.pos_ok(b0, k0));
                assert(olds.pos_ok(bb, gk));
                if b0 == bb && k0 == gk {
                    assert(false);
                } else if b0 == bb && k0 > gk {
                    assert(news.valid_pos(bb, k0 - 1) && news.life_at(bb, k0 - 1) == l);
                } else {
                    assert(news.valid_pos(b0, k0) && news.life_at(b0, k0) == l);
                }
            }
        }
    }

    /// The life handles in bucket `b`'s list, in list order.
    pub open spec fn bucket_lives(self, b: int) -> Seq<usize> {
        self.lists@[b].map(|k: int, i: usize| self.nodes@[i as int]->0.life)
    }

    /// Bucket lists and the occupancy map agree: a handle appears in bucket
    /// `b`'s list exactly when the map sends it to `b`, and then at exactly
    /// one position.
    pub proof fn lemma_bucket_lives(self, b: int)
        requires
            self.wf(),
            0 <= b < NUM_SPACES,
        ensures
            forall|l: usize| #[trigger]
                self.bucket_lives(b).contains(l) <==> self.occ().contains_pair(l, b as usize),
            forall|i: int, j: int|
                0 <= i < j < self.bucket_lives(b).len() ==> self.bucket_lives(b)[i]
                    != self.bucket_lives(b)[j],
    {
        let s = self.bucket_lives(b);
        assert forall|l: usize| #[trigger]
            s.contains(l) <==> self.occ().contains_pair(l, b as usize) by {
            if s.contains(l) {
                let k = choose|k: int| 0 <= k < s.len() && s[k] == l;
                assert(self.pos_ok(b, k));
                assert(self.life_at(b, k) == l);
            }
            if self.occ().contains_pair(l, b as usize) {
                assert(self.occ().dom().contains(l));
                let (b2, k2) = choose|b2: int, k2: int|
                    self.valid_pos(b2, k2) && #[trigger] self.life_at(b2, k2) == l;
                assert(self.pos_ok(b2, k2));
                assert(b2 == b);
                assert(s[k2] == l);
                assert(s.contains(l));
            }
        }
        assert forall|i: int, j: int| 0 <= i < j < s.len() implies s[i] != s[j] by {
            if self.life_at(b, i) == self.life_at(b, j) {
                assert(false);
            }
        }
    }

    /// The life handles registered in bucket `b`, read by walking its
    /// doubly linked list from the head.
    pub fn members_of(&self, b: usize) -> (r: Vec<usize>)
        requires
            self.wf(),
            b < NUM_SPACES,
        ensures
            r@ == self.bucket_lives(b as int),
    {
        proof {
            assert(self.head_ok(b as int));
        }
        let mut r: Vec<usize> = Vec::new();
        let mut cur: Option<usize> = self.spaces[b].head_node;
        let ghost mut k: int = 0;
        while cur.is_some()
            invariant
                self.wf(),
                b < NUM_SPACES,
                0 <= k <= self.lists@[b as int].len(),
                r@ == self.bucket_lives(b as int).take(k),
                cur == (if k == self.lists@[b as int].len() {
                    None::<usize>
                } else {
                    Some(self.lists@[b as int][k])
                }),
            decreases self.lists@[b as int].len() - k,
        {
            let i: usize = cur.unwrap();
            proof {
                assert(self.pos_ok(b as int, k));
            }
            let n: QuadTreeNode = self.nodes[i].unwrap();
            r.push(n.life);
            cur = n.next_node;
            proof {
                k = k + 1;
                assert(r@ =~= self.bucket_lives(b as int).take(k));
            }
        }
        proof {
            assert(k == self.lists@[b as int].len());
            assert(self.bucket_lives(b as int).take(k) =~= self.bucket_lives(b as int));
        }
        r
    }

    /// Number of entities currently registered: the filled arena slots.
    pub fn member_count(&self) -> (r: usize)
        requires
            self.wf(),
        ensures
            r as int == filled_count(self.nodes@),
            r == 0 ==> self.occ() == Map::<usize, usize>::empty(),
    {
        let mut r: usize = 0;
        let n = self.nodes.len();
        proof {
            lemma_filled_count_facts(self.nodes@);
        }
        for i in 0..n
            invariant
                n == self.nodes@.len(),
                r as int == filled_count(self.nodes@.take(i as int)),
                r <= i,
        {
            proof {
                assert(self.nodes@.take(i as int + 1).drop_last() =~= self.nodes@.take(i as int));
                assert(self.nodes@.take(i as int + 1).last() == self.nodes@[i as int]);
                lemma_filled_count_facts(self.nodes@.take(i as int));
            }
            if self.nodes[i].is_some() {
                r = r + 1;
            }
        }
        proof {
            assert(self.nodes@.take(n as int) =~= self.nodes@);
            if r == 0 {
                lemma_filled_count_facts(self.nodes@);
                assert forall|l: usize| !(#[trigger] self.occ().dom().contains(l)) by {
                    if self.occ().dom().contains(l) {
                        let (b2, k2) = choose|b2: int, k2: int|
                            self.valid_pos(b2, k2) && #[trigger] self.life_at(b2, k2) == l;
                        assert(self.pos_ok(b2, k2));
                        assert(false);
                    }
                }
                assert(self.occ() =~= Map::<usize, usize>::empty());
            }
        }
        r
    }

    /// A registered handle's bucket is a valid bucket index.
    pub proof fn lemma_occ_value(self, l: usize)
        requires
            self.wf(),
            self.occ().dom().contains(l),
        ensures
            (self.occ()[l] as int) < NUM_SPACES as int,
            self.occ().contains_pair(l, self.occ()[l]),
    {
        let (b2, k2) = choose|b2: int, k2: int|
            self.valid_pos(b2, k2) && #[trigger] self.life_at(b2, k2) == l;
        assert(self.pos_ok(b2, k2));
    }

    /// Append the members of bucket `a` to `r`.
    fn append_bucket(&self, a: usize, r: &mut Vec<usize>)
        requires
            self.wf(),
            a < NUM_SPACES,
        ensures
            final(r)@ == old(r)@ + self.bucket_lives(a as int),
            forall|l: usize| #[trigger]
                final(r)@.contains(l) <==> (old(r)@.contains(l) || self.occ().contains_pair(
                    l,
                    a as usize,
                )),
    {
        let mut m: Vec<usize> = self.members_of(a);
        proof {
            self.lemma_bucket_lives(a as int);
        }
        let ghost rold = r@;
        let ghost mseq = m@;
        r.append(&mut m);
        proof {
            assert forall|l: usize| #[trigger]
                r@.contains(l) <==> (rold.contains(l) || self.occ().contains_pair(
                    l,
                    a as usize,
                )) by {
                if r@.contains(l) {
                    let idx = choose|idx: int| 0 <= idx < r@.len() && r@[idx] == l;
                    if idx < rold.len() {
                        assert(rold[idx] == l);
                        assert(rold.contains(l));
                    } else {
                        assert(mseq[idx - rold.len()] == l);
                        assert(mseq.contains(l));
                    }
                }
                if rold.contains(l) {
                    let idx = choose|idx: int| 0 <= idx < rold.len() && rold[idx] == l;
                    assert(r@[idx] == l);
                    assert(r@.contains(l));
                }
                if mseq.contains(l) {
                    let idx = choose|idx: int| 0 <= idx < mseq.len() && mseq[idx] == l;
                    assert(r@[rold.len() + idx] == l);
                    assert(r@.contains(l));
                }
            }
        }
    }

    /// Every entity that could plausibly collide with the one at node `h`:
    /// the members of its own bucket, of every ancestor bucket up to the
    /// root, and of every descendant bucket inside its quadrant — exactly
    /// the entities registered in a relevant bucket, each listed once.
    #[verifier::rlimit(60)]
    pub fn candidates_for(&self, h: usize) -> (r: Vec<usize>)
        requires
            self.wf(),
            self.slot_filled(h as int),
        ensures
            forall|l: usize| #[trigger]
                r@.contains(l) <==> (self.occ().dom().contains(l) && relevant(
                    self.node_at(h as int).belongs_to as int,
                    self.occ()[l] as int,
                )),
            forall|i1: int, i2: int| 0 <= i1 < i2 < r@.len() ==> r@[i1] != r@[i2],
    {
        let node: QuadTreeNode = self.nodes[h].unwrap();
        let b0: usize = node.belongs_to;
        proof {
            assert(self.in_lists(h as int));
            let (bx, kx) = choose|bx: int, kx: int|
                self.valid_pos(bx, kx) && (#[trigger] self.slot_at(bx, kx)) as int == h as int;
            assert(self.pos_ok(bx, kx));
            assert(b0 as int == bx);
            lemma_bucket_decompose(b0 as int);
        }
        let l0: u32 = level_of_bucket_exec(b0);
        let off0: usize = level_offset_exec(l0);
        let q0: usize = b0 - off0;
        let mut r: Vec<usize> = Vec::new();
        let mut j: u32 = 0;
        while j < QUAD_TREE_LEVEL_COUNT
            invariant
                self.wf(),
                self.slot_filled(h as int),
                b0 == self.node_at(h as int).belongs_to,
                b0 < NUM_SPACES,
                l0 as int == level_of_bucket(b0 as int),
                l0 <= 3,
                off0 as int == level_offset(l0 as int),
                q0 as int == quad_of_bucket(b0 as int),
                (q0 as int) < pow4(l0 as int),
                j <= QUAD_TREE_LEVEL_COUNT,
                forall|l: usize| #[trigger]
                    r@.contains(l) <==> (self.occ().dom().contains(l) && relevant(
                        b0 as int,
                        self.occ()[l] as int,
                    ) && level_of_bucket(self.occ()[l] as int) < j as int),
                forall|i1: int, i2: int| 0 <= i1 < i2 < r@.len() ==> r@[i1] != r@[i2],
            decreases QUAD_TREE_LEVEL_COUNT - j,
        {
            let ghost rprev = r@;
            if j <= l0 {
                let po: usize = pow4_exec(l0 - j);
                proof {
                    lemma_pow4_add(j as int, l0 as int - j as int);
                    assert((q0 as int) / (po as int) < pow4(j as int)) by (nonlinear_arith)
                        requires
                            (q0 as int) < pow4(j as int) * (po as int) && po as int >= 1,
                    ;
                    lemma_level_compose(j as int, q0 as int / po as int);
                }
                let a: usize = level_offset_exec(j) + q0 / po;
                proof {
                    assert(a < NUM_SPACES);
                    assert(level_of_bucket(a as int) == j as int);
                    assert(quad_of_bucket(a as int) == q0 as int / po as int);
                    assert(covers(a as int, b0 as int));
                    assert(relevant(b0 as int, a as int));
                }
                self.append_bucket(a, &mut r);
                proof {
                    assert forall|l: usize| #[trigger]
                        r@.contains(l) <==> (self.occ().dom().contains(l) && relevant(
                            b0 as int,
                            self.occ()[l] as int,
                        ) && level_of_bucket(self.occ()[l] as int) < j as int + 1) by {
                        if r@.contains(l) {
                            if self.occ().contains_pair(l, a as usize) {
                                assert(self.occ().dom().contains(l));
                                assert(self.occ()[l] == a);
                            } else {
                                assert(rprev.contains(l));
                            }
                        }
                        if self.occ().dom().contains(l) && relevant(
                            b0 as int,
                            self.occ()[l] as int,
                        ) && level_of_bucket(self.occ()[l] as int) < j as int + 1 {
                            if level_of_bucket(self.occ()[l] as int) < j as int {
                                assert(rprev.contains(l));
                                assert(r@.contains(l));
                            } else {
                                let b = self.occ()[l] as int;
                                self.lemma_occ_value(l);
                                lemma_bucket_decompose(b);
                                reveal_with_fuel(pow4, 2);
                                if covers(b, b0 as int) {
                                    assert(quad_of_bucket(b) == q0 as int / po as int);
                                    assert(b == a as int);
                                } else {
                                    assert(covers(b0 as int, b));
                                    assert(level_of_bucket(b) == l0 as int);
                                    assert(j as int == l0 as int);
                                    assert(po as int == pow4(0));
                                    assert(quad_of_bucket(b) == q0 as int);
                                    assert(b == b0 as int);
                                    assert(a as int == b0 as int);
                                }
                                assert(self.occ().contains_pair(l, a as usize));
                                assert(r@.contains(l));
                            }
                        }
                    }
                    assert forall|i1: int, i2: int| 0 <= i1 < i2 < r@.len() implies r@[i1]
                        != r@[i2] by {
                        let la = self.bucket_lives(a as int);
                        self.lemma_bucket_lives(a as int);
                        if i2 < rprev.len() {
                        } else if i1 >= rprev.len() {
                            assert(la[i1 - rprev.len()] != la[i2 - rprev.len()]);
                        } else {
                            let l1 = rprev[i1];
                            let l2 = la[i2 - rprev.len()];
                            assert(rprev.contains(l1));
                            assert(self.pos_ok(a as int, i2 - rprev.len()));
                            assert(self.life_at(a as int, i2 - rprev.len()) == l2);
                            if l1 == l2 {
                                assert(level_of_bucket(self.occ()[l1] as int) < j as int);
                                assert(self.occ().contains_pair(l2, a as usize));
                                assert(false);
                            }
                        }
                    }
                }
            } else {
                let po: usize = pow4_exec(j - l0);
                proof {
                    lemma_pow4_add(l0 as int, j as int - l0 as int);
                    assert((q0 as int + 1) * po as int <= pow4(l0 as int) * po as int)
                        by (nonlinear_arith)
                        requires
                            q0 as int + 1 <= pow4(l0 as int) && po as int >= 0,
                    ;
                    reveal_with_fuel(pow4, 5);
                    if j == 1 {
                        assert(pow4(1) == 4);
                    }
                    if j == 2 {
                        assert(pow4(2) == 16);
                    }
                    if j == 3 {
                        assert(pow4(3) == 64);
                    }
                    assert(pow4(j as int) <= 64);
                    assert((q0 as int + 1) * po as int == q0 as int * po as int + po as int)
                        by (nonlinear_arith);
                    assert(q0 as int * po as int + po as int <= 64);
                    assert(q0 as int * po as int + po as int <= pow4(j as int));
                }
                let base: usize = q0 * po;
                let offj: usize = level_offset_exec(j);
                let mut q: usize = base;
                proof {
                    assert forall|l: usize|
                        self.occ().dom().contains(l) && relevant(
                            b0 as int,
                            self.occ()[l] as int,
                        ) && level_of_bucket(self.occ()[l] as int)
                            == j as int implies quad_of_bucket(self.occ()[l] as int)
                        >= base as int by {
                        let b = self.occ()[l] as int;
                        self.lemma_occ_value(l);
                        lemma_bucket_decompose(b);
                        assert(covers(b0 as int, b));
                        lemma_div_range(quad_of_bucket(b), po as int, q0 as int);
                    }
                }
                while q < base + po
                    invariant
                        self.wf(),
                        b0 < NUM_SPACES,
                        l0 as int == level_of_bucket(b0 as int),
                        q0 as int == quad_of_bucket(b0 as int),
                        l0 < j,
                        j <= 3,
                        po as int == pow4(j as int - l0 as int),
                        po >= 1,
                        base as int == q0 as int * po as int,
                        base + po <= 64,
                        base as int + po as int <= pow4(j as int),
                        offj as int == level_offset(j as int),
                        base <= q <= base + po,
                        forall|l: usize| #[trigger]
                            r@.contains(l) <==> (self.occ().dom().contains(l) && relevant(
                                b0 as int,
                                self.occ()[l] as int,
                            ) && (level_of_bucket(self.occ()[l] as int) < j as int || (
                            level_of_bucket(self.occ()[l] as int) == j as int && quad_of_bucket(
                                self.occ()[l] as int,
                            ) < q as int))),
                        forall|i1: int, i2: int| 0 <= i1 < i2 < r@.len() ==> r@[i1] != r@[i2],
                    decreases base + po - q,
                {
                    let ghost rp2 = r@;
                    proof {
                        lemma_level_compose(j as int, q as int);
                        lemma_div_range(q as int, po as int, q0 as int);
                    }
                    let a: usize = offj + q;
                    proof {
                        assert(a < NUM_SPACES);
                        assert(level_of_bucket(a as int) == j as int);
                        assert(quad_of_bucket(a as int) == q as int);
                        assert(q as int / po as int == q0 as int);
                        assert(covers(b0 as int, a as int));
                        assert(relevant(b0 as int, a as int));
                    }
                    self.append_bucket(a, &mut r);
                    proof {
                        assert forall|l: usize| #[trigger]
                            r@.contains(l) <==> (self.occ().dom().contains(l) && relevant(
                                b0 as int,
                                self.occ()[l] as int,
                            ) && (level_of_bucket(self.occ()[l] as int) < j as int || (
                            level_of_bucket(self.occ()[l] as int) == j as int && quad_of_bucket(
                                self.occ()[l] as int,
                            ) < q as int + 1))) by {
                            if r@.contains(l) {
                                if self.occ().contains_pair(l, a as usize) {
                                    assert(self.occ().dom().contains(l));
                                    assert(self.occ()[l] == a);
                                } else {
                                    assert(rp2.contains(l));
                                }
                            }
                            if self.occ().dom().contains(l) && relevant(
                                b0 as int,
                                self.occ()[l] as int,
                            ) && (level_of_bucket(self.occ()[l] as int) < j as int || (
                            level_of_bucket(self.occ()[l] as int) == j as int && quad_of_bucket(
                                self.occ()[l] as int,
                            ) < q as int + 1)) {
                                let b = self.occ()[l] as int;
                                if level_of_bucket(b) < j as int || quad_of_bucket(b)
                                    < q as int {
                                    assert(rp2.contains(l));
                                    assert(r@.contains(l));
                                } else {
                                    self.lemma_occ_value(l);
                                    lemma_bucket_decompose(b);
                                    assert(level_of_bucket(b) == j as int);
                                    assert(quad_of_bucket(b) == q as int);
                                    assert(b == a as int);
                                    assert(self.occ().contains_pair(l, a as usize));
                                    assert(r@.contains(l));
                                }
                            }
                        }
                        assert forall|i1: int, i2: int| 0 <= i1 < i2 < r@.len() implies r@[i1]
                            != r@[i2] by {
                            let la = self.bucket_lives(a as int);
                            self.lemma_bucket_lives(a as int);
                            if i2 < rp2.len() {
                            } else if i1 >= rp2.len() {
                                assert(la[i1 - rp2.len()] != la[i2 - rp2.len()]);
                            } else {
                                let l1 = rp2[i1];
                                let l2 = la[i2 - rp2.len()];
                                assert(rp2.contains(l1));
                                assert(self.pos_ok(a as int, i2 - rp2.len()));
                                assert(self.life_at(a as int, i2 - rp2.len()) == l2);
                                if l1 == l2 {
                                    assert(self.occ().contains_pair(l2, a as usize));
                                    assert(false);
                                }
                            }
                        }
                    }
                    q = q + 1;
                }
                proof {
                    assert forall|l: usize| #[trigger]
                        r@.contains(l) <==> (self.occ().dom().contains(l) && relevant(
                            b0 as int,
                            self.occ()[l] as int,
                        ) && level_of_bucket(self.occ()[l] as int) < j as int + 1) by {
                        if self.occ().dom().contains(l) && relevant(
                            b0 as int,
                            self.occ()[l] as int,
                        ) && level_of_bucket(self.occ()[l] as int) == j as int {
                            let b = self.occ()[l] as int;
                            self.lemma_occ_value(l);
                            lemma_bucket_decompose(b);
                            assert(covers(b0 as int, b));
                            lemma_div_range(quad_of_bucket(b), po as int, q0 as int);
                            assert(quad_of_bucket(b) < q as int);
                        }
                    }
                }
            }
            j = j + 1;
        }
        r
    }

    /// Recompute the bucket for the entity `life` referenced by node `h`
    /// and, when it differs from the node's current bucket, move the node:
    /// unlink it and relink it at the head of the new bucket's list. The
    /// node handle stays valid either way.
    pub fn relocate_member(&mut self, h: usize, life: &Life)
        requires
            old(self).wf(),
            old(self).slot_filled(h as int),
            life.in_bounds(old(self).field_spec()),
        ensures
            final(self).wf(),
            final(self).occ() == old(self).occ().insert(
                old(self).node_at(h as int).life,
                old(self).bucket_of(*life) as usize,
            ),
            final(self).world_width == old(self).world_width,
            final(self).world_height == old(self).world_height,
            final(self).nodes@.len() == old(self).nodes@.len(),
            final(self).slot_filled(h as int),
            final(self).node_at(h as int).life == old(self).node_at(h as int).life,
            final(self).node_at(h as int).belongs_to as int == old(self).bucket_of(*life),
            forall|i: int|
                0 <= i < old(self).nodes@.len() && i != h as int ==> (((#[trigger] final(self).nodes@[i]) is Some
                    <==> old(self).nodes@[i] is Some) && (old(self).nodes@[i] is Some
                    ==> final(self).node_at(i).life == old(self).node_at(i).life
                        && final(self).node_at(i).belongs_to == old(self).node_at(i).belongs_to)),
    {
        let b_new: usize = self.get_belongs_to_space_index(life);
        let node: QuadTreeNode = self.nodes[h].unwrap();
        let l: usize = node.life;
        if node.belongs_to != b_new {
            self.remove_member(h);
            self.attach_at(h, l, b_new);
            proof {
                assert(old(self).occ().remove(l).insert(l, b_new) =~= old(self).occ().insert(
                    l,
                    b_new,
                ));
            }
        } else {
            proof {
                let olds = *old(self);
                assert(olds.in_lists(h as int));
                let (b0, k0) = choose|b0: int, k0: int|
                    olds.valid_pos(b0, k0) && (#[trigger] olds.slot_at(b0, k0)) as int
                        == h as int;
                assert(olds.pos_ok(b0, k0));
                assert(olds.occ().contains_pair(l, b_new));
                assert(olds.occ().insert(l, b_new) =~= olds.occ());
            }
        }
    }

}

/// Subdivision level of a bucket index in the flat array: buckets 0, 1..5,
/// 5..21 and 21..85 hold levels 0 to 3.
pub open spec fn level_of_bucket(b: int) -> int {
    if b < 1 {
        0
    } else if b < 5 {
        1
    } else if b < 21 {
        2
    } else {
        3
    }
}

/// Quadrant index of a bucket within its level.
pub open spec fn quad_of_bucket(b: int) -> int {
    b - level_offset(level_of_bucket(b))
}

/// Bucket `a`'s quadrant contains bucket `d`'s: `a` sits at the same or a
/// coarser level, and `d`'s quadrant lies inside `a`'s.
pub open spec fn covers(a: int, d: int) -> bool {
    &&& level_of_bucket(a) <= level_of_bucket(d)
    &&& quad_of_bucket(d) / pow4(level_of_bucket(d) - level_of_bucket(a)) == quad_of_bucket(a)
}

/// Bucket `b` is scanned by a candidate query for an entity bucketed in
/// `b0`: it is `b0` itself, an ancestor quadrant containing it, or a
/// descendant quadrant contained in it.
pub open spec fn relevant(b0: int, b: int) -> bool {
    covers(b, b0) || covers(b0, b)
}

/// Powers of four multiply by adding exponents.
pub proof fn lemma_pow4_add(a: int, b: int)
    requires
        a >= 0,
        b >= 0,
    ensures
        pow4(a) * pow4(b) == pow4(a + b),
    decreases a,
{
    if a <= 0 {
    } else {
        lemma_pow4_add(a - 1, b);
        assert((4 * pow4(a - 1)) * pow4(b) == 4 * (pow4(a - 1) * pow4(b))) by (nonlinear_arith);
    }
}

/// Integer division locates a value in a window: the quotient is `q`
/// exactly when the value lies in `[q * p, q * p + p)`.
pub proof fn lemma_div_range(x: int, p: int, q: int)
    requires
        p > 0,
    ensures
        (x / p == q) <==> (q * p <= x < q * p + p),
{
    assert((x / p == q) <==> (q * p <= x < q * p + p)) by (nonlinear_arith)
        requires
            p > 0,
    ;
}

/// A valid bucket index splits into its level and a quadrant below that
/// level's quadrant count.
pub proof fn lemma_bucket_decompose(b: int)
    requires
        0 <= b < NUM_SPACES,
    ensures
        0 <= level_of_bucket(b) <= 3,
        b == level_offset(level_of_bucket(b)) + quad_of_bucket(b),
        0 <= quad_of_bucket(b) < pow4(level_of_bucket(b)),
{
    reveal_with_fuel(level_offset, 5);
    reveal_with_fuel(pow4, 5);
}

/// A level and a quadrant below its quadrant count name a valid bucket,
/// and the bucket decomposes back into them.
pub proof fn lemma_level_compose(j: int, q: int)
    requires
        0 <= j <= 3,
        0 <= q < pow4(j),
    ensures
        0 <= level_offset(j) + q < NUM_SPACES,
        level_of_bucket(level_offset(j) + q) == j,
        quad_of_bucket(level_offset(j) + q) == q,
{
    reveal_with_fuel(level_offset, 5);
    reveal_with_fuel(pow4, 5);
}

fn level_of_bucket_exec(b: usize) -> (r: u32)
    requires
        b < NUM_SPACES,
    ensures
        r as int == level_of_bucket(b as int),
        r <= 3,
{
    if b < 1 {
        0
    } else if b < 5 {
        1
    } else if b < 21 {
        2
    } else {
        3
    }
}

fn level_offset_exec(l: u32) -> (r: usize)
    requires
        l <= 3,
    ensures
        r as int == level_offset(l as int),
        r <= 21,
{
    let r: usize = match l {
        0 => 0,
        1 => 1,
        2 => 5,
        _ => 21,
    };
    proof {
        reveal_with_fuel(level_offset, 5);
        reveal_with_fuel(pow4, 5);
    }
    r
}

fn pow4_exec(e: u32) -> (r: usize)
    requires
        e <= 3,
    ensures
        r as int == pow4(e as int),
        1 <= r <= 64,
{
    let r: usize = match e {
        0 => 1,
        1 => 4,
        2 => 16,
        _ => 64,
    };
    proof {
        reveal_with_fuel(pow4, 5);
    }
    r
}

/// Number of filled slots in a node arena.
pub open spec fn filled_count(s: Seq<Option<QuadTreeNode>>) -> int
    decreases s.len(),
{
    if s.len() == 0 {
        0
    } else {
        filled_count(s.drop_last()) + (if s.last() is Some {
            1int
        } else {
            0int
        })
    }
}

/// The filled-slot count is bounded by the arena length, and a count of
/// zero means no slot is filled.
pub proof fn lemma_filled_count_facts(s: Seq<Option<QuadTreeNode>>)
    ensures
        0 <= filled_count(s) <= s.len(),
        filled_count(s) == 0 ==> forall|i: int| 0 <= i < s.len() ==> !((#[trigger] s[i]) is Some),
    decreases s.len(),
{
    if s.len() == 0 {
    } else {
        lemma_filled_count_facts(s.drop_last());
        assert(forall|i: int| 0 <= i < s.len() - 1 ==> #[trigger] s[i] == s.drop_last()[i]);
    }
}

/// `4 ^ e` is the square of `2 ^ e`: a level with `2 ^ e` cells per side
/// has `4 ^ e` cells.
pub proof fn lemma_pow4_square(e: int)
    ensures
        pow4(e) == pow2(e) * pow2(e),
    decreases e,
{
    if e <= 0 {
    } else {
        lemma_pow4_square(e - 1);
        assert(4 * (pow2(e - 1) * pow2(e - 1)) == (2 * pow2(e - 1)) * (2 * pow2(e - 1)))
            by (nonlinear_arith);
    }
}

} // verus!
