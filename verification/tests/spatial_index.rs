use quadlife::detector::{CollisionDetector, ConfigError};
use quadlife::field::{Field, Point};
use quadlife::life::{Life, Species};
use quadlife::quadtree::{QuadTree, QuadTreeNode, QuadTreeSpace};

fn field500() -> Field {
    Field::new(500, 500)
}

#[test]
fn morton_codes_at_finest_level() {
    let field = field500();
    // Cell size is 500 / 8 = 62.5; (245, 245) falls in cell (3, 3) whose
    // interleaved code is 15.
    assert_eq!(Point::new(245, 245).to_quad_tree_index(3, &field), 15);
    assert_eq!(Point::new(0, 0).to_quad_tree_index(3, &field), 0);
    // (499, 499) falls in the last cell (7, 7), code 63.
    assert_eq!(Point::new(499, 499).to_quad_tree_index(3, &field), 63);
    // At level 0 the whole field is one cell.
    assert_eq!(Point::new(499, 499).to_quad_tree_index(0, &field), 0);
}

#[test]
fn entity_within_one_finest_cell_gets_a_leaf_bucket() {
    // Field 500 x 500, four levels, finest grid 8 x 8 with cell size 62.5.
    // An entity of diameter 10 centered at (220, 220) has corners
    // (215, 215) and (225, 225), both in finest cell (3, 3): it belongs in
    // the level-3 bucket for that cell, 21 + 15 = 36, not an ancestor.
    let tree = QuadTree::new(500, 500);
    let life = Life::new(Species::Plant, 220, 220);
    assert_eq!(tree.get_belongs_to_space_index(&life), 36);
}

#[test]
fn entity_straddling_a_cell_boundary_gets_an_ancestor_bucket() {
    // An entity centered at (248, 250) with diameter 10 has corners
    // (243, 245) and (253, 255), straddling the cell boundary at 250 on
    // both axes; the corner codes diverge in their highest two-bit group,
    // so the entity is bucketed at the root, not at the finest level.
    let tree = QuadTree::new(500, 500);
    let life = Life::new(Species::Plant, 248, 250);
    assert_eq!(tree.get_belongs_to_space_index(&life), 0);
}

#[test]
fn entity_on_the_center_boundary_gets_the_root_bucket() {
    // Centered exactly at (250, 250) the corners (245, 245) and (255, 255)
    // also bracket the boundary at 250, so the root bucket holds it.
    let tree = QuadTree::new(500, 500);
    let life = Life::new(Species::Plant, 250, 250);
    assert_eq!(tree.get_belongs_to_space_index(&life), 0);
}

#[test]
fn bucket_assignment_is_deterministic() {
    let tree = QuadTree::new(500, 500);
    let a = Life::new(Species::Plant, 137, 301);
    let first = tree.get_belongs_to_space_index(&a);
    let second = tree.get_belongs_to_space_index(&a);
    assert_eq!(first, second);
    // A separately built entity with the same corners gets the same bucket.
    let b = Life::new(Species::Carnivore, 137, 301);
    assert_eq!(tree.get_belongs_to_space_index(&b), first);
}

#[test]
fn add_member_links_at_the_head() {
    let mut tree = QuadTree::new(500, 500);
    let a = Life::new(Species::Plant, 100, 100);
    let b = Life::new(Species::Plant, 100, 105);
    // Both entities sit fully inside finest cell (1, 1): bucket 21 + 3.
    let ha = tree.add_member(0, &a);
    let hb = tree.add_member(1, &b);
    assert_ne!(ha, hb);
    assert_eq!(tree.members_of(24), vec![1, 0]);
    assert_eq!(tree.member_count(), 2);
}

#[test]
fn register_unregister_restores_occupancy() {
    let mut tree = QuadTree::new(500, 500);
    tree.add_member(0, &Life::new(Species::Plant, 100, 100));
    tree.add_member(1, &Life::new(Species::Herbivore, 400, 400));
    let before: Vec<Vec<usize>> = (0..85).map(|b| tree.members_of(b)).collect();
    let count_before = tree.member_count();

    let h = tree.add_member(2, &Life::new(Species::Carnivore, 250, 250));
    assert_eq!(tree.member_count(), count_before + 1);
    tree.remove_member(h);

    let after: Vec<Vec<usize>> = (0..85).map(|b| tree.members_of(b)).collect();
    assert_eq!(after, before);
    assert_eq!(tree.member_count(), count_before);
}

#[test]
fn removing_the_middle_of_a_list_keeps_the_rest() {
    let mut tree = QuadTree::new(500, 500);
    let spot = Life::new(Species::Plant, 100, 100);
    let _h0 = tree.add_member(0, &spot);
    let h1 = tree.add_member(1, &spot);
    let _h2 = tree.add_member(2, &spot);
    // List order is newest first: [2, 1, 0]; removing the middle node
    // relinks its neighbors.
    assert_eq!(tree.members_of(24), vec![2, 1, 0]);
    tree.remove_member(h1);
    assert_eq!(tree.members_of(24), vec![2, 0]);
    assert_eq!(tree.member_count(), 2);
}

#[test]
fn relocation_moves_the_entity_to_its_new_bucket() {
    let mut tree = QuadTree::new(500, 500);
    let h = tree.add_member(0, &Life::new(Species::Plant, 100, 100));
    assert_eq!(tree.members_of(24), vec![0]);

    // The entity moved to (400, 400): finest cell (6, 6), bucket 21 + 60.
    let moved = Life::new(Species::Plant, 400, 400);
    tree.relocate_member(h, &moved);
    assert_eq!(tree.members_of(24), Vec::<usize>::new());
    assert_eq!(tree.members_of(81), vec![0]);

    // After the move, a scan starting from the entity's bucket finds it.
    let found = tree.candidates_for(h);
    assert!(found.contains(&0));
}

#[test]
fn query_scans_own_ancestor_and_descendant_buckets() {
    let mut tree = QuadTree::new(500, 500);
    // Root bucket: spans the center boundary.
    let h_root = tree.add_member(0, &Life::new(Species::Plant, 250, 250));
    // Leaf bucket 36: inside finest cell (3, 3).
    let h_leaf = tree.add_member(1, &Life::new(Species::Plant, 220, 220));
    // Leaf bucket 81: inside finest cell (6, 6), a different subtree.
    let h_far = tree.add_member(2, &Life::new(Species::Plant, 400, 400));

    let from_leaf = tree.candidates_for(h_leaf);
    assert!(from_leaf.contains(&1)); // its own bucket
    assert!(from_leaf.contains(&0)); // the root is an ancestor
    assert!(!from_leaf.contains(&2)); // an unrelated leaf is not scanned

    let from_root = tree.candidates_for(h_root);
    assert!(from_root.contains(&0));
    assert!(from_root.contains(&1)); // descendants of the root
    assert!(from_root.contains(&2));

    let from_far = tree.candidates_for(h_far);
    assert!(from_far.contains(&2));
    assert!(from_far.contains(&0));
    assert!(!from_far.contains(&1));
}

#[test]
fn query_returns_each_candidate_once() {
    let mut tree = QuadTree::new(500, 500);
    let h = tree.add_member(0, &Life::new(Species::Plant, 250, 250));
    tree.add_member(1, &Life::new(Species::Plant, 220, 220));
    tree.add_member(2, &Life::new(Species::Plant, 220, 225));
    let mut found = tree.candidates_for(h);
    let len = found.len();
    found.sort();
    found.dedup();
    assert_eq!(found.len(), len);
    assert_eq!(found, vec![0, 1, 2]);
}

#[test]
fn space_and_node_constructors() {
    let space = QuadTreeSpace::new(Some(3));
    assert_eq!(space.head_node, Some(3));
    let node = QuadTreeNode::new(24, 7, None, Some(1));
    assert_eq!(node.belongs_to, 24);
    assert_eq!(node.life, 7);
    assert_eq!(node.prev_node, None);
    assert_eq!(node.next_node, Some(1));
}

#[test]
fn detector_rejects_zero_dimensions() {
    assert!(matches!(
        CollisionDetector::new(0, 500),
        Err(ConfigError::ZeroDimension)
    ));
    assert!(matches!(
        CollisionDetector::new(500, 0),
        Err(ConfigError::ZeroDimension)
    ));
    assert!(CollisionDetector::new(500, 500).is_ok());
}

#[test]
fn unregister_is_benign_on_stale_handles() {
    let mut detector = CollisionDetector::new(500, 500).unwrap();
    let h = detector.add_member(0, &Life::new(Species::Plant, 100, 100));
    detector.unregister(h);
    assert_eq!(detector.quad_tree.member_count(), 0);
    // Unregistering the same handle again, or one never issued, is a no-op.
    detector.unregister(h);
    detector.unregister(9999);
    assert_eq!(detector.quad_tree.member_count(), 0);
}

#[test]
fn detector_query_after_notify_moved() {
    let mut detector = CollisionDetector::new(500, 500).unwrap();
    let ha = detector.add_member(0, &Life::new(Species::Plant, 100, 100));
    let hb = detector.add_member(1, &Life::new(Species::Plant, 100, 105));
    // Both share bucket 24; each sees the other.
    assert!(detector.query(ha).contains(&1));
    assert!(detector.query(hb).contains(&0));

    // Entity 0 moves far away: found from its new bucket, no longer seen
    // from the stale one.
    detector.notify_moved(ha, &Life::new(Species::Plant, 400, 400));
    assert!(detector.query(ha).contains(&0));
    assert!(!detector.query(hb).contains(&0));
    assert!(detector.query(hb).contains(&1));
}
