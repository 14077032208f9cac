use bouncing_balls::bvh::{create_tree, get_contact_with, BvhNode};
use bouncing_balls::collider::EntityAabb;
use bouncing_balls::ecs::EntityId;
use bouncing_balls::geometry::{Aabb, Vector2};

fn entity_box(id: usize, x: i64, y: i64, half: i64) -> EntityAabb {
    EntityAabb {
        entity_id: EntityId(id),
        position: Vector2::new(x, y),
        aabb: Aabb::from_circle(x, y, half),
    }
}

fn collect_leaves(node: &BvhNode, out: &mut Vec<usize>) {
    if node.entitiy_aabbs.len() <= 1 {
        for e in &node.entitiy_aabbs {
            out.push(e.entity_id.0);
        }
        return;
    }
    collect_leaves(node.left_child.as_ref().unwrap(), out);
    collect_leaves(node.right_child.as_ref().unwrap(), out);
}

#[test]
fn tree_holds_every_entity_exactly_once() {
    let inputs = vec![
        entity_box(0, -50, 0, 5),
        entity_box(1, 40, 12, 5),
        entity_box(2, 3, -90, 5),
        entity_box(3, 77, 77, 5),
        entity_box(4, -20, 33, 5),
        entity_box(5, 0, 0, 5),
    ];
    let boxes: Vec<Aabb> = inputs.iter().map(|e| e.aabb).collect();
    let expected_union = Aabb::from_aabbs(&boxes);

    let tree = create_tree(inputs, false);
    assert_eq!(tree.aabb, expected_union);

    let mut leaves = Vec::new();
    collect_leaves(&tree, &mut leaves);
    leaves.sort();
    assert_eq!(leaves, vec![0, 1, 2, 3, 4, 5]);
}

#[test]
fn tree_terminates_on_shared_coordinates() {
    // several entities share the same coordinate on the split axis; the
    // build must still partition into leaves of size one
    let inputs = vec![
        entity_box(0, 5, 0, 2),
        entity_box(1, 5, 10, 2),
        entity_box(2, 5, 20, 2),
        entity_box(3, 5, 5, 2),
    ];
    let tree = create_tree(inputs, false);
    let mut leaves = Vec::new();
    collect_leaves(&tree, &mut leaves);
    leaves.sort();
    assert_eq!(leaves, vec![0, 1, 2, 3]);

    // even fully identical positions terminate
    let clones = vec![
        entity_box(0, 7, 7, 2),
        entity_box(1, 7, 7, 2),
        entity_box(2, 7, 7, 2),
    ];
    let tree2 = create_tree(clones, false);
    let mut leaves2 = Vec::new();
    collect_leaves(&tree2, &mut leaves2);
    leaves2.sort();
    assert_eq!(leaves2, vec![0, 1, 2]);
}

#[test]
fn overlapping_pair_reported_exactly_once() {
    // two known-overlapping boxes in separate leaves: the query reports the
    // pair once, never as a self-contact, never duplicated
    let a = entity_box(0, 0, 0, 15);
    let b = entity_box(1, 20, 0, 15);
    assert!(a.aabb.is_intersects(&b.aabb));

    let tree = create_tree(vec![a, b], false);
    let mut leaves = Vec::new();
    collect_leaves(&tree, &mut leaves);
    assert_eq!(leaves.len(), 2);

    let mut pairs = Vec::new();
    get_contact_with(&a, &tree, &mut pairs);
    assert_eq!(pairs, vec![(EntityId(0), EntityId(1))]);

    let mut pairs_b = Vec::new();
    get_contact_with(&b, &tree, &mut pairs_b);
    assert_eq!(pairs_b, vec![(EntityId(1), EntityId(0))]);
}

#[test]
fn disjoint_entities_report_nothing() {
    let a = entity_box(0, 0, 0, 5);
    let b = entity_box(1, 100, 100, 5);
    let tree = create_tree(vec![a, b], false);
    let mut pairs = Vec::new();
    get_contact_with(&a, &tree, &mut pairs);
    assert!(pairs.is_empty());

    // a query from outside sees only what it overlaps
    let probe = entity_box(9, 98, 99, 5);
    let mut pairs2 = Vec::new();
    get_contact_with(&probe, &tree, &mut pairs2);
    assert_eq!(pairs2, vec![(EntityId(9), EntityId(1))]);
}
