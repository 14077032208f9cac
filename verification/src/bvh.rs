use vstd::prelude::*;

use crate::collider::EntityAabb;
use crate::ecs::EntityId;
use crate::geometry::{lemma_union_seq_contains_all, lemma_union_seq_witnesses, union_seq, Aabb};

verus! {

broadcast use vstd::seq_lib::group_to_multiset_ensures;

/// One node of the bounding-volume hierarchy: the union box of every entity
/// under it, the full list of those entities, and—at non-leaf nodes—two
/// children that partition the list. A leaf holds exactly one entity.
pub struct BvhNode {
    pub left_child: Option<Box<BvhNode>>,
    pub right_child: Option<Box<BvhNode>>,
    pub entitiy_aabbs: Vec<EntityAabb>,
    pub aabb: Aabb,
}

pub open spec fn aabbs_of(s: Seq<EntityAabb>) -> Seq<Aabb> {
    s.map_values(|e: EntityAabb| e.aabb)
}

pub open spec fn all_wf(s: Seq<EntityAabb>) -> bool {
    forall|i: int| 0 <= i < s.len() ==> (#[trigger] s[i]).wf()
}

/// No two entries share an entity id.
pub open spec fn distinct_ids(s: Seq<EntityAabb>) -> bool {
    forall|i: int, j: int| 0 <= i < j < s.len() ==> s[i].entity_id != s[j].entity_id
}

/// Structural well-formedness of a tree: a leaf holds exactly one entity;
/// an inner node's children partition its entity list (as a multiset), and
/// every node's box is the union of its entities' boxes.
pub open spec fn wf_tree(node: BvhNode) -> bool
    decreases node,
{
    &&& node.entitiy_aabbs@.len() >= 1
    &&& all_wf(node.entitiy_aabbs@)
    &&& node.aabb == union_seq(aabbs_of(node.entitiy_aabbs@))
    &&& (if node.entitiy_aabbs@.len() == 1 {
        node.left_child is None && node.right_child is None
    } else {
        match (node.left_child, node.right_child) {
            (Some(l), Some(r)) => {
                &&& wf_tree(*l)
                &&& wf_tree(*r)
                &&& (*l).entitiy_aabbs@.to_multiset().add((*r).entitiy_aabbs@.to_multiset())
                    == node.entitiy_aabbs@.to_multiset()
            },
            _ => false,
        }
    })
}

/// The entities at the leaves, in traversal order.
pub open spec fn leaves_of(node: BvhNode) -> Seq<EntityAabb>
    decreases node,
{
    if node.entitiy_aabbs@.len() <= 1 {
        node.entitiy_aabbs@
    } else {
        match (node.left_child, node.right_child) {
            (Some(l), Some(r)) => leaves_of(*l) + leaves_of(*r),
            _ => Seq::empty(),
        }
    }
}

/// The leaf set of a well-formed tree holds every entity of the root list
/// exactly once, and the root box is the union of all their boxes.
pub proof fn lemma_bvh_completeness(node: BvhNode)
    requires
        wf_tree(node),
    ensures
        leaves_of(node).to_multiset() == node.entitiy_aabbs@.to_multiset(),
        node.aabb == union_seq(aabbs_of(node.entitiy_aabbs@)),
    decreases node,
{
    if node.entitiy_aabbs@.len() > 1 {
        let l = *node.left_child.unwrap();
        let r = *node.right_child.unwrap();
        lemma_bvh_completeness(l);
        lemma_bvh_completeness(r);
        vstd::seq_lib::lemma_multiset_commutative(leaves_of(l), leaves_of(r));
    }
}

/// The split key of an entity on the chosen axis, doubled so that the
/// comparison against the parent box's midpoint stays in integers.
pub open spec fn axis_key(e: EntityAabb, y_axis: bool) -> int {
    if y_axis {
        e.position.y as int
    } else {
        e.position.x as int
    }
}

/// Twice the midpoint of the box on the chosen axis.
pub open spec fn axis_sum(u: Aabb, y_axis: bool) -> int {
    if y_axis {
        u.y_min + u.y_max
    } else {
        u.x_min + u.x_max
    }
}

/// Because each entity's box is centered on its position, the entity whose
/// box attains the union's maximum side sits at or right of the union's
/// midpoint, and symmetrically for the minimum side. This is what makes the
/// midpoint split shrink both sides.
proof fn lemma_split_witnesses(s: Seq<EntityAabb>, y_axis: bool)
    requires
        s.len() >= 1,
        all_wf(s),
    ensures
        exists|i: int|
            0 <= i < s.len() && 2 * axis_key(#[trigger] s[i], y_axis) >= axis_sum(
                union_seq(aabbs_of(s)),
                y_axis,
            ),
        exists|i: int|
            0 <= i < s.len() && 2 * axis_key(#[trigger] s[i], y_axis) <= axis_sum(
                union_seq(aabbs_of(s)),
                y_axis,
            ),
{
    let a = aabbs_of(s);
    assert(a.len() == s.len());
    lemma_union_seq_contains_all(a);
    lemma_union_seq_witnesses(a);
    let u = union_seq(a);
    if y_axis {
        let j = choose|j: int| 0 <= j < a.len() && (#[trigger] a[j]).y_max == u.y_max;
        assert(a[j] == s[j].aabb);
        assert(s[j].wf());
        assert(u.spec_contains_box(a[j]));
        assert(2 * axis_key(s[j], y_axis) >= axis_sum(u, y_axis));
        let k = choose|k: int| 0 <= k < a.len() && (#[trigger] a[k]).y_min == u.y_min;
        assert(a[k] == s[k].aabb);
        assert(s[k].wf());
        assert(u.spec_contains_box(a[k]));
        assert(2 * axis_key(s[k], y_axis) <= axis_sum(u, y_axis));
    } else {
        let j = choose|j: int| 0 <= j < a.len() && (#[trigger] a[j]).x_max == u.x_max;
        assert(a[j] == s[j].aabb);
        assert(s[j].wf());
        assert(u.spec_contains_box(a[j]));
        assert(2 * axis_key(s[j], y_axis) >= axis_sum(u, y_axis));
        let k = choose|k: int| 0 <= k < a.len() && (#[trigger] a[k]).x_min == u.x_min;
        assert(a[k] == s[k].aabb);
        assert(s[k].wf());
        assert(u.spec_contains_box(a[k]));
        assert(2 * axis_key(s[k], y_axis) <= axis_sum(u, y_axis));
    }
}

/// Recursive spatial partition of the given entity boxes, alternating the
/// split axis. Entities on the parent box's midpoint are assigned to the
/// smaller side; this tie-break keeps both sides non-empty, so each
/// recursive call strictly reduces the entity count and the construction
/// terminates even when several entities share a coordinate.
pub fn create_tree(entity_aabbs: Vec<EntityAabb>, y_axis_division: bool) -> (node: BvhNode)
    requires
        entity_aabbs@.len() >= 1,
        all_wf(entity_aabbs@),
    ensures
        wf_tree(node),
        node.entitiy_aabbs@ == entity_aabbs@,
    decreases entity_aabbs@.len(),
{
    let ghost all = entity_aabbs@;
    let n = entity_aabbs.len();
    let mut aabbs: Vec<Aabb> = Vec::new();
    let mut i: usize = 0;
    while i < n
        invariant
            n == all.len(),
            entity_aabbs@ == all,
            all_wf(all),
            0 <= i <= n,
            aabbs@ == aabbs_of(all.take(i as int)),
        decreases n - i,
    {
        aabbs.push(entity_aabbs[i].aabb);
        proof {
            assert(aabbs@ =~= aabbs_of(all.take(i + 1)));
        }
        i = i + 1;
    }
    proof {
        assert(all.take(n as int) =~= all);
        assert forall|k: int| 0 <= k < aabbs@.len() implies (#[trigger] aabbs@[k]).bounded() by {
            assert(all[k].wf());
        }
    }
    let aabb = Aabb::from_aabbs(&aabbs);

    if entity_aabbs.len() == 1 {
        return BvhNode { left_child: None, right_child: None, entitiy_aabbs: entity_aabbs, aabb };
    }

    let y_axis = y_axis_division;
    let sum = if y_axis {
        aabb.y_min + aabb.y_max
    } else {
        aabb.x_min + aabb.x_max
    };
    proof {
        assert(sum == axis_sum(aabb, y_axis));
    }

    let mut left_entities: Vec<EntityAabb> = Vec::new();
    let mut right_entities: Vec<EntityAabb> = Vec::new();
    let mut center_entities: Vec<EntityAabb> = Vec::new();

    let mut i: usize = 0;
    while i < n
        invariant
            n == all.len(),
            entity_aabbs@ == all,
            all_wf(all),
            0 <= i <= n,
            sum == axis_sum(aabb, y_axis),
            aabb.bounded(),
            left_entities@.to_multiset().add(center_entities@.to_multiset()).add(
                right_entities@.to_multiset(),
            ) == all.take(i as int).to_multiset(),
            forall|k: int|
                0 <= k < left_entities@.len() ==> 2 * axis_key(#[trigger] left_entities@[k], y_axis)
                    < sum,
            forall|k: int|
                0 <= k < center_entities@.len() ==> 2 * axis_key(
                    #[trigger] center_entities@[k],
                    y_axis,
                ) == sum,
            forall|k: int|
                0 <= k < right_entities@.len() ==> 2 * axis_key(
                    #[trigger] right_entities@[k],
                    y_axis,
                ) > sum,
            forall|k: int|
                0 <= k < left_entities@.len() ==> (#[trigger] left_entities@[k]).wf(),
            forall|k: int|
                0 <= k < center_entities@.len() ==> (#[trigger] center_entities@[k]).wf(),
            forall|k: int|
                0 <= k < right_entities@.len() ==> (#[trigger] right_entities@[k]).wf(),
        decreases n - i,
    {
        let e = entity_aabbs[i];
        proof {
            assert(all[i as int].wf());
            assert(all.take(i + 1) =~= all.take(i as int).push(all[i as int]));
        }
        let key = if y_axis {
            e.position.y
        } else {
            e.position.x
        };
        let two_key = 2 * key;
        if two_key == sum {
            center_entities.push(e);
        } else if two_key < sum {
            left_entities.push(e);
        } else {
            right_entities.push(e);
        }
        i = i + 1;
    }
    proof {
        assert(all.take(n as int) =~= all);
    }

    let ghost left0 = left_entities@;
    let ghost right0 = right_entities@;
    let ghost a0 = left0.len() as int;
    let ghost b0 = right0.len() as int;
    let ghost m = center_entities@.len() as int;
    proof {
        // the three piles together have exactly n entities
        assert(left0.to_multiset().len() == left0.len());
        assert(right0.to_multiset().len() == right0.len());
        assert(center_entities@.to_multiset().len() == center_entities@.len());
        assert(all.to_multiset().len() == all.len());
        assert(a0 + m + b0 == n as int);
    }

    // entities that sit on the midpoint go to the smaller side, so that
    // neither side can end up holding everything
    let mut ci: usize = 0;
    while ci < center_entities.len()
        invariant
            0 <= ci <= center_entities@.len(),
            m == center_entities@.len() as int,
            a0 == left0.len() as int,
            b0 == right0.len() as int,
            left_entities@.to_multiset().add(right_entities@.to_multiset()) == left0.to_multiset().add(
                right0.to_multiset(),
            ).add(center_entities@.take(ci as int).to_multiset()),
            left_entities@.len() + right_entities@.len() == a0 + b0 + ci,
            a0 >= 1 ==> left_entities@.len() >= 1,
            ci >= 1 ==> left_entities@.len() >= 1,
            (b0 >= 1 || (a0 >= 1 && ci >= 1) || ci >= 2) ==> right_entities@.len() >= 1,
            forall|k: int|
                0 <= k < left_entities@.len() ==> (#[trigger] left_entities@[k]).wf(),
            forall|k: int|
                0 <= k < right_entities@.len() ==> (#[trigger] right_entities@[k]).wf(),
            forall|k: int|
                0 <= k < center_entities@.len() ==> (#[trigger] center_entities@[k]).wf(),
        decreases center_entities@.len() - ci,
    {
        let ball = center_entities[ci];
        let ghost pre_l = left_entities@;
        let ghost pre_r = right_entities@;
        let ghost pre_t = center_entities@.take(ci as int);
        proof {
            assert(center_entities@[ci as int].wf());
            assert(center_entities@.take(ci + 1) =~= pre_t.push(center_entities@[ci as int]));
            assert(pre_t.push(center_entities@[ci as int]).to_multiset() == pre_t.to_multiset().insert(
                center_entities@[ci as int],
            ));
        }
        if left_entities.len() <= right_entities.len() {
            left_entities.push(ball);
            proof {
                assert(left_entities@.to_multiset() == pre_l.to_multiset().insert(ball));
                assert(left_entities@.to_multiset().add(right_entities@.to_multiset()) =~= pre_l.to_multiset().add(
                    pre_r.to_multiset(),
                ).insert(ball));
                assert(left0.to_multiset().add(right0.to_multiset()).add(
                    center_entities@.take(ci + 1).to_multiset(),
                ) =~= left0.to_multiset().add(right0.to_multiset()).add(pre_t.to_multiset()).insert(
                    ball,
                ));
            }
        } else {
            right_entities.push(ball);
            proof {
                assert(right_entities@.to_multiset() == pre_r.to_multiset().insert(ball));
                assert(left_entities@.to_multiset().add(right_entities@.to_multiset()) =~= pre_l.to_multiset().add(
                    pre_r.to_multiset(),
                ).insert(ball));
                assert(left0.to_multiset().add(right0.to_multiset()).add(
                    center_entities@.take(ci + 1).to_multiset(),
                ) =~= left0.to_multiset().add(right0.to_multiset()).add(pre_t.to_multiset()).insert(
                    ball,
                ));
            }
        }
        ci = ci + 1;
    }
    proof {
        assert(center_entities@.take(center_entities@.len() as int) =~= center_entities@);
        // the two sides now partition the whole input
        assert(left_entities@.to_multiset().add(right_entities@.to_multiset()) == all.to_multiset())
            by {
            assert(left0.to_multiset().add(center_entities@.to_multiset()).add(
                right0.to_multiset(),
            ) == all.to_multiset());
            assert(left0.to_multiset().add(right0.to_multiset()).add(
                center_entities@.to_multiset(),
            ) =~= left0.to_multiset().add(center_entities@.to_multiset()).add(
                right0.to_multiset(),
            ));
        }
        assert(left_entities@.len() + right_entities@.len() == n as int);
        // both sides are non-empty
        lemma_split_witnesses(all, y_axis);
        if m == 0 {
            let j = choose|j: int|
                0 <= j < all.len() && 2 * axis_key(#[trigger] all[j], y_axis) >= axis_sum(
                    union_seq(aabbs_of(all)),
                    y_axis,
                );
            let e = all[j];
            assert(all.contains(e));
            assert(all.to_multiset().count(e) > 0);
            assert(left0.to_multiset().count(e) + center_entities@.to_multiset().count(e)
                + right0.to_multiset().count(e) > 0);
            assert(center_entities@.to_multiset().len() == 0);
            if left0.to_multiset().count(e) > 0 {
                assert(left0.contains(e));
                let w = choose|w: int| 0 <= w < left0.len() && left0[w] == e;
                assert(2 * axis_key(left0[w], y_axis) < sum);
                assert(false);
            }
            assert(right0.to_multiset().count(e) > 0);
            assert(right0.contains(e));
            assert(b0 >= 1);
            let j2 = choose|j2: int|
                0 <= j2 < all.len() && 2 * axis_key(#[trigger] all[j2], y_axis) <= axis_sum(
                    union_seq(aabbs_of(all)),
                    y_axis,
                );
            let e2 = all[j2];
            assert(all.contains(e2));
            assert(all.to_multiset().count(e2) > 0);
            assert(left0.to_multiset().count(e2) + center_entities@.to_multiset().count(e2)
                + right0.to_multiset().count(e2) > 0);
            if right0.to_multiset().count(e2) > 0 {
                assert(right0.contains(e2));
                let w = choose|w: int| 0 <= w < right0.len() && right0[w] == e2;
                assert(2 * axis_key(right0[w], y_axis) > sum);
                assert(false);
            }
            assert(left0.to_multiset().count(e2) > 0);
            assert(left0.contains(e2));
            assert(a0 >= 1);
        }
        assert(left_entities@.len() >= 1);
        assert(right_entities@.len() >= 1);
    }

    let left_child = Box::new(create_tree(left_entities, !y_axis_division));
    let right_child = Box::new(create_tree(right_entities, !y_axis_division));

    let node = BvhNode {
        left_child: Some(left_child),
        right_child: Some(right_child),
        entitiy_aabbs: entity_aabbs,
        aabb,
    };
    node
}

/// The candidate pairs that a query against a subtree reports, in traversal
/// order: pruned subtrees report nothing, a reachable leaf that is not the
/// query itself reports one pair.
pub open spec fn contact_pairs(q: EntityAabb, node: BvhNode) -> Seq<(EntityId, EntityId)>
    decreases node,
{
    if !q.aabb.spec_intersects(node.aabb) {
        Seq::empty()
    } else if node.entitiy_aabbs@.len() == 1 {
        if node.entitiy_aabbs@[0].entity_id == q.entity_id {
            Seq::empty()
        } else {
            seq![(q.entity_id, node.entitiy_aabbs@[0].entity_id)]
        }
    } else {
        match (node.left_child, node.right_child) {
            (Some(l), Some(r)) => contact_pairs(q, *l) + contact_pairs(q, *r),
            _ => Seq::empty(),
        }
    }
}

/// An entity is a geometric candidate for the query: its box meets the
/// query's box and it is not the query itself.
pub open spec fn spec_hit(q: EntityAabb, e: EntityAabb) -> bool {
    e.aabb.spec_intersects(q.aabb) && e.entity_id != q.entity_id
}

/// Broad-phase descent: appends to the accumulator one pair per leaf whose
/// box meets the query box, skipping the query entity itself, pruning
/// subtrees whose union box misses the query box.
pub fn get_contact_with(
    entity_aabb: &EntityAabb,
    node: &BvhNode,
    entities_with_possible_contact: &mut Vec<(EntityId, EntityId)>,
)
    requires
        wf_tree(*node),
    ensures
        final(entities_with_possible_contact)@ == old(entities_with_possible_contact)@
            + contact_pairs(*entity_aabb, *node),
    decreases *node,
{
    if !entity_aabb.aabb.is_intersects(&node.aabb) {
        proof {
            assert(entities_with_possible_contact@ =~= old(entities_with_possible_contact)@
                + contact_pairs(*entity_aabb, *node));
        }
        return ;
    }
    if node.entitiy_aabbs.len() == 1 {
        if node.entitiy_aabbs[0].entity_id == entity_aabb.entity_id {
            proof {
                assert(entities_with_possible_contact@ =~= old(entities_with_possible_contact)@
                    + contact_pairs(*entity_aabb, *node));
            }
            return ;
        }
        entities_with_possible_contact.push(
            (entity_aabb.entity_id, node.entitiy_aabbs[0].entity_id),
        );
        proof {
            assert(entities_with_possible_contact@ =~= old(entities_with_possible_contact)@
                + contact_pairs(*entity_aabb, *node));
        }
        return ;
    }
    let ghost mid = entities_with_possible_contact@;
    match (&node.left_child, &node.right_child) {
        (Some(l), Some(r)) => {
            get_contact_with(entity_aabb, l, entities_with_possible_contact);
            get_contact_with(entity_aabb, r, entities_with_possible_contact);
            proof {
                assert(entities_with_possible_contact@ =~= old(entities_with_possible_contact)@
                    + contact_pairs(*entity_aabb, *node));
            }
        },
        _ => {
            proof {
                assert(false);
            }
        },
    }
}

/// What a query reports against a well-formed tree does not depend on the
/// tree's shape: every reported pair is the query paired with a geometric
/// candidate, every candidate in the node's list is reported, and—when the
/// list has no repeated ids—no pair is reported twice.
pub proof fn lemma_contact_pairs_exact(q: EntityAabb, node: BvhNode)
    requires
        wf_tree(node),
    ensures
        forall|k: int|
            0 <= k < contact_pairs(q, node).len() ==> (#[trigger] contact_pairs(q, node)[k]).0
                == q.entity_id,
        forall|t: EntityId|
            #[trigger] contact_pairs(q, node).contains((q.entity_id, t)) <==> (exists|i: int|
                0 <= i < node.entitiy_aabbs@.len() && (#[trigger] node.entitiy_aabbs@[i]).entity_id
                    == t && spec_hit(q, node.entitiy_aabbs@[i])),
        distinct_ids(node.entitiy_aabbs@) ==> contact_pairs(q, node).no_duplicates(),
    decreases node,
{
    let s = node.entitiy_aabbs@;
    let ps = contact_pairs(q, node);
    if !q.aabb.spec_intersects(node.aabb) {
        // pruned: no entity in the subtree can be a candidate, since every
        // entity box lies inside the node box
        assert forall|t: EntityId|
            #[trigger] ps.contains((q.entity_id, t)) <==> (exists|i: int|
                0 <= i < s.len() && (#[trigger] s[i]).entity_id == t && spec_hit(q, s[i])) by {
            assert(!ps.contains((q.entity_id, t)));
            if exists|i: int| 0 <= i < s.len() && (#[trigger] s[i]).entity_id == t && spec_hit(
                q,
                s[i],
            ) {
                let i = choose|i: int|
                    0 <= i < s.len() && (#[trigger] s[i]).entity_id == t && spec_hit(q, s[i]);
                lemma_union_seq_contains_all(aabbs_of(s));
                assert(aabbs_of(s)[i] == s[i].aabb);
                assert(node.aabb.spec_contains_box(s[i].aabb));
                assert(q.aabb.spec_intersects(s[i].aabb));
                assert(false);
            }
        }
    } else if s.len() == 1 {
        if s[0].entity_id != q.entity_id {
            assert(ps[0] == (q.entity_id, s[0].entity_id));
            assert(aabbs_of(s).len() == 1);
            assert(node.aabb == aabbs_of(s)[0]);
            assert(node.aabb == s[0].aabb);
            assert forall|t: EntityId|
                #[trigger] ps.contains((q.entity_id, t)) <==> (exists|i: int|
                    0 <= i < s.len() && (#[trigger] s[i]).entity_id == t && spec_hit(q, s[i])) by {
                if ps.contains((q.entity_id, t)) {
                    assert(t == s[0].entity_id);
                    assert(spec_hit(q, s[0]));
                }
                if exists|i: int| 0 <= i < s.len() && (#[trigger] s[i]).entity_id == t
                    && spec_hit(q, s[i]) {
                    assert(ps.contains(ps[0]));
                }
            }
        } else {
            assert(aabbs_of(s).len() == 1);
            assert(node.aabb == s[0].aabb);
            assert forall|t: EntityId|
                #[trigger] ps.contains((q.entity_id, t)) <==> (exists|i: int|
                    0 <= i < s.len() && (#[trigger] s[i]).entity_id == t && spec_hit(q, s[i])) by {
                assert(!ps.contains((q.entity_id, t)));
            }
        }
    } else {
        let l = *node.left_child.unwrap();
        let r = *node.right_child.unwrap();
        lemma_contact_pairs_exact(q, l);
        lemma_contact_pairs_exact(q, r);
        let pl = contact_pairs(q, l);
        let pr = contact_pairs(q, r);
        let sl = l.entitiy_aabbs@;
        let sr = r.entitiy_aabbs@;
        assert(ps == pl + pr);
        assert forall|k: int| 0 <= k < ps.len() implies (#[trigger] ps[k]).0 == q.entity_id by {
            if k < pl.len() {
                assert(ps[k] == pl[k]);
            } else {
                assert(ps[k] == pr[k - pl.len()]);
            }
        }
        assert forall|t: EntityId|
            #[trigger] ps.contains((q.entity_id, t)) <==> (exists|i: int|
                0 <= i < s.len() && (#[trigger] s[i]).entity_id == t && spec_hit(q, s[i])) by {
            if ps.contains((q.entity_id, t)) {
                let k = choose|k: int| 0 <= k < ps.len() && ps[k] == (q.entity_id, t);
                if k < pl.len() {
                    assert(pl[k] == (q.entity_id, t));
                    assert(pl.contains((q.entity_id, t)));
                    let i = choose|i: int|
                        0 <= i < sl.len() && (#[trigger] sl[i]).entity_id == t && spec_hit(
                            q,
                            sl[i],
                        );
                    assert(sl.contains(sl[i]));
                    assert(sl.to_multiset().count(sl[i]) > 0);
                    assert(s.to_multiset().count(sl[i]) > 0);
                    assert(s.contains(sl[i]));
                    let w = choose|w: int| 0 <= w < s.len() && s[w] == sl[i];
                    assert(s[w].entity_id == t && spec_hit(q, s[w]));
                } else {
                    assert(pr[k - pl.len()] == (q.entity_id, t));
                    assert(pr.contains((q.entity_id, t)));
                    let i = choose|i: int|
                        0 <= i < sr.len() && (#[trigger] sr[i]).entity_id == t && spec_hit(
                            q,
                            sr[i],
                        );
                    assert(sr.contains(sr[i]));
                    assert(sr.to_multiset().count(sr[i]) > 0);
                    assert(s.to_multiset().count(sr[i]) > 0);
                    assert(s.contains(sr[i]));
                    let w = choose|w: int| 0 <= w < s.len() && s[w] == sr[i];
                    assert(s[w].entity_id == t && spec_hit(q, s[w]));
                }
            }
            if exists|i: int| 0 <= i < s.len() && (#[trigger] s[i]).entity_id == t && spec_hit(
                q,
                s[i],
            ) {
                let i = choose|i: int|
                    0 <= i < s.len() && (#[trigger] s[i]).entity_id == t && spec_hit(q, s[i]);
                assert(s.contains(s[i]));
                assert(s.to_multiset().count(s[i]) > 0);
                assert(sl.to_multiset().count(s[i]) + sr.to_multiset().count(s[i]) > 0);
                if sl.to_multiset().count(s[i]) > 0 {
                    assert(sl.contains(s[i]));
                    let w = choose|w: int| 0 <= w < sl.len() && sl[w] == s[i];
                    assert(sl[w].entity_id == t && spec_hit(q, sl[w]));
                    assert(pl.contains((q.entity_id, t)));
                    assert(ps[choose|k: int| 0 <= k < pl.len() && pl[k] == (q.entity_id, t)]
                        == (q.entity_id, t));
                } else {
                    assert(sr.contains(s[i]));
                    let w = choose|w: int| 0 <= w < sr.len() && sr[w] == s[i];
                    assert(sr[w].entity_id == t && spec_hit(q, sr[w]));
                    assert(pr.contains((q.entity_id, t)));
                    let k = choose|k: int| 0 <= k < pr.len() && pr[k] == (q.entity_id, t);
                    assert(ps[k + pl.len()] == (q.entity_id, t));
                }
            }
        }
        if distinct_ids(s) {
            lemma_partition_distinct(s, sl, sr);
            assert forall|ka: int, kb: int| 0 <= ka < kb < ps.len() implies ps[ka] != ps[kb] by {
                if ka < pl.len() && kb < pl.len() {
                    assert(pl.no_duplicates());
                } else if ka >= pl.len() && kb >= pl.len() {
                    assert(pr.no_duplicates());
                    assert(ps[ka] == pr[ka - pl.len()]);
                    assert(ps[kb] == pr[kb - pl.len()]);
                } else {
                    assert(ps[ka] == pl[ka]);
                    assert(ps[kb] == pr[kb - pl.len()]);
                    if ps[ka] == ps[kb] {
                        let t = ps[ka].1;
                        assert(pl.contains((q.entity_id, t)));
                        assert(pr.contains((q.entity_id, t)));
                        let il = choose|i: int|
                            0 <= i < sl.len() && (#[trigger] sl[i]).entity_id == t && spec_hit(
                                q,
                                sl[i],
                            );
                        let ir = choose|i: int|
                            0 <= i < sr.len() && (#[trigger] sr[i]).entity_id == t && spec_hit(
                                q,
                                sr[i],
                            );
                        assert(sl[il].entity_id == sr[ir].entity_id);
                        assert(false);
                    }
                }
            }
            assert(ps.no_duplicates());
        }
    }
}

/// Children of a partition inherit distinct ids, and no id crosses sides.
pub proof fn lemma_partition_distinct(
    parent: Seq<EntityAabb>,
    left: Seq<EntityAabb>,
    right: Seq<EntityAabb>,
)
    requires
        left.to_multiset().add(right.to_multiset()) == parent.to_multiset(),
        distinct_ids(parent),
    ensures
        distinct_ids(left),
        distinct_ids(right),
        forall|i: int, j: int|
            #![trigger left[i], right[j]]
            0 <= i < left.len() && 0 <= j < right.len() ==> left[i].entity_id
                != right[j].entity_id,
{
    assert(parent.no_duplicates()) by {
        assert forall|i: int, j: int|
            0 <= i < parent.len() && 0 <= j < parent.len() && i != j implies parent[i]
            != parent[j] by {
            if i < j {
                assert(parent[i].entity_id != parent[j].entity_id);
            } else {
                assert(parent[j].entity_id != parent[i].entity_id);
            }
        }
    }
    parent.lemma_multiset_has_no_duplicates();
    // each side's values occur at most once anywhere
    assert forall|x: EntityAabb| #[trigger] left.to_multiset().contains(x) implies left.to_multiset().count(
        x,
    ) == 1 by {
        assert(parent.to_multiset().count(x) == left.to_multiset().count(x)
            + right.to_multiset().count(x));
        assert(parent.to_multiset().contains(x));
        assert(parent.contains(x));
    }
    assert forall|x: EntityAabb| #[trigger] right.to_multiset().contains(x) implies right.to_multiset().count(
        x,
    ) == 1 by {
        assert(parent.to_multiset().count(x) == left.to_multiset().count(x)
            + right.to_multiset().count(x));
        assert(parent.to_multiset().contains(x));
        assert(parent.contains(x));
    }
    left.lemma_multiset_has_no_duplicates_conv();
    right.lemma_multiset_has_no_duplicates_conv();
    assert forall|x: EntityAabb| left.contains(x) || right.contains(x) implies #[trigger] parent.contains(
        x,
    ) by {
        assert(parent.to_multiset().count(x) == left.to_multiset().count(x)
            + right.to_multiset().count(x));
        if left.contains(x) {
            assert(left.to_multiset().count(x) > 0);
        } else {
            assert(right.to_multiset().count(x) > 0);
        }
    }
    assert forall|i: int, j: int| 0 <= i < j < left.len() implies left[i].entity_id
        != left[j].entity_id by {
        assert(left.contains(left[i]));
        assert(left.contains(left[j]));
        assert(left[i] != left[j]);
        assert(parent.contains(left[i]));
        assert(parent.contains(left[j]));
        lemma_same_id_same_index(parent, left[i], left[j]);
    }
    assert forall|i: int, j: int| 0 <= i < j < right.len() implies right[i].entity_id
        != right[j].entity_id by {
        assert(right.contains(right[i]));
        assert(right.contains(right[j]));
        assert(right[i] != right[j]);
        assert(parent.contains(right[i]));
        assert(parent.contains(right[j]));
        lemma_same_id_same_index(parent, right[i], right[j]);
    }
    assert forall|i: int, j: int|
        #![trigger left[i], right[j]]
        0 <= i < left.len() && 0 <= j < right.len() implies left[i].entity_id
        != right[j].entity_id by {
        assert(left.contains(left[i]));
        assert(right.contains(right[j]));
        if left[i] == right[j] {
            assert(parent.to_multiset().count(left[i]) == left.to_multiset().count(left[i])
                + right.to_multiset().count(right[j]));
            assert(left.to_multiset().count(left[i]) > 0);
            assert(right.to_multiset().count(right[j]) > 0);
            assert(parent.contains(left[i]));
            assert(parent.to_multiset().count(left[i]) == 1);
            assert(false);
        } else {
            assert(parent.contains(left[i]));
            assert(parent.contains(right[j]));
            lemma_same_id_same_index(parent, left[i], right[j]);
        }
    }
}

/// In a list with pairwise distinct ids, two distinct member values cannot
/// share an id.
proof fn lemma_same_id_same_index(parent: Seq<EntityAabb>, x: EntityAabb, y: EntityAabb)
    requires
        distinct_ids(parent),
        parent.contains(x),
        parent.contains(y),
        x != y,
    ensures
        x.entity_id != y.entity_id,
{
    let i = choose|i: int| 0 <= i < parent.len() && parent[i] == x;
    let j = choose|j: int| 0 <= j < parent.len() && parent[j] == y;
    assert(i != j);
    if i < j {
        assert(parent[i].entity_id != parent[j].entity_id);
    } else {
        assert(parent[j].entity_id != parent[i].entity_id);
    }
}

} // verus!
