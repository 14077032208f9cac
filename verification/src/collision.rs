use vstd::prelude::*;

use crate::collider::{sorted_ids, strictly_sorted_ids, submit_step, Collider, CollisionInfo, EntityAabb};
use crate::ecs::{ComponentId, EntityId, EntytyArcheType};
use crate::geometry::{half_i64, spec_half, Aabb, Vector2};
use crate::group::{Direction, Group};
use crate::bvh::{contact_pairs, create_tree, distinct_ids, get_contact_with, lemma_contact_pairs_exact, wf_tree, BvhNode};
use crate::group::MAX_GROUP;
use crate::world::{Transform, World};

verus! {

/// Live entities whose archetype holds every given component kind, in
/// ascending id order.
pub fn collect_entities_from_archetype(w: &World, values: &[ComponentId]) -> (r: Vec<EntityId>)
    requires
        w.entities.wf(),
    ensures
        forall|a: int, b: int| 0 <= a < b < r@.len() ==> r@[a].0 < r@[b].0,
        forall|j: int|
            0 <= j < r@.len() ==> {
                &&& (#[trigger] r@[j]).0 < w.entities.entities@.len()
                &&& w.entities.entities@[r@[j].0 as int] is Some
                &&& forall|v: int|
                    0 <= v < values@.len() ==> w.entities.entities@[
                        r@[j].0 as int
                    ].unwrap().archetype.components@.contains(#[trigger] values@[v])
            },
        forall|i: int|
            0 <= i < w.entities.entities@.len() && (#[trigger] w.entities.entities@[i]) is Some && (
            forall|v: int|
                0 <= v < values@.len() ==> w.entities.entities@[
                    i
                ].unwrap().archetype.components@.contains(#[trigger] values@[v])) ==> r@.contains(
                EntityId(i as usize),
            ),
{
    let arche = EntytyArcheType::create_archetype(values);
    let r = w.entities.get_entities_from_archetype(&arche);
    proof {
        assert forall|j: int| 0 <= j < r@.len() implies {
            &&& (#[trigger] r@[j]).0 < w.entities.entities@.len()
            &&& w.entities.entities@[r@[j].0 as int] is Some
            &&& forall|v: int|
                0 <= v < values@.len() ==> w.entities.entities@[
                    r@[j].0 as int
                ].unwrap().archetype.components@.contains(#[trigger] values@[v])
        } by {
            assert(w.entities.entities@[r@[j].0 as int].unwrap().archetype.spec_includes(arche));
        }
    }
    r
}

/// Live entities whose group value equals `group_id`, in ascending id
/// order.
pub fn collect_entities_from_group(w: &World, group_id: &Group) -> (r: Vec<EntityId>)
    requires
        w.entities.wf(),
        w.group.wf(),
    ensures
        forall|a: int, b: int| 0 <= a < b < r@.len() ==> r@[a].0 < r@[b].0,
        forall|j: int|
            0 <= j < r@.len() ==> {
                &&& (#[trigger] r@[j]).0 < w.entities.entities@.len()
                &&& w.entities.entities@[r@[j].0 as int] is Some
                &&& w.group.spec_get(r@[j]) == Some(*group_id)
            },
        forall|i: int|
            0 <= i < w.entities.entities@.len() && (#[trigger] w.entities.entities@[i]) is Some
                && w.group.spec_get(EntityId(i as usize)) == Some(*group_id) ==> r@.contains(
                EntityId(i as usize),
            ),
{
    let mut group_entities: Vec<EntityId> = Vec::new();
    let mut i: usize = 0;
    let n = w.entities.len();
    while i < n
        invariant
            w.entities.wf(),
            w.group.wf(),
            n == w.entities.entities@.len(),
            0 <= i <= n,
            forall|a: int, b: int| 0 <= a < b < group_entities@.len() ==> group_entities@[a].0
                < group_entities@[b].0,
            forall|j: int|
                0 <= j < group_entities@.len() ==> {
                    &&& (#[trigger] group_entities@[j]).0 < i
                    &&& w.entities.entities@[group_entities@[j].0 as int] is Some
                    &&& w.group.spec_get(group_entities@[j]) == Some(*group_id)
                },
            forall|k: int|
                0 <= k < i && (#[trigger] w.entities.entities@[k]) is Some && w.group.spec_get(
                    EntityId(k as usize),
                ) == Some(*group_id) ==> group_entities@.contains(EntityId(k as usize)),
        decreases n - i,
    {
        let ghost pre = group_entities@;
        match &w.entities.entities[i] {
            Some(value) => {
                match w.group.get(&value.id) {
                    Some(group) => {
                        if *group == *group_id {
                            group_entities.push(value.id);
                            proof {
                                assert(w.entities.entities@[i as int].unwrap().id.0 == i);
                                assert(group_entities@[pre.len() as int] == EntityId(i as usize));
                            }
                        }
                    },
                    None => {},
                }
            },
            None => {},
        }
        proof {
            assert forall|k: int|
                0 <= k < i + 1 && (#[trigger] w.entities.entities@[k]) is Some
                    && w.group.spec_get(EntityId(k as usize)) == Some(*group_id)
                implies group_entities@.contains(EntityId(k as usize)) by {
                if k < i {
                    let ww = choose|ww: int| 0 <= ww < pre.len() && pre[ww] == EntityId(k as usize);
                    assert(group_entities@[ww] == EntityId(k as usize));
                } else {
                    assert(w.entities.entities@[k].unwrap().id == EntityId(k as usize));
                    assert(group_entities@[group_entities@.len() - 1] == EntityId(k as usize));
                }
            }
        }
        i = i + 1;
    }
    group_entities
}

/// Why the narrow phase did not confirm a contact.
#[derive(Clone, Copy, Debug, PartialEq, Eq, Structural)]
pub enum RejectReason {
    /// The querying entity's group does not list the target's group.
    GroupNotPossible,
    /// No edge pair is in range on both axes: the boxes touch at most at a
    /// corner.
    NoContact,
}

/// Edge separations per compass direction, relative to a down-is-positive-Y
/// convention: how deep the entity's near edge sits past the target's far
/// edge on that side.
pub open spec fn diff_north(a: Aabb, b: Aabb) -> int {
    b.y_max - a.y_min
}

pub open spec fn diff_east(a: Aabb, b: Aabb) -> int {
    a.x_max - b.x_min
}

pub open spec fn diff_south(a: Aabb, b: Aabb) -> int {
    a.y_max - b.y_min
}

pub open spec fn diff_west(a: Aabb, b: Aabb) -> int {
    b.x_max - a.x_min
}

/// The entity's top edge lies between the target's edges, so the contact
/// edge could be the entity's north side; and so on for the other sides.
pub open spec fn north_possible(a: Aabb, b: Aabb) -> bool {
    a.y_min <= b.y_max && a.y_min >= b.y_min
}

pub open spec fn east_possible(a: Aabb, b: Aabb) -> bool {
    a.x_max <= b.x_max && a.x_max >= b.x_min
}

pub open spec fn south_possible(a: Aabb, b: Aabb) -> bool {
    a.y_max <= b.y_max && a.y_max >= b.y_min
}

pub open spec fn west_possible(a: Aabb, b: Aabb) -> bool {
    a.x_min <= b.x_max && a.x_min >= b.x_min
}

/// Deep interpenetration: the entity's span fully contains the target's on
/// the axis, making both opposing directions candidates at once.
pub open spec fn deep_y(a: Aabb, b: Aabb) -> bool {
    a.y_min < b.y_min && a.y_max > b.y_max
}

pub open spec fn deep_x(a: Aabb, b: Aabb) -> bool {
    a.x_min < b.x_min && a.x_max > b.x_max
}

pub open spec fn y_axis_possible(a: Aabb, b: Aabb) -> bool {
    north_possible(a, b) || south_possible(a, b) || deep_y(a, b)
}

pub open spec fn x_axis_possible(a: Aabb, b: Aabb) -> bool {
    east_possible(a, b) || west_possible(a, b) || deep_x(a, b)
}

/// The recorded separation for one direction; a direction that is no
/// candidate keeps the sentinel maximum and can never win the minimum.
pub open spec fn sep_north(a: Aabb, b: Aabb) -> int {
    if north_possible(a, b) || deep_y(a, b) {
        diff_north(a, b)
    } else {
        i64::MAX as int
    }
}

pub open spec fn sep_east(a: Aabb, b: Aabb) -> int {
    if east_possible(a, b) || deep_x(a, b) {
        diff_east(a, b)
    } else {
        i64::MAX as int
    }
}

pub open spec fn sep_south(a: Aabb, b: Aabb) -> int {
    if south_possible(a, b) || deep_y(a, b) {
        diff_south(a, b)
    } else {
        i64::MAX as int
    }
}

pub open spec fn sep_west(a: Aabb, b: Aabb) -> int {
    if west_possible(a, b) || deep_x(a, b) {
        diff_west(a, b)
    } else {
        i64::MAX as int
    }
}

/// The direction with the smallest recorded edge separation; earlier
/// directions win ties, in the order north, east, south, west.
pub open spec fn chosen_direction(a: Aabb, b: Aabb) -> Direction {
    let dn = sep_north(a, b);
    let de = sep_east(a, b);
    let ds = sep_south(a, b);
    let dw = sep_west(a, b);
    if dn <= de && dn <= ds && dn <= dw {
        Direction::North
    } else if de <= ds && de <= dw {
        Direction::East
    } else if ds <= dw {
        Direction::South
    } else {
        Direction::West
    }
}

/// The confirmed contact point: edge-aligned on the resolved axis,
/// midpoint-averaged on the other.
pub open spec fn contact_point(a: Aabb, b: Aabb, epos: Vector2, tpos: Vector2) -> Vector2 {
    match chosen_direction(a, b) {
        Direction::North => Vector2 {
            x: spec_half(epos.x + tpos.x) as i64,
            y: b.y_max,
        },
        Direction::East => Vector2 { x: b.x_min, y: spec_half(epos.y + tpos.y) as i64 },
        Direction::South => Vector2 {
            x: spec_half(epos.x + tpos.x) as i64,
            y: b.y_min,
        },
        Direction::West => Vector2 { x: b.x_max, y: spec_half(epos.y + tpos.y) as i64 },
    }
}

/// The world box of the entity's first collider at its current position.
pub open spec fn spec_entity_aabb0(w: World, id: EntityId) -> Aabb {
    w.collider.spec_get(id).unwrap()[0].spec_aabb(w.transform.spec_get(id).unwrap().position)
}

/// The narrow phase, as a function of the world: a typed rejection when the
/// groups forbid contact or when no axis has a candidate edge, otherwise
/// the contact's geometry.
pub open spec fn spec_narrow(w: World, e: EntityId, t: EntityId) -> Result<
    CollisionInfo,
    RejectReason,
> {
    let eg = w.group.spec_get(e).unwrap();
    let tg = w.group.spec_get(t).unwrap();
    if !Group::spec_can_contact(eg, tg) {
        Result::Err(RejectReason::GroupNotPossible)
    } else {
        let a = spec_entity_aabb0(w, e);
        let b = spec_entity_aabb0(w, t);
        if x_axis_possible(a, b) && y_axis_possible(a, b) {
            Result::Ok(
                CollisionInfo {
                    target_id: t,
                    target_group: w.collider.spec_get(t).unwrap()[0].group,
                    target_aabb: b,
                    point: contact_point(
                        a,
                        b,
                        w.transform.spec_get(e).unwrap().position,
                        w.transform.spec_get(t).unwrap().position,
                    ),
                    direction: chosen_direction(a, b),
                },
            )
        } else {
            Result::Err(RejectReason::NoContact)
        }
    }
}

/// The components the narrow phase reads must be present and well formed
/// for the given entity.
pub open spec fn narrow_inputs_ok(w: World, id: EntityId) -> bool {
    &&& w.group.spec_get(id) is Some
    &&& w.collider.spec_get(id) matches Some(cols) && cols@.len() >= 1 && cols@[0].shape.wf()
    &&& w.transform.spec_get(id) matches Some(t) && t.position.bounded()
}

/// Exact overlap test between the two entities' axis-aligned boxes,
/// producing a contact direction and point, or a typed rejection. The
/// group check is directional, from `entity`'s side.
pub fn narrow_collision_check(w: &World, entity: &EntityId, target: &EntityId) -> (r: Result<
    CollisionInfo,
    RejectReason,
>)
    requires
        w.group.wf(),
        w.collider.wf(),
        w.transform.wf(),
        narrow_inputs_ok(*w, *entity),
        narrow_inputs_ok(*w, *target),
    ensures
        r == spec_narrow(*w, *entity, *target),
{
    let entity_group = w.group.get_unchecked(entity);
    let target_group = w.group.get_unchecked(target);
    if !entity_group.is_possible_contact_by_group(*target_group) {
        return Result::Err(RejectReason::GroupNotPossible);
    }

    let entity_transform_position = w.transform.get_unchecked(entity).position;
    let entity_aabb = w.collider.get_unchecked(entity)[0].aabb(entity_transform_position);
    let target_transform_position = w.transform.get_unchecked(target).position;
    let target_collider_group = w.collider.get_unchecked(target)[0].group;
    let target_aabb = w.collider.get_unchecked(target)[0].aabb(target_transform_position);

    let mut is_possible_x = false;
    let mut is_possible_y = false;
    let mut diff_n: i64 = i64::MAX;
    let mut diff_e: i64 = i64::MAX;
    let mut diff_s: i64 = i64::MAX;
    let mut diff_w: i64 = i64::MAX;

    if entity_aabb.y_min <= target_aabb.y_max && entity_aabb.y_min >= target_aabb.y_min {
        is_possible_y = true;
        diff_n = target_aabb.y_max - entity_aabb.y_min;
    }
    if entity_aabb.x_max <= target_aabb.x_max && entity_aabb.x_max >= target_aabb.x_min {
        is_possible_x = true;
        diff_e = entity_aabb.x_max - target_aabb.x_min;
    }
    if entity_aabb.y_max <= target_aabb.y_max && entity_aabb.y_max >= target_aabb.y_min {
        is_possible_y = true;
        diff_s = entity_aabb.y_max - target_aabb.y_min;
    }
    if entity_aabb.x_min <= target_aabb.x_max && entity_aabb.x_min >= target_aabb.x_min {
        is_possible_x = true;
        diff_w = target_aabb.x_max - entity_aabb.x_min;
    }

    if entity_aabb.y_min < target_aabb.y_min && entity_aabb.y_max > target_aabb.y_max {
        is_possible_y = true;
        diff_n = target_aabb.y_max - entity_aabb.y_min;
        diff_s = entity_aabb.y_max - target_aabb.y_min;
    }
    if entity_aabb.x_min < target_aabb.x_min && entity_aabb.x_max > target_aabb.x_max {
        is_possible_x = true;
        diff_e = entity_aabb.x_max - target_aabb.x_min;
        diff_w = target_aabb.x_max - entity_aabb.x_min;
    }

    if is_possible_x && is_possible_y {
        proof {
            assert(diff_n == sep_north(entity_aabb, target_aabb));
            assert(diff_e == sep_east(entity_aabb, target_aabb));
            assert(diff_s == sep_south(entity_aabb, target_aabb));
            assert(diff_w == sep_west(entity_aabb, target_aabb));
        }
        let mut collision_info = CollisionInfo {
            target_id: *target,
            target_group: target_collider_group,
            target_aabb,
            point: Vector2::zero(),
            direction: Direction::North,
        };
        if diff_n <= diff_e && diff_n <= diff_s && diff_n <= diff_w {
            collision_info.direction = Direction::North;
            collision_info.point.x = half_i64(entity_transform_position.x
                + target_transform_position.x);
            collision_info.point.y = target_aabb.y_max;
        } else if diff_e <= diff_s && diff_e <= diff_w {
            collision_info.direction = Direction::East;
            collision_info.point.x = target_aabb.x_min;
            collision_info.point.y = half_i64(entity_transform_position.y
                + target_transform_position.y);
        } else if diff_s <= diff_w {
            collision_info.direction = Direction::South;
            collision_info.point.x = half_i64(entity_transform_position.x
                + target_transform_position.x);
            collision_info.point.y = target_aabb.y_min;
        } else {
            collision_info.direction = Direction::West;
            collision_info.point.x = target_aabb.x_max;
            collision_info.point.y = half_i64(entity_transform_position.y
                + target_transform_position.y);
        }
        return Result::Ok(collision_info);
    }
    Result::Err(RejectReason::NoContact)
}

/// An entity belongs to a group's spatial partition when it is live, its
/// group value is that group, and its archetype lists the collider store.
pub open spec fn spec_is_member(w: World, grp: Group, id: EntityId) -> bool {
    &&& w.entities.spec_live(id)
    &&& w.group.spec_get(id) == Some(grp)
    &&& w.entities.entities@[id.0 as int].unwrap().archetype.components@.contains(ComponentId(1))
}

/// The id, position, and first-collider world box of an entity, as the
/// broad phase sees them.
pub open spec fn spec_entity_aabb(w: World, id: EntityId) -> EntityAabb {
    EntityAabb {
        entity_id: id,
        position: w.transform.spec_get(id).unwrap().position,
        aabb: spec_entity_aabb0(w, id),
    }
}

/// Every live entity that carries a collider has the components the
/// collision pass reads, well formed.
pub open spec fn collision_ready(w: World) -> bool {
    forall|i: int|
        0 <= i < w.entities.entities@.len() && (#[trigger] w.entities.entities@[i]) is Some
            && w.entities.entities@[i].unwrap().archetype.components@.contains(ComponentId(1))
            ==> narrow_inputs_ok(w, EntityId(i as usize))
}

/// What one cached tree slot must hold after the per-frame rebuild: for a
/// group that needs a tree, either no member exists and the slot is empty,
/// or the slot holds a well-formed tree over exactly the group's members,
/// in ascending id order, each with its true position and box.
pub open spec fn bvh_slot_ok(w: World, slot: Option<BvhNode>, g: int) -> bool {
    let grp = Group::spec_from_index(g);
    grp.spec_is_need_bvh() ==> match slot {
        None => forall|id: EntityId| !spec_is_member(w, grp, id),
        Some(node) => {
            &&& wf_tree(node)
            &&& forall|a: int, b: int|
                0 <= a < b < node.entitiy_aabbs@.len() ==> node.entitiy_aabbs@[a].entity_id.0
                    < node.entitiy_aabbs@[b].entity_id.0
            &&& forall|k: int|
                0 <= k < node.entitiy_aabbs@.len() ==> {
                    &&& spec_is_member(w, grp, (#[trigger] node.entitiy_aabbs@[k]).entity_id)
                    &&& node.entitiy_aabbs@[k] == spec_entity_aabb(
                        w,
                        node.entitiy_aabbs@[k].entity_id,
                    )
                }
            &&& forall|id: EntityId|
                #[trigger] spec_is_member(w, grp, id) ==> exists|k: int|
                    0 <= k < node.entitiy_aabbs@.len() && node.entitiy_aabbs@[k].entity_id == id
        },
    }
}

/// Rebuilds the per-group trees from the current positions, fully, from
/// scratch: one tree per group that asks for spatial partitioning, over
/// the live entities of that group that carry a collider.
pub fn create_bvh(w: &mut World)
    requires
        old(w).wf(),
        collision_ready(*old(w)),
        old(w).vars.bvh@.len() == MAX_GROUP,
    ensures
        final(w).wf(),
        collision_ready(*final(w)),
        final(w).entities == old(w).entities,
        final(w).transform == old(w).transform,
        final(w).collider == old(w).collider,
        final(w).group == old(w).group,
        final(w).clock == old(w).clock,
        final(w).destination == old(w).destination,
        final(w).target == old(w).target,
        final(w).player_vars == old(w).player_vars,
        final(w).consts == old(w).consts,
        final(w).vars.is_playing == old(w).vars.is_playing,
        final(w).vars.last_click_point == old(w).vars.last_click_point,
        final(w).vars.is_click_detection == old(w).vars.is_click_detection,
        final(w).vars.state == old(w).vars.state,
        final(w).vars.bvh@.len() == MAX_GROUP,
        forall|g: int|
            0 <= g < MAX_GROUP && !Group::spec_from_index(g).spec_is_need_bvh() ==> final(w).vars.bvh@[g] == old(w).vars.bvh@[g],
        forall|g: int| 0 <= g < MAX_GROUP ==> bvh_slot_ok(*old(w), #[trigger] final(w).vars.bvh@[g], g),
{
    let collider_id = w.collider.id();
    let mut g: usize = 0;
    while g < MAX_GROUP
        invariant
            w.wf(),
            collision_ready(*w),
            w.entities == old(w).entities,
            w.transform == old(w).transform,
            w.collider == old(w).collider,
            w.group == old(w).group,
            w.clock == old(w).clock,
            w.destination == old(w).destination,
            w.target == old(w).target,
            w.player_vars == old(w).player_vars,
            w.consts == old(w).consts,
            w.vars.is_playing == old(w).vars.is_playing,
            w.vars.last_click_point == old(w).vars.last_click_point,
            w.vars.is_click_detection == old(w).vars.is_click_detection,
            w.vars.state == old(w).vars.state,
            w.vars.bvh@.len() == MAX_GROUP,
            collider_id == ComponentId(1),
            0 <= g <= MAX_GROUP,
            forall|k: int|
                g <= k < MAX_GROUP ==> #[trigger] w.vars.bvh@[k] == old(w).vars.bvh@[k],
            forall|k: int|
                0 <= k < g && !Group::spec_from_index(k).spec_is_need_bvh() ==> #[trigger] w.vars.bvh@[k]
                    == old(w).vars.bvh@[k],
            forall|k: int| 0 <= k < g ==> bvh_slot_ok(*old(w), #[trigger] w.vars.bvh@[k], k),
        decreases MAX_GROUP - g,
    {
        let group = Group::get_from_index(g);
        if !group.is_need_bvh() {
            g = g + 1;
            continue ;
        }
        let entities = collect_entities_from_group(w, &group);
        if entities.len() == 0 {
            w.vars.bvh[g] = None;
            proof {
                assert forall|id: EntityId| !spec_is_member(*old(w), group, id) by {
                    if spec_is_member(*old(w), group, id) {
                        assert(w.entities.entities@[id.0 as int].unwrap().id == id);
                        assert(entities@.contains(EntityId(id.0)));
                    }
                }
            }
            g = g + 1;
            continue ;
        }
        let mut entity_aabbs: Vec<EntityAabb> = Vec::new();
        let mut j: usize = 0;
        while j < entities.len()
            invariant
                w.wf(),
                collision_ready(*w),
                collider_id == ComponentId(1),
                0 <= j <= entities@.len(),
                forall|a: int, b: int| 0 <= a < b < entities@.len() ==> entities@[a].0
                    < entities@[b].0,
                forall|jj: int|
                    0 <= jj < entities@.len() ==> {
                        &&& (#[trigger] entities@[jj]).0 < w.entities.entities@.len()
                        &&& w.entities.entities@[entities@[jj].0 as int] is Some
                        &&& w.group.spec_get(entities@[jj]) == Some(group)
                    },
                forall|i2: int|
                    0 <= i2 < w.entities.entities@.len() && (#[trigger] w.entities.entities@[i2])
                        is Some && w.group.spec_get(EntityId(i2 as usize)) == Some(group)
                        ==> entities@.contains(EntityId(i2 as usize)),
                forall|a: int, b: int|
                    0 <= a < b < entity_aabbs@.len() ==> entity_aabbs@[a].entity_id.0
                        < entity_aabbs@[b].entity_id.0,
                forall|k: int|
                    0 <= k < entity_aabbs@.len() ==> {
                        &&& spec_is_member(*w, group, (#[trigger] entity_aabbs@[k]).entity_id)
                        &&& entity_aabbs@[k] == spec_entity_aabb(
                            *w,
                            entity_aabbs@[k].entity_id,
                        )
                        &&& (#[trigger] entity_aabbs@[k]).wf()
                    },
                forall|jj: int|
                    0 <= jj < j && spec_is_member(*w, group, #[trigger] entities@[jj]) ==> exists|
                        k: int,
                    | 0 <= k < entity_aabbs@.len() && entity_aabbs@[k].entity_id == entities@[jj],
                j >= 1 && entity_aabbs@.len() >= 1 ==> entity_aabbs@.last().entity_id.0
                    <= entities@[j - 1].0,
                entity_aabbs@.len() >= 1 ==> j >= 1,
            decreases entities@.len() - j,
        {
            let entity_id = entities[j];
            let ghost pre = entity_aabbs@;
            if w.entities.has_component(&entity_id, &collider_id) {
                let position = w.transform.get_unchecked(&entity_id).position;
                let aabb = w.collider.get_unchecked(&entity_id)[0].aabb(position);
                entity_aabbs.push(EntityAabb { entity_id, position, aabb });
                proof {
                    assert forall|a: int, b: int|
                        0 <= a < b < entity_aabbs@.len() implies entity_aabbs@[a].entity_id.0
                        < entity_aabbs@[b].entity_id.0 by {
                        if b == entity_aabbs@.len() - 1 {
                            if pre.len() >= 1 {
                                assert(pre.last().entity_id.0 <= entities@[j - 1].0);
                                assert(pre[a].entity_id.0 <= pre.last().entity_id.0 || a
                                    == pre.len() - 1);
                                assert(entities@[j - 1].0 < entities@[j as int].0);
                            }
                        }
                    }
                }
            }
            proof {
                assert forall|jj: int|
                    0 <= jj < j + 1 && spec_is_member(*w, group, #[trigger] entities@[jj])
                    implies exists|k: int|
                    0 <= k < entity_aabbs@.len() && entity_aabbs@[k].entity_id == entities@[jj] by {
                    if jj < j {
                        let k = choose|k: int|
                            0 <= k < pre.len() && pre[k].entity_id == entities@[jj];
                        assert(entity_aabbs@[k].entity_id == entities@[jj]);
                    } else {
                        assert(entity_aabbs@[entity_aabbs@.len() - 1].entity_id == entities@[jj]);
                    }
                }
            }
            j = j + 1;
        }
        if entity_aabbs.len() == 0 {
            w.vars.bvh[g] = None;
            proof {
                assert forall|id: EntityId| !spec_is_member(*old(w), group, id) by {
                    if spec_is_member(*old(w), group, id) {
                        assert(w.entities.entities@[id.0 as int].unwrap().id == id);
                        assert(entities@.contains(id));
                        let jj = choose|jj: int|
                            0 <= jj < entities@.len() && entities@[jj] == id;
                        assert(spec_is_member(*w, group, entities@[jj]));
                    }
                }
            }
        } else {
            let ghost leaves = entity_aabbs@;
            let bvh = create_tree(entity_aabbs, false);
            w.vars.bvh[g] = Some(bvh);
            proof {
                assert forall|id: EntityId| #[trigger] spec_is_member(*old(w), group, id)
                    implies exists|k: int|
                    0 <= k < leaves.len() && leaves[k].entity_id == id by {
                    assert(w.entities.entities@[id.0 as int].unwrap().id == id);
                    assert(entities@.contains(id));
                    let jj = choose|jj: int| 0 <= jj < entities@.len() && entities@[jj] == id;
                    assert(spec_is_member(*w, group, entities@[jj]));
                }
            }
        }
        g = g + 1;
    }
}

/// `c` is a geometric candidate for query `q`: a live entity of a
/// partitioned group, carrying a collider, whose box meets the query's box,
/// and not the query itself.
pub open spec fn spec_candidate(w: World, c: EntityId, q: EntityId) -> bool {
    &&& c != q
    &&& w.entities.spec_live(c)
    &&& w.group.spec_get(c) is Some
    &&& w.group.spec_get(c).unwrap().spec_is_need_bvh()
    &&& w.entities.entities@[c.0 as int].unwrap().archetype.components@.contains(ComponentId(1))
    &&& spec_entity_aabb(w, c).aabb.spec_intersects(spec_entity_aabb(w, q).aabb)
}

/// A group that needs a tree sits at its own index, and no other.
proof fn lemma_need_bvh_index(g: int, g2: int)
    requires
        0 <= g < MAX_GROUP,
        0 <= g2 < MAX_GROUP,
        Group::spec_from_index(g) == Group::spec_from_index(g2),
        Group::spec_from_index(g).spec_is_need_bvh(),
    ensures
        g == g2,
{
}

/// The pairs appended for one query so far name exactly the candidates
/// whose group ordinal is below `g`.
pub open spec fn block_ok(
    w: World,
    pairs: Seq<(EntityId, EntityId)>,
    base: int,
    q: EntityId,
    g: int,
) -> bool {
    forall|c: EntityId|
        #![trigger spec_candidate(w, c, q)]
        (exists|k: int| base <= k < pairs.len() && (#[trigger] pairs[k]).1 == c) <==> (
        spec_candidate(w, c, q) && 0 <= w.group.spec_get(c).unwrap().spec_index() < g)
}

/// Queries every cached tree for one entity and appends its candidate
/// pairs: query id first, found entity second.
#[verifier::rlimit(100)]
#[verifier::spinoff_prover]
fn query_trees(
    w: &World,
    entity_aabb: &EntityAabb,
    pairs: &mut Vec<(EntityId, EntityId)>,
)
    requires
        w.wf(),
        w.vars.bvh@.len() == MAX_GROUP,
        forall|g: int| 0 <= g < MAX_GROUP ==> bvh_slot_ok(*w, #[trigger] w.vars.bvh@[g], g),
        forall|g: int|
            0 <= g < MAX_GROUP && !Group::spec_from_index(g).spec_is_need_bvh()
                ==> w.vars.bvh@[g] is None,
        *entity_aabb == spec_entity_aabb(*w, entity_aabb.entity_id),
    ensures
        final(pairs)@.len() >= old(pairs)@.len(),
        forall|k: int|
            0 <= k < old(pairs)@.len() ==> final(pairs)@[k] == old(pairs)@[k],
        forall|k: int|
            old(pairs)@.len() <= k < final(pairs)@.len() ==> (#[trigger] final(pairs)@[k]).0
                == entity_aabb.entity_id,
        forall|c: EntityId|
            #![trigger spec_candidate(*w, c, entity_aabb.entity_id)]
            (exists|k: int|
                old(pairs)@.len() <= k < final(pairs)@.len() && (#[trigger] final(pairs)@[k]).1
                    == c) <==> spec_candidate(*w, c, entity_aabb.entity_id),
        forall|k1: int, k2: int|
            old(pairs)@.len() <= k1 < k2 < final(pairs)@.len() ==> (#[trigger] final(pairs)@[k1]).1
                != (#[trigger] final(pairs)@[k2]).1,
{
    let ghost base = pairs@.len() as int;
    let ghost q = entity_aabb.entity_id;
    let mut g: usize = 0;
    while g < MAX_GROUP
        invariant
            w.wf(),
            w.vars.bvh@.len() == MAX_GROUP,
            forall|gg: int| 0 <= gg < MAX_GROUP ==> bvh_slot_ok(*w, #[trigger] w.vars.bvh@[gg], gg),
            forall|gg: int|
                0 <= gg < MAX_GROUP && !Group::spec_from_index(gg).spec_is_need_bvh()
                    ==> w.vars.bvh@[gg] is None,
            *entity_aabb == spec_entity_aabb(*w, q),
            q == entity_aabb.entity_id,
            0 <= g <= MAX_GROUP,
            base <= pairs@.len(),
            forall|k: int| 0 <= k < base ==> pairs@[k] == old(pairs)@[k],
            base == old(pairs)@.len(),
            forall|k: int|
                base <= k < pairs@.len() ==> (#[trigger] pairs@[k]).0 == q,
            block_ok(*w, pairs@, base, q, g as int),
            forall|k1: int, k2: int|
                base <= k1 < k2 < pairs@.len() ==> (#[trigger] pairs@[k1]).1 != (
                #[trigger] pairs@[k2]).1,
        decreases MAX_GROUP - g,
    {
        let ghost block0 = pairs@;
        let ghost grp = Group::spec_from_index(g as int);
        match &w.vars.bvh[g] {
            Some(n) => {
                proof {
                    assert(bvh_slot_ok(*w, w.vars.bvh@[g as int], g as int));
                    assert(grp.spec_is_need_bvh()) by {
                        if !grp.spec_is_need_bvh() {
                            assert(w.vars.bvh@[g as int] is None);
                        }
                    }
                    lemma_contact_pairs_exact(*entity_aabb, *n);
                }
                get_contact_with(entity_aabb, n, pairs);
                proof {
                    let ps = contact_pairs(*entity_aabb, *n);
                    let s = n.entitiy_aabbs@;
                    // every new pair is the query with a member of this group
                    assert(block_ok(*w, pairs@, base, q, g + 1)) by {
                    assert forall|c: EntityId|
                        #![trigger spec_candidate(*w, c, q)]
                        (exists|k: int|
                            base <= k < pairs@.len() && (#[trigger] pairs@[k]).1 == c) <==> (
                        spec_candidate(*w, c, q) && 0 <= w.group.spec_get(c).unwrap().spec_index()
                            < g + 1) by {
                        let cand = spec_candidate(*w, c, q);
                        if exists|k: int| base <= k < pairs@.len() && (#[trigger] pairs@[k]).1
                            == c {
                            let k = choose|k: int|
                                base <= k < pairs@.len() && (#[trigger] pairs@[k]).1 == c;
                            if k < block0.len() {
                                assert(pairs@[k] == block0[k]);
                                let cand = spec_candidate(*w, c, q);
                                assert(spec_candidate(*w, c, q)
                                    && 0 <= w.group.spec_get(c).unwrap().spec_index() < g);
                            } else {
                                assert(pairs@[k] == ps[k - block0.len()]);
                                assert(ps[k - block0.len()].0 == q);
                                assert(ps.contains((q, c)));
                                let i = choose|i: int|
                                    0 <= i < s.len() && (#[trigger] s[i]).entity_id == c
                                        && crate::bvh::spec_hit(*entity_aabb, s[i]);
                                assert(spec_is_member(*w, grp, c));
                                assert(s[i] == spec_entity_aabb(*w, c));
                                assert(w.group.spec_get(c) == Some(grp));
                                assert(w.entities.entities@[c.0 as int].unwrap().id == c);
                                assert(spec_candidate(*w, c, q));
                                assert(w.group.spec_get(c).unwrap().spec_index() == grp.spec_index());
                                assert(0 <= grp.spec_index() < g + 1);
                            }
                        }
                        if spec_candidate(*w, c, q) && 0 <= w.group.spec_get(
                            c,
                        ).unwrap().spec_index() < g + 1 {
                            if w.group.spec_get(c).unwrap().spec_index() < g {
                                let k = choose|k: int|
                                    base <= k < block0.len() && (#[trigger] block0[k]).1 == c;
                                assert(pairs@[k] == block0[k]);
                                assert(pairs@[k].1 == c);
                            } else {
                                // the candidate's group is this very slot's group
                                let cg = w.group.spec_get(c).unwrap();
                                assert(cg.spec_index() == g as int);
                                assert(Group::spec_from_index(g as int) == cg) by {
                                    lemma_from_index_of_index(cg);
                                }
                                assert(spec_is_member(*w, grp, c));
                                let k = choose|k: int|
                                    0 <= k < s.len() && s[k].entity_id == c;
                                assert(s[k] == spec_entity_aabb(*w, c));
                                assert(crate::bvh::spec_hit(*entity_aabb, s[k]));
                                assert(ps.contains((q, c)));
                                let pk = choose|pk: int| 0 <= pk < ps.len() && ps[pk] == (q, c);
                                assert(pairs@[block0.len() + pk] == (q, c));
                                assert(base <= block0.len() + pk < pairs@.len());
                            }
                        }
                    }
                    }
                    // no two new pairs share a found entity
                    assert forall|k1: int, k2: int|
                        base <= k1 < k2 < pairs@.len() implies (#[trigger] pairs@[k1]).1 != (
                    #[trigger] pairs@[k2]).1 by {
                        if k2 < block0.len() {
                        } else if k1 >= block0.len() {
                            assert(pairs@[k1] == ps[k1 - block0.len()]);
                            assert(pairs@[k2] == ps[k2 - block0.len()]);
                            assert(distinct_ids(s));
                            assert(ps.no_duplicates());
                            if pairs@[k1].1 == pairs@[k2].1 {
                                assert(ps[k1 - block0.len()] == ps[k2 - block0.len()]);
                                assert(false);
                            }
                        } else {
                            if pairs@[k1].1 == pairs@[k2].1 {
                                let c = pairs@[k1].1;
                                let cand = spec_candidate(*w, c, q);
                                assert(block0[k1].1 == c);
                                assert(exists|k: int|
                                    base <= k < block0.len() && (#[trigger] block0[k]).1 == c);
                                assert(0 <= w.group.spec_get(c).unwrap().spec_index() < g);
                                assert(pairs@[k2] == ps[k2 - block0.len()]);
                                assert(ps.contains((q, c)));
                                let i = choose|i: int|
                                    0 <= i < s.len() && (#[trigger] s[i]).entity_id == c
                                        && crate::bvh::spec_hit(*entity_aabb, s[i]);
                                assert(spec_is_member(*w, grp, c));
                                assert(w.group.spec_get(c) == Some(grp));
                                assert(grp.spec_index() == g as int);
                                assert(false);
                            }
                        }
                    }
                }
            },
            None => {
                proof {
                    assert(block_ok(*w, pairs@, base, q, g + 1)) by {
                    assert forall|c: EntityId|
                        #![trigger spec_candidate(*w, c, q)]
                        (exists|k: int|
                            base <= k < pairs@.len() && (#[trigger] pairs@[k]).1 == c) <==> (
                        spec_candidate(*w, c, q) && 0 <= w.group.spec_get(c).unwrap().spec_index()
                            < g + 1) by {
                        let cand = spec_candidate(*w, c, q);
                        if spec_candidate(*w, c, q) && 0 <= w.group.spec_get(
                            c,
                        ).unwrap().spec_index() < g + 1 && !(0 <= w.group.spec_get(
                            c,
                        ).unwrap().spec_index() < g) {
                            let cg = w.group.spec_get(c).unwrap();
                            assert(cg.spec_index() == g as int);
                            assert(Group::spec_from_index(g as int) == cg) by {
                                lemma_from_index_of_index(cg);
                            }
                            assert(spec_is_member(*w, cg, c));
                            assert(bvh_slot_ok(*w, w.vars.bvh@[g as int], g as int));
                            assert(false);
                        }
                    }
                    }
                }
            },
        }
        g = g + 1;
    }
    proof {
        assert(block_ok(*w, pairs@, base, q, MAX_GROUP as int));
        assert forall|c: EntityId|
            #![trigger spec_candidate(*w, c, q)]
            (exists|k: int| base <= k < pairs@.len() && (#[trigger] pairs@[k]).1 == c)
            <==> spec_candidate(*w, c, q) by {
            let cand = spec_candidate(*w, c, q);
            if spec_candidate(*w, c, q) {
                let cg = w.group.spec_get(c).unwrap();
                lemma_from_index_of_index(cg);
                assert(0 <= cg.spec_index() < MAX_GROUP);
            }
        }
    }
}

/// `q` takes part in the frame's queries: live, with a collider listed in
/// its archetype.
pub open spec fn spec_is_query(w: World, q: EntityId) -> bool {
    &&& w.entities.spec_live(q)
    &&& w.entities.entities@[q.0 as int].unwrap().archetype.components@.contains(ComponentId(1))
}

/// A confirmed contact of collider `c` this frame: query `q` found `c` as
/// a geometric candidate and the narrow phase accepted the pair.
pub open spec fn spec_accepted(w: World, c: EntityId, q: EntityId) -> bool {
    &&& spec_is_query(w, q)
    &&& spec_candidate(w, c, q)
    &&& spec_narrow(w, c, q) is Ok
}

/// The two collider lists agree on everything but the per-frame contact
/// bookkeeping of their entries.
pub open spec fn colliders_similar(c0: Seq<Collider>, c1: Seq<Collider>) -> bool {
    &&& c1.len() == c0.len()
    &&& forall|k: int|
        0 <= k < c0.len() ==> {
            &&& (#[trigger] c1[k]).shape == c0[k].shape
            &&& c1[k].group == c0[k].group
            &&& c1[k].offset == c0[k].offset
        }
}

/// The two worlds agree on everything but the collider store's stored
/// contact bookkeeping and the cached trees.
pub open spec fn contact_state_only_differs(w0: World, w1: World) -> bool {
    &&& w1.entities == w0.entities
    &&& w1.transform == w0.transform
    &&& w1.group == w0.group
    &&& w1.clock == w0.clock
    &&& w1.destination == w0.destination
    &&& w1.target == w0.target
    &&& w1.player_vars == w0.player_vars
    &&& w1.consts == w0.consts
    &&& w1.collider.id == w0.collider.id
    &&& w1.collider.id_index_map@ == w0.collider.id_index_map@
    &&& w1.collider.items@.len() == w0.collider.items@.len()
    &&& forall|k: int|
        0 <= k < w0.collider.items@.len() ==> {
            &&& (#[trigger] w1.collider.items@[k]).id == w0.collider.items@[k].id
            &&& (w1.collider.items@[k].item is Some <==> w0.collider.items@[k].item is Some)
            &&& (w0.collider.items@[k].item is Some ==> colliders_similar(
                w0.collider.items@[k].item.unwrap()@,
                w1.collider.items@[k].item.unwrap()@,
            ))
        }
}

/// The predicates the collision pass is specified with read only the parts
/// of the world that `contact_state_only_differs` keeps fixed.
pub proof fn lemma_preds_stable(w0: World, w1: World, c: EntityId, q: EntityId)
    requires
        contact_state_only_differs(w0, w1),
        w0.collider.wf(),
    ensures
        w1.collider.spec_registered(c) == w0.collider.spec_registered(c),
        spec_is_query(w1, q) == spec_is_query(w0, q),
        narrow_inputs_ok(w1, c) == narrow_inputs_ok(w0, c),
        (narrow_inputs_ok(w0, c) && narrow_inputs_ok(w0, q)) ==> {
            &&& spec_entity_aabb(w1, c) == spec_entity_aabb(w0, c)
            &&& spec_candidate(w1, c, q) == spec_candidate(w0, c, q)
            &&& spec_narrow(w1, c, q) == spec_narrow(w0, c, q)
        },
{
    assert(w1.collider.spec_registered(c) == w0.collider.spec_registered(c));
    assert(narrow_inputs_ok(w1, c) == narrow_inputs_ok(w0, c)) by {
        if w0.collider.spec_registered(c) {
            let i = w0.collider.spec_index_of(c);
            if 0 <= i < w0.collider.items@.len() {
                assert(w1.collider.items@[i].id == w0.collider.items@[i].id);
                if w0.collider.items@[i].item is Some {
                    assert(colliders_similar(
                        w0.collider.items@[i].item.unwrap()@,
                        w1.collider.items@[i].item.unwrap()@,
                    ));
                    if w0.collider.spec_get(c).unwrap()@.len() >= 1 {
                        assert(w1.collider.spec_get(c).unwrap()[0].shape == w0.collider.spec_get(
                            c,
                        ).unwrap()[0].shape);
                    }
                }
            }
        }
    }
    if narrow_inputs_ok(w0, c) && narrow_inputs_ok(w0, q) {
        let ic = w0.collider.spec_index_of(c);
        let iq = w0.collider.spec_index_of(q);
        assert(colliders_similar(
            w0.collider.items@[ic].item.unwrap()@,
            w1.collider.items@[ic].item.unwrap()@,
        ));
        assert(colliders_similar(
            w0.collider.items@[iq].item.unwrap()@,
            w1.collider.items@[iq].item.unwrap()@,
        ));
        assert(w1.collider.spec_get(c).unwrap()[0].shape == w0.collider.spec_get(c).unwrap()[0].shape);
        assert(w1.collider.spec_get(q).unwrap()[0].shape == w0.collider.spec_get(q).unwrap()[0].shape);
        assert(w1.collider.spec_get(q).unwrap()[0].group == w0.collider.spec_get(q).unwrap()[0].group);
        assert(spec_entity_aabb0(w1, c) == spec_entity_aabb0(w0, c));
        assert(spec_entity_aabb0(w1, q) == spec_entity_aabb0(w0, q));
    }
}

/// A partition-worthy group is recovered from its own ordinal.
proof fn lemma_from_index_of_index(grp: Group)
    requires
        grp.spec_is_need_bvh(),
    ensures
        0 <= grp.spec_index() < MAX_GROUP,
        Group::spec_from_index(grp.spec_index()) == grp,
{
}


/// The collider list of `id` in `w1` is that of `w0` with only the first
/// entry's `target_infos` cleared.
pub open spec fn cleared_state(w0: World, w1: World, id: EntityId) -> bool {
    match (w0.collider.spec_get(id), w1.collider.spec_get(id)) {
        (Some(c0), Some(c1)) => {
            &&& c0@.len() >= 1
            &&& c1@.len() == c0@.len()
            &&& (forall|k: int| 1 <= k < c0@.len() ==> c1@[k] == c0@[k])
            &&& c1@[0].shape == c0@[0].shape
            &&& c1@[0].group == c0@[0].group
            &&& c1@[0].offset == c0@[0].offset
            &&& c1@[0].targets@ == c0@[0].targets@
            &&& c1@[0].targets_temp@ == c0@[0].targets_temp@
            &&& c1@[0].targets_enter@ == c0@[0].targets_enter@
            &&& c1@[0].targets_left@ == c0@[0].targets_left@
            &&& c1@[0].target_infos@.len() == 0
        },
        (None, None) => true,
        _ => false,
    }
}

/// Clears every collider's contact geometry from the previous frame.
#[verifier::rlimit(100)]
fn clear_infos(w: &mut World)
    requires
        old(w).wf(),
        collision_ready(*old(w)),
        forall|id: EntityId|
            #[trigger] old(w).collider.spec_registered(id) ==> old(w).collider.spec_get(id)
                is Some,
    ensures
        final(w).wf(),
        collision_ready(*final(w)),
        contact_state_only_differs(*old(w), *final(w)),
        final(w).vars == old(w).vars,
        forall|id: EntityId|
            #[trigger] final(w).collider.spec_registered(id) ==> final(w).collider.spec_get(id)
                is Some,
        forall|id: EntityId| #[trigger] cleared_state(*old(w), *final(w), id),
{
    let collider_id = w.collider.id();
    let entities = collect_entities_from_archetype(w, &[collider_id]);
    proof {
        assert forall|id: EntityId| old(w).collider.spec_get(id) is Some implies entities@.contains(
            id,
        ) by {
            assert(old(w).collider.spec_registered(id));
            assert(old(w).entities.spec_live(id));
            let i = id.0 as int;
            assert(old(w).entities.entities@[i] is Some);
            let e = old(w).entities.entities@[i].unwrap();
            assert(e.id == id);
            assert(old(w).spec_synced_all(e));
            assert(e.archetype.components@.contains(ComponentId(1)));
            assert(forall|v: int|
                0 <= v < seq![ComponentId(1)].len() ==> e.archetype.components@.contains(
                    #[trigger] seq![ComponentId(1)][v],
                ));
            assert(entities@.contains(EntityId(i as usize)));
        }
    }
    let mut i: usize = 0;
    while i < entities.len()
        invariant
            old(w).wf(),
            collision_ready(*old(w)),
            w.wf(),
            collision_ready(*w),
            contact_state_only_differs(*old(w), *w),
            w.vars == old(w).vars,
            collider_id == ComponentId(1),
            0 <= i <= entities@.len(),
            forall|a: int, b: int| 0 <= a < b < entities@.len() ==> entities@[a].0
                < entities@[b].0,
            forall|j: int|
                0 <= j < entities@.len() ==> {
                    &&& (#[trigger] entities@[j]).0 < w.entities.entities@.len()
                    &&& w.entities.entities@[entities@[j].0 as int] is Some
                    &&& w.entities.entities@[
                        entities@[j].0 as int
                    ].unwrap().archetype.components@.contains(ComponentId(1))
                },
            forall|id: EntityId|
                old(w).collider.spec_get(id) is Some ==> entities@.contains(id),
            forall|id: EntityId|
                #[trigger] w.collider.spec_registered(id) ==> (w.collider.spec_get(id) is Some
                    <==> old(w).collider.spec_get(id) is Some),
            forall|id: EntityId|
                old(w).collider.spec_get(id) is Some && !entities@.take(i as int).contains(id)
                    ==> #[trigger] w.collider.spec_get(id) == old(w).collider.spec_get(id),
            forall|id: EntityId|
                old(w).collider.spec_get(id) is Some && entities@.take(i as int).contains(id)
                    ==> #[trigger] cleared_state(*old(w), *w, id),
        decreases entities@.len() - i,
    {
        let entity_id = entities[i];
        let ghost w_entry = *w;
        proof {
            let e = w.entities.entities@[entity_id.0 as int].unwrap();
            assert(e.id == entity_id);
            assert(w.spec_synced_all(e));
            assert(w.collider.spec_registered(entity_id) && w.collider.spec_get(entity_id)
                is Some);
            assert(old(w).collider.spec_get(entity_id) is Some);
            assert(narrow_inputs_ok(*w, entity_id));
        }
        let mut cols = w.collider.take_unchecked(&entity_id);
        let ghost cols_pre = cols@;
        let mut col0 = cols.remove(0);
        col0.target_infos = Vec::new();
        cols.insert(0, col0);
        proof {
            assert(cols@ =~= cols_pre.update(0, cols@[0]));
        }
        w.collider.set(&entity_id, Some(cols));
        proof {
            assert(entities@.take(i + 1) =~= entities@.take(i as int).push(entity_id));
            assert(cleared_state(*old(w), *w, entity_id));
            assert forall|id: EntityId| id != entity_id implies #[trigger] w.collider.spec_get(id)
                == w_entry.collider.spec_get(id) by {}
            assert forall|id: EntityId|
                old(w).collider.spec_get(id) is Some && entities@.take(i + 1).contains(id)
                implies #[trigger] cleared_state(*old(w), *w, id) by {
                if id != entity_id {
                    assert(entities@.take(i as int).contains(id));
                    assert(cleared_state(*old(w), w_entry, id));
                    assert(w.collider.spec_get(id) == w_entry.collider.spec_get(id));
                }
            }
            assert forall|id: EntityId|
                old(w).collider.spec_get(id) is Some && !entities@.take(i + 1).contains(id)
                implies #[trigger] w.collider.spec_get(id) == old(w).collider.spec_get(id) by {
                assert(!entities@.take(i as int).contains(id));
                assert(id != entity_id) by {
                    if id == entity_id {
                        assert(entities@.take(i + 1)[i as int] == entity_id);
                    }
                }
                assert(w.collider.spec_get(id) == w_entry.collider.spec_get(id));
            }
            assert forall|s: int|
                0 <= s < w.entities.entities@.len() && (#[trigger] w.entities.entities@[s])
                    is Some implies w.spec_synced_all(w.entities.entities@[s].unwrap()) by {
                let e2 = w.entities.entities@[s].unwrap();
                assert(old(w).spec_synced_all(e2));
                assert(old(w).collider.spec_registered(e2.id) == w.collider.spec_registered(
                    e2.id,
                ));
            }
            assert(collision_ready(*w)) by {
                assert forall|s: int|
                    0 <= s < w.entities.entities@.len() && (#[trigger] w.entities.entities@[s])
                        is Some && w.entities.entities@[
                        s
                    ].unwrap().archetype.components@.contains(ComponentId(1))
                    implies narrow_inputs_ok(*w, EntityId(s as usize)) by {
                    lemma_preds_stable(
                        *old(w),
                        *w,
                        EntityId(s as usize),
                        EntityId(s as usize),
                    );
                }
            }
            assert(contact_state_only_differs(*old(w), *w));
        }
        i = i + 1;
    }
    proof {
        assert forall|id: EntityId| #[trigger] cleared_state(*old(w), *w, id) by {
            if old(w).collider.spec_get(id) is Some {
                assert(entities@.contains(id));
                assert(entities@.take(entities@.len() as int) =~= entities@);
            } else {
                assert(!old(w).collider.spec_registered(id) || old(w).collider.spec_get(id)
                    is None);
                if w.collider.spec_registered(id) {
                    assert(w.collider.spec_get(id) is Some ==> old(w).collider.spec_get(id)
                        is Some);
                }
                assert(w.collider.spec_get(id) is None);
            }
        }
    }
}


/// The collider list of `id` in `w1` is that of `w0` with the first
/// entry's accumulator holding exactly the accepted queries among the
/// first `upto` candidate pairs, in ascending order, and the contact
/// geometry aligned with it.
pub open spec fn fill_state(
    w0: World,
    w1: World,
    id: EntityId,
    pairs: Seq<(EntityId, EntityId)>,
    upto: int,
) -> bool {
    match (w0.collider.spec_get(id), w1.collider.spec_get(id)) {
        (Some(c0), Some(c1)) => {
            &&& c0@.len() >= 1
            &&& c1@.len() == c0@.len()
            &&& (forall|k: int| 1 <= k < c0@.len() ==> c1@[k] == c0@[k])
            &&& c1@[0].shape == c0@[0].shape
            &&& c1@[0].group == c0@[0].group
            &&& c1@[0].offset == c0@[0].offset
            &&& c1@[0].targets@ == c0@[0].targets@
            &&& c1@[0].targets_enter@ == c0@[0].targets_enter@
            &&& c1@[0].targets_left@ == c0@[0].targets_left@
            &&& strictly_sorted_ids(c1@[0].targets_temp@)
            &&& (forall|q: EntityId|
                #![trigger c1@[0].targets_temp@.contains(q)]
                c1@[0].targets_temp@.contains(q) <==> (exists|k: int|
                    0 <= k < upto && #[trigger] pairs[k] == (q, id) && spec_narrow(w0, id, q)
                        is Ok))
            &&& c1@[0].target_infos@.len() == c1@[0].targets_temp@.len()
            &&& (forall|k: int|
                0 <= k < c1@[0].target_infos@.len() ==> #[trigger] c1@[0].target_infos@[k]
                    == spec_narrow(w0, id, c1@[0].targets_temp@[k]).unwrap())
        },
        (None, None) => true,
        _ => false,
    }
}

/// A strictly ascending id list with values below `n` has at most `n`
/// entries.
proof fn lemma_sorted_bound(s: Seq<EntityId>, n: int)
    requires
        strictly_sorted_ids(s),
        forall|i: int| 0 <= i < s.len() ==> (#[trigger] s[i]).0 < n,
        0 <= n,
    ensures
        s.len() <= n,
    decreases s.len(),
{
    if s.len() > 0 {
        assert(s[s.len() - 1].0 < n);
        assert forall|i: int| 0 <= i < s.drop_last().len() implies (#[trigger] s.drop_last()[i]).0
            < n - 1 by {
            assert(s.drop_last()[i] == s[i]);
            assert(s[i].0 < s[s.len() - 1].0);
        }
        lemma_sorted_bound(s.drop_last(), n - 1);
    }
}


/// Writes one accepted contact: pushes the geometry and the query onto the
/// found collider's per-frame accumulators.
#[verifier::rlimit(100)]
fn record_contact(
    w: &mut World,
    c: EntityId,
    q: EntityId,
    info: CollisionInfo,
    Ghost(w0): Ghost<World>,
    Ghost(pairs): Ghost<Seq<(EntityId, EntityId)>>,
    Ghost(pi): Ghost<int>,
)
    requires
        w0.entities.entities@.len() < usize::MAX,
        w0.wf(),
        collision_ready(w0),
        forall|id: EntityId|
            #[trigger] w0.collider.spec_registered(id) ==> w0.collider.spec_get(id) is Some,
        forall|id: EntityId|
            #[trigger] w0.collider.spec_get(id) matches Some(cols) ==> cols@.len() >= 1
                && cols@[0].targets_temp@.len() == 0 && cols@[0].target_infos@.len() == 0,
        forall|k: int|
            0 <= k < pairs.len() ==> spec_is_query(w0, (#[trigger] pairs[k]).0) && spec_candidate(
                w0,
                pairs[k].1,
                pairs[k].0,
            ),
        forall|k1: int, k2: int|
            0 <= k1 < k2 < pairs.len() && (#[trigger] pairs[k1]).1 == (#[trigger] pairs[k2]).1
                ==> pairs[k1].0.0 < pairs[k2].0.0,
        0 <= pi < pairs.len(),
        pairs[pi] == (q, c),
        spec_narrow(w0, c, q) == Result::<CollisionInfo, RejectReason>::Ok(info),
        old(w).wf(),
        contact_state_only_differs(w0, *old(w)),
        forall|id: EntityId|
            #[trigger] old(w).collider.spec_registered(id) ==> old(w).collider.spec_get(id)
                is Some,
        forall|id: EntityId| #[trigger] fill_state(w0, *old(w), id, pairs, pi),
    ensures
        final(w).wf(),
        contact_state_only_differs(w0, *final(w)),
        final(w).vars == old(w).vars,
        forall|id: EntityId|
            #[trigger] final(w).collider.spec_registered(id) ==> final(w).collider.spec_get(id)
                is Some,
        forall|id: EntityId| #[trigger] fill_state(w0, *final(w), id, pairs, pi + 1),
{
    proof {
        assert(spec_candidate(w0, c, q));
        assert(w0.collider.spec_registered(c) && w0.collider.spec_get(c) is Some) by {
            let e = w0.entities.entities@[c.0 as int].unwrap();
            assert(e.id == c);
            assert(w0.spec_synced_all(e));
        }
        assert(fill_state(w0, *old(w), c, pairs, pi));
        assert(w.collider.spec_get(c) is Some);
        // room for one more entry: the accumulator's ids are strictly
        // ascending and all name live entities
        let temp0 = w.collider.spec_get(c).unwrap()@[0].targets_temp@;
        assert forall|i: int| 0 <= i < temp0.len() implies (#[trigger] temp0[i]).0
            < w0.entities.entities@.len() by {
            assert(temp0.contains(temp0[i]));
            let k = choose|k: int|
                0 <= k < pi && #[trigger] pairs[k] == (temp0[i], c) && spec_narrow(
                    w0,
                    c,
                    temp0[i],
                ) is Ok;
            assert(spec_is_query(w0, temp0[i]));
        }
        lemma_sorted_bound(temp0, w0.entities.entities@.len() as int);
    }
    let mut cols = w.collider.take_unchecked(&c);
    let ghost cols_pre = cols@;
    let mut col0 = cols.remove(0);
    let ghost temp_pre = col0.targets_temp@;
    col0.target_infos.push(info);
    col0.add_target(&q);
    cols.insert(0, col0);
    proof {
        assert(cols@ =~= cols_pre.update(0, cols@[0]));
    }
    w.collider.set(&c, Some(cols));
    proof {
        assert forall|id: EntityId| id != c implies #[trigger] w.collider.spec_get(id) == old(w).collider.spec_get(id) by {}
        let c0 = w0.collider.spec_get(c).unwrap();
        let c1 = w.collider.spec_get(c).unwrap();
        assert(c1@[0].targets_temp@ == temp_pre.push(q));
        assert(strictly_sorted_ids(temp_pre.push(q))) by {
            assert forall|a: int, b: int|
                0 <= a < b < temp_pre.push(q).len() implies temp_pre.push(q)[a].0 < temp_pre.push(
                q,
            )[b].0 by {
                if b == temp_pre.len() {
                    let qa = temp_pre[a];
                    assert(temp_pre.contains(qa));
                    let ka = choose|ka: int|
                        0 <= ka < pi && #[trigger] pairs[ka] == (qa, c) && spec_narrow(w0, c, qa)
                            is Ok;
                    assert(pairs[ka].1 == pairs[pi].1);
                    assert(qa.0 < q.0);
                }
            }
        }
        assert forall|q2: EntityId|
            #![trigger temp_pre.push(q).contains(q2)]
            temp_pre.push(q).contains(q2) <==> (exists|k: int|
                0 <= k < pi + 1 && #[trigger] pairs[k] == (q2, c) && spec_narrow(w0, c, q2)
                    is Ok) by {
            if temp_pre.push(q).contains(q2) {
                let wk = choose|wk: int|
                    0 <= wk < temp_pre.push(q).len() && temp_pre.push(q)[wk] == q2;
                if wk < temp_pre.len() {
                    assert(temp_pre[wk] == q2);
                    assert(temp_pre.contains(q2));
                } else {
                    assert(q2 == q);
                    assert(pairs[pi] == (q2, c));
                }
            }
            if exists|k: int|
                0 <= k < pi + 1 && #[trigger] pairs[k] == (q2, c) && spec_narrow(w0, c, q2)
                    is Ok {
                let k = choose|k: int|
                    0 <= k < pi + 1 && #[trigger] pairs[k] == (q2, c) && spec_narrow(w0, c, q2)
                        is Ok;
                if k < pi {
                    assert(temp_pre.contains(q2));
                    let wk = choose|wk: int| 0 <= wk < temp_pre.len() && temp_pre[wk] == q2;
                    assert(temp_pre.push(q)[wk] == q2);
                } else {
                    assert(q2 == q);
                    assert(temp_pre.push(q)[temp_pre.len() as int] == q2);
                }
            }
        }
        assert(fill_state(w0, *w, c, pairs, pi + 1)) by {
            assert(c1@[0].target_infos@.len() == c1@[0].targets_temp@.len());
            assert forall|k: int| 0 <= k < c1@[0].target_infos@.len() implies #[trigger] c1@[
                0
            ].target_infos@[k] == spec_narrow(w0, c, c1@[0].targets_temp@[k]).unwrap() by {
                if k < temp_pre.len() {
                    assert(c1@[0].target_infos@[k] == old(w).collider.spec_get(c).unwrap()@[
                        0
                    ].target_infos@[k]);
                    assert(c1@[0].targets_temp@[k] == temp_pre[k]);
                } else {
                    assert(c1@[0].target_infos@[k] == info);
                    assert(c1@[0].targets_temp@[k] == q);
                }
            }
        }
        assert forall|id: EntityId| #[trigger] fill_state(w0, *w, id, pairs, pi + 1) by {
            if id != c {
                assert(fill_state(w0, *old(w), id, pairs, pi));
                assert(w.collider.spec_get(id) == old(w).collider.spec_get(id));
                if w0.collider.spec_get(id) is Some {
                    let cid1 = w.collider.spec_get(id).unwrap();
                    assert forall|q2: EntityId|
                        #![trigger cid1@[0].targets_temp@.contains(q2)]
                        cid1@[0].targets_temp@.contains(q2) <==> (exists|k: int|
                            0 <= k < pi + 1 && #[trigger] pairs[k] == (q2, id) && spec_narrow(
                                w0,
                                id,
                                q2,
                            ) is Ok) by {
                        if exists|k: int|
                            0 <= k < pi + 1 && #[trigger] pairs[k] == (q2, id) && spec_narrow(
                                w0,
                                id,
                                q2,
                            ) is Ok {
                            let k = choose|k: int|
                                0 <= k < pi + 1 && #[trigger] pairs[k] == (q2, id) && spec_narrow(
                                    w0,
                                    id,
                                    q2,
                                ) is Ok;
                            assert(k != pi);
                        }
                    }
                }
            }
        }
        assert forall|s: int|
            0 <= s < w.entities.entities@.len() && (#[trigger] w.entities.entities@[s]) is Some
            implies w.spec_synced_all(w.entities.entities@[s].unwrap()) by {
            let e2 = w.entities.entities@[s].unwrap();
            assert(old(w).spec_synced_all(e2));
            assert(old(w).collider.spec_registered(e2.id) == w.collider.spec_registered(e2.id));
        }
        assert(contact_state_only_differs(w0, *w));
    }
}

/// Runs the narrow phase over the accumulated candidate pairs and writes
/// each accepted contact into the found collider's accumulator and contact
/// geometry, in the pairs' order.
#[verifier::rlimit(100)]
fn narrow_fill(w: &mut World, pairs: &Vec<(EntityId, EntityId)>)
    requires
        old(w).entities.entities@.len() < usize::MAX,
        old(w).wf(),
        collision_ready(*old(w)),
        forall|id: EntityId|
            #[trigger] old(w).collider.spec_registered(id) ==> old(w).collider.spec_get(id)
                is Some,
        forall|id: EntityId|
            #[trigger] old(w).collider.spec_get(id) matches Some(cols) ==> cols@.len() >= 1
                && cols@[0].targets_temp@.len() == 0 && cols@[0].target_infos@.len() == 0,
        forall|k: int|
            0 <= k < pairs@.len() ==> spec_is_query(*old(w), (#[trigger] pairs@[k]).0)
                && spec_candidate(*old(w), pairs@[k].1, pairs@[k].0),
        forall|k1: int, k2: int|
            0 <= k1 < k2 < pairs@.len() && (#[trigger] pairs@[k1]).1 == (#[trigger] pairs@[k2]).1
                ==> pairs@[k1].0.0 < pairs@[k2].0.0,
    ensures
        final(w).wf(),
        contact_state_only_differs(*old(w), *final(w)),
        final(w).vars == old(w).vars,
        forall|id: EntityId|
            #[trigger] final(w).collider.spec_registered(id) ==> final(w).collider.spec_get(id)
                is Some,
        forall|id: EntityId|
            #[trigger] fill_state(*old(w), *final(w), id, pairs@, pairs@.len() as int),
{
    let mut pi: usize = 0;
    proof {
        assert forall|id: EntityId| #[trigger] fill_state(*old(w), *old(w), id, pairs@, 0) by {
            if old(w).collider.spec_get(id) is Some {
            }
        }
    }
    while pi < pairs.len()
        invariant
            old(w).entities.entities@.len() < usize::MAX,
            old(w).wf(),
            collision_ready(*old(w)),
            forall|id: EntityId|
                #[trigger] old(w).collider.spec_registered(id) ==> old(w).collider.spec_get(id)
                    is Some,
            forall|id: EntityId|
                #[trigger] old(w).collider.spec_get(id) matches Some(cols) ==> cols@.len() >= 1
                    && cols@[0].targets_temp@.len() == 0 && cols@[0].target_infos@.len() == 0,
            forall|k: int|
                0 <= k < pairs@.len() ==> spec_is_query(*old(w), (#[trigger] pairs@[k]).0)
                    && spec_candidate(*old(w), pairs@[k].1, pairs@[k].0),
            forall|k1: int, k2: int|
                0 <= k1 < k2 < pairs@.len() && (#[trigger] pairs@[k1]).1 == (
                #[trigger] pairs@[k2]).1 ==> pairs@[k1].0.0 < pairs@[k2].0.0,
            0 <= pi <= pairs@.len(),
            w.wf(),
            contact_state_only_differs(*old(w), *w),
            w.vars == old(w).vars,
            forall|id: EntityId|
                #[trigger] w.collider.spec_registered(id) ==> w.collider.spec_get(id) is Some,
            forall|id: EntityId| #[trigger] fill_state(*old(w), *w, id, pairs@, pi as int),
        decreases pairs@.len() - pi,
    {
        let pair = pairs[pi];
        let q = pair.0;
        let c = pair.1;
        let ghost w_entry = *w;
        proof {
            assert(spec_candidate(*old(w), c, q));
            assert(spec_is_query(*old(w), q));
            assert(old(w).collider.spec_registered(c) && old(w).collider.spec_get(c) is Some) by {
                let e = old(w).entities.entities@[c.0 as int].unwrap();
                assert(e.id == c);
                assert(old(w).spec_synced_all(e));
            }
            assert(narrow_inputs_ok(*old(w), c)) by {
                assert(collision_ready(*old(w)));
                let i = c.0 as int;
                assert(old(w).entities.entities@[i] is Some);
            }
            assert(narrow_inputs_ok(*old(w), q)) by {
                let i = q.0 as int;
                assert(old(w).entities.entities@[i] is Some);
            }
            lemma_preds_stable(*old(w), *w, c, q);
            lemma_preds_stable(*old(w), *w, q, q);
        }
        let r = narrow_collision_check(w, &c, &q);
        match r {
            Result::Ok(info) => {
                record_contact(
                    w,
                    c,
                    q,
                    info,
                    Ghost(*old(w)),
                    Ghost(pairs@),
                    Ghost(pi as int),
                );
            },
            Result::Err(_) => {
                proof {
                    assert(spec_narrow(*old(w), c, q) == r);
                    assert forall|id: EntityId| #[trigger] fill_state(
                        *old(w),
                        *w,
                        id,
                        pairs@,
                        pi + 1,
                    ) by {
                        assert(fill_state(*old(w), *w, id, pairs@, pi as int));
                        if old(w).collider.spec_get(id) is Some {
                            let cid1 = w.collider.spec_get(id).unwrap();
                            assert forall|q2: EntityId|
                                #![trigger cid1@[0].targets_temp@.contains(q2)]
                                cid1@[0].targets_temp@.contains(q2) <==> (exists|k: int|
                                    0 <= k < pi + 1 && #[trigger] pairs@[k] == (q2, id)
                                        && spec_narrow(*old(w), id, q2) is Ok) by {
                                if exists|k: int|
                                    0 <= k < pi + 1 && #[trigger] pairs@[k] == (q2, id)
                                        && spec_narrow(*old(w), id, q2) is Ok {
                                    let k = choose|k: int|
                                        0 <= k < pi + 1 && #[trigger] pairs@[k] == (q2, id)
                                            && spec_narrow(*old(w), id, q2) is Ok;
                                    if k == pi {
                                        assert((q2, id) == (q, c));
                                        assert(false);
                                    }
                                }
                            }
                        }
                    }
                }
            },
        }
        pi = pi + 1;
    }
}


/// The collider list of `id` in `w1` is that of `w0` after the submit
/// step: the accumulator promoted to the confirmed set, the enter/left
/// deltas computed, the accumulator cleared.
pub open spec fn submit_state(w0: World, w1: World, id: EntityId) -> bool {
    match (w0.collider.spec_get(id), w1.collider.spec_get(id)) {
        (Some(c0), Some(c1)) => {
            &&& c0@.len() >= 1
            &&& c1@.len() == c0@.len()
            &&& (forall|k: int| 1 <= k < c0@.len() ==> c1@[k] == c0@[k])
            &&& c1@[0].shape == c0@[0].shape
            &&& c1@[0].group == c0@[0].group
            &&& c1@[0].offset == c0@[0].offset
            &&& c1@[0].target_infos@ == c0@[0].target_infos@
            &&& c1@[0].targets@ == c0@[0].targets_temp@
            &&& ({
                let (next, enter, left) = submit_step(
                    c0@[0].targets_temp@,
                    c0@[0].targets@,
                    Seq::empty(),
                    Seq::empty(),
                );
                &&& c1@[0].targets@ == next
                &&& c1@[0].targets_enter@ == enter
                &&& c1@[0].targets_left@ == left
            })
            &&& c1@[0].targets_temp@.len() == 0
        },
        (None, None) => true,
        _ => false,
    }
}

/// Promotes every collider's accumulator to its confirmed set, exactly
/// once per collider, after all pairs have been evaluated.
#[verifier::rlimit(100)]
fn submit_all(w: &mut World)
    requires
        old(w).wf(),
        forall|id: EntityId|
            #[trigger] old(w).collider.spec_registered(id) ==> old(w).collider.spec_get(id)
                is Some,
        forall|id: EntityId|
            #[trigger] old(w).collider.spec_get(id) matches Some(cols) ==> cols@.len() >= 1
                && sorted_ids(cols@[0].targets@),
    ensures
        final(w).wf(),
        contact_state_only_differs(*old(w), *final(w)),
        final(w).vars == old(w).vars,
        forall|id: EntityId|
            #[trigger] final(w).collider.spec_registered(id) ==> final(w).collider.spec_get(id)
                is Some,
        forall|id: EntityId| #[trigger] submit_state(*old(w), *final(w), id),
{
    let collider_id = w.collider.id();
    let entities = collect_entities_from_archetype(w, &[collider_id]);
    proof {
        assert forall|id: EntityId| old(w).collider.spec_get(id) is Some implies entities@.contains(
            id,
        ) by {
            assert(old(w).collider.spec_registered(id));
            assert(old(w).entities.spec_live(id));
            let i = id.0 as int;
            let e = old(w).entities.entities@[i].unwrap();
            assert(e.id == id);
            assert(old(w).spec_synced_all(e));
            assert(e.archetype.components@.contains(ComponentId(1)));
            assert(forall|v: int|
                0 <= v < seq![ComponentId(1)].len() ==> e.archetype.components@.contains(
                    #[trigger] seq![ComponentId(1)][v],
                ));
            assert(entities@.contains(EntityId(i as usize)));
        }
    }
    let mut i: usize = 0;
    while i < entities.len()
        invariant
            old(w).wf(),
            forall|id: EntityId|
                #[trigger] old(w).collider.spec_registered(id) ==> old(w).collider.spec_get(id)
                    is Some,
            forall|id: EntityId|
                #[trigger] old(w).collider.spec_get(id) matches Some(cols) ==> cols@.len() >= 1
                    && sorted_ids(cols@[0].targets@),
            w.wf(),
            contact_state_only_differs(*old(w), *w),
            w.vars == old(w).vars,
            collider_id == ComponentId(1),
            0 <= i <= entities@.len(),
            forall|a: int, b: int| 0 <= a < b < entities@.len() ==> entities@[a].0
                < entities@[b].0,
            forall|j: int|
                0 <= j < entities@.len() ==> {
                    &&& (#[trigger] entities@[j]).0 < w.entities.entities@.len()
                    &&& w.entities.entities@[entities@[j].0 as int] is Some
                    &&& w.entities.entities@[
                        entities@[j].0 as int
                    ].unwrap().archetype.components@.contains(ComponentId(1))
                },
            forall|id: EntityId|
                old(w).collider.spec_get(id) is Some ==> entities@.contains(id),
            forall|id: EntityId|
                #[trigger] w.collider.spec_registered(id) ==> (w.collider.spec_get(id) is Some
                    <==> old(w).collider.spec_get(id) is Some),
            forall|id: EntityId|
                old(w).collider.spec_get(id) is Some && !entities@.take(i as int).contains(id)
                    ==> #[trigger] w.collider.spec_get(id) == old(w).collider.spec_get(id),
            forall|id: EntityId|
                old(w).collider.spec_get(id) is Some && entities@.take(i as int).contains(id)
                    ==> #[trigger] submit_state(*old(w), *w, id),
        decreases entities@.len() - i,
    {
        let entity_id = entities[i];
        let ghost w_entry = *w;
        proof {
            let e = w.entities.entities@[entity_id.0 as int].unwrap();
            assert(e.id == entity_id);
            assert(w.spec_synced_all(e));
            assert(w.collider.spec_registered(entity_id) && w.collider.spec_get(entity_id)
                is Some);
            assert(old(w).collider.spec_get(entity_id) is Some);
            assert(!entities@.take(i as int).contains(entity_id)) by {
                if entities@.take(i as int).contains(entity_id) {
                    let k = choose|k: int|
                        0 <= k < i && entities@.take(i as int)[k] == entity_id;
                    assert(entities@[k] == entity_id);
                    assert(entities@[k].0 < entities@[i as int].0);
                }
            }
            assert(w.collider.spec_get(entity_id) == old(w).collider.spec_get(entity_id));
        }
        let mut cols = w.collider.take_unchecked(&entity_id);
        let ghost cols_pre = cols@;
        let mut col0 = cols.remove(0);
        col0.targets_submit();
        cols.insert(0, col0);
        proof {
            assert(cols@ =~= cols_pre.update(0, cols@[0]));
        }
        w.collider.set(&entity_id, Some(cols));
        proof {
            assert(entities@.take(i + 1) =~= entities@.take(i as int).push(entity_id));
            assert forall|id: EntityId| id != entity_id implies #[trigger] w.collider.spec_get(id)
                == w_entry.collider.spec_get(id) by {}
            assert(submit_state(*old(w), *w, entity_id));
            assert forall|id: EntityId|
                old(w).collider.spec_get(id) is Some && entities@.take(i + 1).contains(id)
                implies #[trigger] submit_state(*old(w), *w, id) by {
                if id != entity_id {
                    assert(entities@.take(i as int).contains(id));
                    assert(submit_state(*old(w), w_entry, id));
                    assert(w.collider.spec_get(id) == w_entry.collider.spec_get(id));
                }
            }
            assert forall|id: EntityId|
                old(w).collider.spec_get(id) is Some && !entities@.take(i + 1).contains(id)
                implies #[trigger] w.collider.spec_get(id) == old(w).collider.spec_get(id) by {
                assert(!entities@.take(i as int).contains(id));
                assert(id != entity_id) by {
                    if id == entity_id {
                        assert(entities@.take(i + 1)[i as int] == entity_id);
                    }
                }
                assert(w.collider.spec_get(id) == w_entry.collider.spec_get(id));
            }
            assert forall|s: int|
                0 <= s < w.entities.entities@.len() && (#[trigger] w.entities.entities@[s])
                    is Some implies w.spec_synced_all(w.entities.entities@[s].unwrap()) by {
                let e2 = w.entities.entities@[s].unwrap();
                assert(w_entry.spec_synced_all(e2));
                assert(w_entry.collider.spec_registered(e2.id) == w.collider.spec_registered(
                    e2.id,
                ));
            }
            assert(contact_state_only_differs(*old(w), *w));
        }
        i = i + 1;
    }
    proof {
        assert forall|id: EntityId| #[trigger] submit_state(*old(w), *w, id) by {
            if old(w).collider.spec_get(id) is Some {
                assert(entities@.contains(id));
                assert(entities@.take(entities@.len() as int) =~= entities@);
            } else {
                if w.collider.spec_registered(id) {
                    assert(w.collider.spec_get(id) is Some ==> old(w).collider.spec_get(id)
                        is Some);
                }
                assert(w.collider.spec_get(id) is None);
            }
        }
    }
}

/// Differing only in contact bookkeeping is transitive.
proof fn lemma_differs_trans(wa: World, wb: World, wc: World)
    requires
        contact_state_only_differs(wa, wb),
        contact_state_only_differs(wb, wc),
    ensures
        contact_state_only_differs(wa, wc),
{
    assert forall|k: int| 0 <= k < wa.collider.items@.len() implies {
        &&& (#[trigger] wc.collider.items@[k]).id == wa.collider.items@[k].id
        &&& (wc.collider.items@[k].item is Some <==> wa.collider.items@[k].item is Some)
        &&& (wa.collider.items@[k].item is Some ==> colliders_similar(
            wa.collider.items@[k].item.unwrap()@,
            wc.collider.items@[k].item.unwrap()@,
        ))
    } by {
        assert(wb.collider.items@[k].id == wa.collider.items@[k].id);
        if wa.collider.items@[k].item is Some {
            assert(colliders_similar(
                wa.collider.items@[k].item.unwrap()@,
                wb.collider.items@[k].item.unwrap()@,
            ));
            assert(colliders_similar(
                wb.collider.items@[k].item.unwrap()@,
                wc.collider.items@[k].item.unwrap()@,
            ));
        }
    }
}

/// A tree built over one world stays exact for any world that differs only
/// in contact bookkeeping.
proof fn lemma_slot_ok_stable(wa: World, wb: World, slot: Option<BvhNode>, g: int)
    requires
        contact_state_only_differs(wa, wb),
        wa.wf(),
        collision_ready(wa),
        bvh_slot_ok(wa, slot, g),
    ensures
        bvh_slot_ok(wb, slot, g),
{
    let grp = Group::spec_from_index(g);
    if grp.spec_is_need_bvh() {
        match slot {
            None => {
                assert forall|id: EntityId| !spec_is_member(wb, grp, id) by {
                    if spec_is_member(wb, grp, id) {
                        assert(spec_is_member(wa, grp, id));
                    }
                }
            },
            Some(node) => {
                assert forall|k: int| 0 <= k < node.entitiy_aabbs@.len() implies {
                    &&& spec_is_member(wb, grp, (#[trigger] node.entitiy_aabbs@[k]).entity_id)
                    &&& node.entitiy_aabbs@[k] == spec_entity_aabb(
                        wb,
                        node.entitiy_aabbs@[k].entity_id,
                    )
                } by {
                    let id = node.entitiy_aabbs@[k].entity_id;
                    assert(spec_is_member(wa, grp, id));
                    assert(narrow_inputs_ok(wa, id)) by {
                        assert(wa.entities.entities@[id.0 as int] is Some);
                    }
                    lemma_preds_stable(wa, wb, id, id);
                }
                assert forall|id: EntityId| #[trigger] spec_is_member(wb, grp, id) implies exists|
                    k: int,
                | 0 <= k < node.entitiy_aabbs@.len() && node.entitiy_aabbs@[k].entity_id == id by {
                    assert(spec_is_member(wa, grp, id));
                }
            },
        }
    }
}


/// The per-frame outcome for one collider: its confirmed set names exactly
/// the entities whose contact the narrow phase accepted this frame, sorted
/// by id; the contact geometry lines up with it; and the enter/left deltas
/// relate it to the previous frame's set by the submit step.
pub open spec fn frame_result(w0: World, w1: World, id: EntityId) -> bool {
    match (w0.collider.spec_get(id), w1.collider.spec_get(id)) {
        (Some(c0), Some(c1)) => {
            &&& c0@.len() >= 1
            &&& c1@.len() == c0@.len()
            &&& (forall|k: int| 1 <= k < c0@.len() ==> c1@[k] == c0@[k])
            &&& c1@[0].shape == c0@[0].shape
            &&& c1@[0].group == c0@[0].group
            &&& c1@[0].offset == c0@[0].offset
            &&& c1@[0].targets_temp@.len() == 0
            &&& strictly_sorted_ids(c1@[0].targets@)
            &&& (forall|t: EntityId|
                #![trigger c1@[0].targets@.contains(t)]
                c1@[0].targets@.contains(t) <==> spec_accepted(w0, id, t))
            &&& c1@[0].target_infos@.len() == c1@[0].targets@.len()
            &&& (forall|k: int|
                0 <= k < c1@[0].target_infos@.len() ==> #[trigger] c1@[0].target_infos@[k]
                    == spec_narrow(w0, id, c1@[0].targets@[k]).unwrap())
            &&& ({
                let (next, enter, left) = submit_step(
                    c1@[0].targets@,
                    c0@[0].targets@,
                    Seq::empty(),
                    Seq::empty(),
                );
                &&& c1@[0].targets_enter@ == enter
                &&& c1@[0].targets_left@ == left
            })
        },
        (None, None) => true,
        _ => false,
    }
}

/// One full collision pass: the per-group trees are rebuilt from the
/// current positions, every collider entity queries every tree for
/// candidates, the narrow phase confirms or rejects each candidate pair,
/// and each collider's contact set is promoted with its enter/left deltas,
/// exactly once, after all pairs have been evaluated.
#[verifier::rlimit(100)]
pub fn collision(w: &mut World)
    requires
        old(w).entities.entities@.len() < usize::MAX,
        old(w).wf(),
        collision_ready(*old(w)),
        old(w).vars.bvh@.len() == MAX_GROUP,
        forall|g: int|
            0 <= g < MAX_GROUP && !Group::spec_from_index(g).spec_is_need_bvh() ==> old(w).vars.bvh@[g] is None,
        forall|id: EntityId|
            #[trigger] old(w).collider.spec_registered(id) ==> old(w).collider.spec_get(id)
                is Some,
        forall|id: EntityId|
            #[trigger] old(w).collider.spec_get(id) matches Some(cols) ==> cols@.len() >= 1
                && cols@[0].targets_temp@.len() == 0 && sorted_ids(cols@[0].targets@),
    ensures
        final(w).wf(),
        collision_ready(*final(w)),
        contact_state_only_differs(*old(w), *final(w)),
        final(w).vars.is_playing == old(w).vars.is_playing,
        final(w).vars.last_click_point == old(w).vars.last_click_point,
        final(w).vars.is_click_detection == old(w).vars.is_click_detection,
        final(w).vars.state == old(w).vars.state,
        final(w).vars.bvh@.len() == MAX_GROUP,
        forall|g: int|
            0 <= g < MAX_GROUP && !Group::spec_from_index(g).spec_is_need_bvh() ==> final(w).vars.bvh@[g] is None,
        forall|g: int|
            0 <= g < MAX_GROUP ==> bvh_slot_ok(*final(w), #[trigger] final(w).vars.bvh@[g], g),
        forall|id: EntityId|
            #[trigger] final(w).collider.spec_registered(id) ==> final(w).collider.spec_get(id)
                is Some,
        forall|id: EntityId| #[trigger] frame_result(*old(w), *final(w), id),
{
    clear_infos(w);
    let ghost w1 = *w;
    create_bvh(w);
    let ghost w2 = *w;
    proof {
        assert(contact_state_only_differs(w1, w2));
        assert(contact_state_only_differs(*old(w), w2)) by {
            lemma_differs_trans(*old(w), w1, w2);
        }
    }
    proof {
        assert forall|g: int| 0 <= g < MAX_GROUP implies bvh_slot_ok(
            w2,
            #[trigger] w.vars.bvh@[g],
            g,
        ) by {
            assert(bvh_slot_ok(w1, w.vars.bvh@[g], g));
            lemma_slot_ok_stable(w1, w2, w.vars.bvh@[g], g);
        }
        assert forall|id: EntityId| #[trigger] w2.collider.spec_get(id) is Some implies (
        w2.collider.spec_get(id).unwrap()@.len() >= 1 && w2.collider.spec_get(id).unwrap()@[
            0
        ].targets_temp@.len() == 0 && w2.collider.spec_get(id).unwrap()@[
            0
        ].target_infos@.len() == 0) by {
            assert(cleared_state(*old(w), w1, id));
            assert(w2.collider.spec_get(id) == w1.collider.spec_get(id));
            assert(old(w).collider.spec_get(id) is Some);
        }
    }
    let collider_id = w.collider.id();
    let entities = collect_entities_from_archetype(w, &[collider_id]);
    proof {
        assert forall|j: int| 0 <= j < entities@.len() implies spec_is_query(
            w2,
            #[trigger] entities@[j],
        ) by {}
        assert forall|id: EntityId| #[trigger] spec_is_query(w2, id) implies entities@.contains(
            id,
        ) by {
            let i = id.0 as int;
            assert(w.entities.entities@[i].unwrap().id == id);
            assert(forall|v: int|
                0 <= v < seq![ComponentId(1)].len() ==> w.entities.entities@[
                    i
                ].unwrap().archetype.components@.contains(#[trigger] seq![ComponentId(1)][v]));
            assert(entities@.contains(EntityId(i as usize)));
        }
    }
    let mut pairs: Vec<(EntityId, EntityId)> = Vec::new();
    let mut qi: usize = 0;
    while qi < entities.len()
        invariant
            w2 == *w,
            w.wf(),
            collision_ready(*w),
            w.vars.bvh@.len() == MAX_GROUP,
            forall|g: int|
                0 <= g < MAX_GROUP ==> bvh_slot_ok(w2, #[trigger] w.vars.bvh@[g], g),
            forall|g: int|
                0 <= g < MAX_GROUP && !Group::spec_from_index(g).spec_is_need_bvh()
                    ==> w.vars.bvh@[g] is None,
            0 <= qi <= entities@.len(),
            forall|a: int, b: int| 0 <= a < b < entities@.len() ==> entities@[a].0
                < entities@[b].0,
            forall|j: int| 0 <= j < entities@.len() ==> spec_is_query(
                w2,
                #[trigger] entities@[j],
            ),
            forall|id: EntityId| #[trigger] spec_is_query(w2, id) ==> entities@.contains(id),
            forall|k: int|
                0 <= k < pairs@.len() ==> {
                    &&& entities@.take(qi as int).contains((#[trigger] pairs@[k]).0)
                    &&& spec_candidate(w2, pairs@[k].1, pairs@[k].0)
                },
            forall|q: EntityId, c: EntityId|
                #![trigger spec_candidate(w2, c, q)]
                (exists|k: int| 0 <= k < pairs@.len() && #[trigger] pairs@[k] == (q, c)) <==> (
                entities@.take(qi as int).contains(q) && spec_candidate(w2, c, q)),
            forall|k1: int, k2: int|
                0 <= k1 < k2 < pairs@.len() && (#[trigger] pairs@[k1]).1 == (
                #[trigger] pairs@[k2]).1 ==> pairs@[k1].0.0 < pairs@[k2].0.0,
            forall|k1: int, k2: int|
                0 <= k1 <= k2 < pairs@.len() ==> (#[trigger] pairs@[k1]).0.0 <= (
                #[trigger] pairs@[k2]).0.0,
        decreases entities@.len() - qi,
    {
        let entity_id = entities[qi];
        let ghost pairs0 = pairs@;
        proof {
            assert(spec_is_query(w2, entity_id));
            assert(narrow_inputs_ok(*w, entity_id)) by {
                assert(w.entities.entities@[entity_id.0 as int] is Some);
            }
        }
        let position = w.transform.get_unchecked(&entity_id).position;
        let aabb = w.collider.get_unchecked(&entity_id)[0].aabb(position);
        let entity_aabb = EntityAabb { entity_id, position, aabb };
        proof {
            assert(entity_aabb == spec_entity_aabb(*w, entity_id));
        }
        query_trees(w, &entity_aabb, &mut pairs);
        proof {
            assert(entities@.take(qi + 1) =~= entities@.take(qi as int).push(entity_id));
            assert forall|k: int| pairs0.len() <= k < pairs@.len() implies (
            #[trigger] pairs@[k]).0 == entity_id by {}
            assert forall|k: int| 0 <= k < pairs@.len() implies {
                &&& entities@.take(qi + 1).contains((#[trigger] pairs@[k]).0)
                &&& spec_candidate(w2, pairs@[k].1, pairs@[k].0)
            } by {
                if k < pairs0.len() {
                    assert(pairs@[k] == pairs0[k]);
                    assert(entities@.take(qi as int).contains(pairs0[k].0));
                    let j = choose|j: int|
                        0 <= j < qi && #[trigger] entities@.take(qi as int)[j] == pairs0[k].0;
                    assert(entities@.take(qi + 1)[j] == pairs0[k].0);
                } else {
                    assert(pairs@[k].0 == entity_id);
                    assert(entities@.take(qi + 1)[qi as int] == entity_id);
                    assert(exists|k2: int|
                        pairs0.len() <= k2 < pairs@.len() && (#[trigger] pairs@[k2]).1 == pairs@[
                            k
                        ].1);
                    assert(spec_candidate(*w, pairs@[k].1, entity_id));
                }
            }
            // every id named by an earlier query is smaller than this one
            assert forall|k: int| 0 <= k < pairs0.len() implies (#[trigger] pairs0[k]).0.0
                < entity_id.0 by {
                let t = entities@.take(qi as int);
                assert(t.contains(pairs0[k].0));
                let j = choose|j: int| 0 <= j < t.len() && t[j] == pairs0[k].0;
                assert(entities@[j] == pairs0[k].0);
                assert(entities@[j].0 < entities@[qi as int].0);
            }
            assert forall|q: EntityId, c: EntityId|
                #![trigger spec_candidate(w2, c, q)]
                (exists|k: int| 0 <= k < pairs@.len() && #[trigger] pairs@[k] == (q, c)) <==> (
                entities@.take(qi + 1).contains(q) && spec_candidate(w2, c, q)) by {
                if exists|k: int| 0 <= k < pairs@.len() && #[trigger] pairs@[k] == (q, c) {
                    let k = choose|k: int| 0 <= k < pairs@.len() && #[trigger] pairs@[k] == (q, c);
                    if k < pairs0.len() {
                        assert(pairs@[k] == pairs0[k]);
                        assert(exists|k2: int|
                            0 <= k2 < pairs0.len() && #[trigger] pairs0[k2] == (q, c));
                        assert(entities@.take(qi as int).contains(q));
                        let j = choose|j: int|
                            0 <= j < qi && #[trigger] entities@.take(qi as int)[j] == q;
                        assert(entities@.take(qi + 1)[j] == q);
                    } else {
                        assert(pairs@[k].0 == entity_id);
                        assert(q == entity_id);
                        assert(exists|k2: int|
                            pairs0.len() <= k2 < pairs@.len() && (#[trigger] pairs@[k2]).1 == c);
                        assert(spec_candidate(*w, c, entity_id));
                        assert(entities@.take(qi + 1)[qi as int] == q);
                    }
                }
                if entities@.take(qi + 1).contains(q) && spec_candidate(w2, c, q) {
                    let j = choose|j: int|
                        0 <= j < qi + 1 && #[trigger] entities@.take(qi + 1)[j] == q;
                    if j < qi {
                        assert(entities@.take(qi as int)[j] == q);
                        assert(entities@.take(qi as int).contains(q));
                        let k = choose|k: int|
                            0 <= k < pairs0.len() && #[trigger] pairs0[k] == (q, c);
                        assert(pairs@[k] == (q, c));
                    } else {
                        assert(q == entity_id);
                        assert(spec_candidate(*w, c, entity_aabb.entity_id));
                        assert(exists|k: int|
                            pairs0.len() <= k < pairs@.len() && (#[trigger] pairs@[k]).1 == c);
                        let k = choose|k: int|
                            pairs0.len() <= k < pairs@.len() && (#[trigger] pairs@[k]).1 == c;
                        assert(pairs@[k].0 == entity_id);
                        assert(pairs@[k] == (q, c));
                    }
                }
            }
            assert forall|k1: int, k2: int|
                0 <= k1 < k2 < pairs@.len() && (#[trigger] pairs@[k1]).1 == (
                #[trigger] pairs@[k2]).1 implies pairs@[k1].0.0 < pairs@[k2].0.0 by {
                if k2 < pairs0.len() {
                } else if k1 >= pairs0.len() {
                    assert(pairs@[k1].1 != pairs@[k2].1);
                } else {
                    assert(pairs@[k1] == pairs0[k1]);
                    assert(pairs@[k2].0 == entity_id);
                    assert(pairs0[k1].0.0 < entity_id.0);
                }
            }
            assert forall|k1: int, k2: int|
                0 <= k1 <= k2 < pairs@.len() implies (#[trigger] pairs@[k1]).0.0 <= (
                #[trigger] pairs@[k2]).0.0 by {
                if k2 < pairs0.len() {
                } else if k1 >= pairs0.len() {
                    assert(pairs@[k1].0 == entity_id);
                    assert(pairs@[k2].0 == entity_id);
                } else {
                    assert(pairs@[k1] == pairs0[k1]);
                    assert(pairs@[k2].0 == entity_id);
                    assert(pairs0[k1].0.0 < entity_id.0);
                }
            }
        }
        qi = qi + 1;
    }
    proof {
        assert(entities@.take(entities@.len() as int) =~= entities@);
        assert forall|k: int| 0 <= k < pairs@.len() implies spec_is_query(
            w2,
            (#[trigger] pairs@[k]).0,
        ) && spec_candidate(w2, pairs@[k].1, pairs@[k].0) by {
            assert(entities@.contains(pairs@[k].0));
            let j = choose|j: int| 0 <= j < entities@.len() && entities@[j] == pairs@[k].0;
            assert(spec_is_query(w2, entities@[j]));
        }
    }
    proof {
        assert forall|id: EntityId| #[trigger] w.collider.spec_get(id) is Some implies (
        w.collider.spec_get(id).unwrap()@.len() >= 1 && w.collider.spec_get(id).unwrap()@[
            0
        ].targets_temp@.len() == 0 && w.collider.spec_get(id).unwrap()@[
            0
        ].target_infos@.len() == 0) by {
            assert(cleared_state(*old(w), w1, id));
            assert(w.collider.spec_get(id) == w1.collider.spec_get(id));
            assert(old(w).collider.spec_get(id) is Some);
        }
    }
    narrow_fill(w, &pairs);
    let ghost w3 = *w;
    proof {
        assert forall|id: EntityId| #[trigger] w3.collider.spec_get(id) is Some implies (
        w3.collider.spec_get(id).unwrap()@.len() >= 1 && sorted_ids(
            w3.collider.spec_get(id).unwrap()@[0].targets@,
        )) by {
            assert(fill_state(w2, w3, id, pairs@, pairs@.len() as int));
            assert(w2.collider.spec_get(id) is Some);
            assert(cleared_state(*old(w), w1, id));
            assert(w2.collider.spec_get(id) == w1.collider.spec_get(id));
            assert(old(w).collider.spec_get(id) is Some);
            let c0 = old(w).collider.spec_get(id).unwrap();
            let c3 = w3.collider.spec_get(id).unwrap();
            assert(c3@[0].targets@ == c0@[0].targets@);
            assert(sorted_ids(c0@[0].targets@));
        }
    }
    submit_all(w);
    proof {
        lemma_differs_trans(w2, w3, *w);
        lemma_differs_trans(*old(w), w2, *w);
        // the cached trees remain exact for the final state
        assert forall|g: int|
            0 <= g < MAX_GROUP implies bvh_slot_ok(*w, #[trigger] w.vars.bvh@[g], g) by {
            assert(w.vars.bvh@[g] == w2.vars.bvh@[g]);
            assert(bvh_slot_ok(w2, w2.vars.bvh@[g], g));
            lemma_slot_ok_stable(w2, *w, w2.vars.bvh@[g], g);
        }
        assert(collision_ready(*w)) by {
            assert forall|s: int|
                0 <= s < w.entities.entities@.len() && (#[trigger] w.entities.entities@[s])
                    is Some && w.entities.entities@[s].unwrap().archetype.components@.contains(
                    ComponentId(1),
                ) implies narrow_inputs_ok(*w, EntityId(s as usize)) by {
                lemma_preds_stable(*old(w), *w, EntityId(s as usize), EntityId(s as usize));
            }
        }
        // assemble the per-collider outcome
        assert forall|id: EntityId| #[trigger] frame_result(*old(w), *w, id) by {
            if old(w).collider.spec_get(id) is Some {
                assert(cleared_state(*old(w), w1, id));
                assert(fill_state(w2, w3, id, pairs@, pairs@.len() as int));
                assert(submit_state(w3, *w, id));
                let c0 = old(w).collider.spec_get(id).unwrap();
                let c2 = w2.collider.spec_get(id).unwrap();
                let c3 = w3.collider.spec_get(id).unwrap();
                let c4 = w.collider.spec_get(id).unwrap();
                assert(w2.collider.spec_get(id) == w1.collider.spec_get(id));
                assert(c4@[0].targets@ == c3@[0].targets_temp@);
                assert(strictly_sorted_ids(c4@[0].targets@));
                assert forall|t: EntityId|
                    #![trigger c4@[0].targets@.contains(t)]
                    c4@[0].targets@.contains(t) <==> spec_accepted(*old(w), id, t) by {
                    if c4@[0].targets@.contains(t) {
                        assert(c3@[0].targets_temp@.contains(t));
                        let k = choose|k: int|
                            0 <= k < pairs@.len() && #[trigger] pairs@[k] == (t, id)
                                && spec_narrow(w2, id, t) is Ok;
                        assert(spec_is_query(w2, t));
                        assert(spec_candidate(w2, id, t));
                        assert(narrow_inputs_ok(w2, id) && narrow_inputs_ok(w2, t)) by {
                            assert(w2.entities.entities@[id.0 as int] is Some);
                            assert(w2.entities.entities@[t.0 as int] is Some);
                        }
                        lemma_preds_stable(*old(w), w2, id, t);
                        assert(spec_accepted(*old(w), id, t));
                    }
                    if spec_accepted(*old(w), id, t) {
                        assert(spec_is_query(*old(w), t));
                        assert(spec_candidate(*old(w), id, t));
                        assert(narrow_inputs_ok(*old(w), id) && narrow_inputs_ok(*old(w), t)) by {
                            assert(old(w).entities.entities@[id.0 as int] is Some);
                            assert(old(w).entities.entities@[t.0 as int] is Some);
                        }
                        lemma_preds_stable(*old(w), w2, id, t);
                        assert(spec_candidate(w2, id, t));
                        assert(spec_is_query(w2, t));
                        assert(entities@.contains(t));
                        let k = choose|k: int|
                            0 <= k < pairs@.len() && #[trigger] pairs@[k] == (t, id);
                        assert(spec_narrow(w2, id, t) is Ok);
                        assert(c3@[0].targets_temp@.contains(t));
                    }
                }
                assert forall|k: int|
                    0 <= k < c4@[0].target_infos@.len() implies #[trigger] c4@[0].target_infos@[k]
                    == spec_narrow(*old(w), id, c4@[0].targets@[k]).unwrap() by {
                    let t = c4@[0].targets@[k];
                    assert(c3@[0].target_infos@[k] == spec_narrow(w2, id, c3@[0].targets_temp@[k]).unwrap());
                    assert(c3@[0].targets_temp@.contains(t));
                    let kk = choose|kk: int|
                        0 <= kk < pairs@.len() && #[trigger] pairs@[kk] == (t, id) && spec_narrow(
                            w2,
                            id,
                            t,
                        ) is Ok;
                    assert(narrow_inputs_ok(w2, id) && narrow_inputs_ok(w2, t)) by {
                        assert(w2.entities.entities@[id.0 as int] is Some);
                        assert(w2.entities.entities@[t.0 as int] is Some);
                    }
                    lemma_preds_stable(*old(w), w2, id, t);
                }
                assert(c3@[0].targets@ == c0@[0].targets@);
                assert(c4@[0].targets_enter@ == submit_step(
                    c3@[0].targets_temp@,
                    c3@[0].targets@,
                    Seq::empty(),
                    Seq::empty(),
                ).1);
            } else {
                assert(!old(w).collider.spec_registered(id) || old(w).collider.spec_get(id)
                    is None);
                assert(cleared_state(*old(w), w1, id));
                assert(fill_state(w2, w3, id, pairs@, pairs@.len() as int));
                assert(submit_state(w3, *w, id));
            }
        }
    }
}


/// Velocities stay within this band outside the response step.
pub const VELOCITY_LIMIT: i64 = 0x100_0000_0000;

/// Entity-count ceiling under which the response step cannot overflow a
/// velocity.
pub const RESPONSE_MAX_ENTITIES: usize = 0x10_0000;

/// The equal-and-opposite velocity impulse for one confirmed contact,
/// along the separation axis named by the narrow phase.
pub fn physics_impulse(direction: Direction, entity_transform: &mut Transform, target_transform: &mut Transform)
    requires
        -i64::MAX + 60 <= old(entity_transform).velocity.x <= i64::MAX - 60,
        -i64::MAX + 60 <= old(entity_transform).velocity.y <= i64::MAX - 60,
        -i64::MAX + 60 <= old(target_transform).velocity.x <= i64::MAX - 60,
        -i64::MAX + 60 <= old(target_transform).velocity.y <= i64::MAX - 60,
    ensures
        final(entity_transform).id == old(entity_transform).id,
        final(entity_transform).position == old(entity_transform).position,
        final(entity_transform).scale == old(entity_transform).scale,
        final(entity_transform).parent == old(entity_transform).parent,
        final(entity_transform).children == old(entity_transform).children,
        final(target_transform).id == old(target_transform).id,
        final(target_transform).position == old(target_transform).position,
        final(target_transform).scale == old(target_transform).scale,
        final(target_transform).parent == old(target_transform).parent,
        final(target_transform).children == old(target_transform).children,
        match direction {
            Direction::North => {
                &&& final(entity_transform).velocity == (Vector2 {
                    x: old(entity_transform).velocity.x,
                    y: (old(entity_transform).velocity.y + 60) as i64,
                })
                &&& final(target_transform).velocity == (Vector2 {
                    x: old(target_transform).velocity.x,
                    y: (old(target_transform).velocity.y - 60) as i64,
                })
            },
            Direction::East => {
                &&& final(entity_transform).velocity == (Vector2 {
                    x: (old(entity_transform).velocity.x - 60) as i64,
                    y: old(entity_transform).velocity.y,
                })
                &&& final(target_transform).velocity == (Vector2 {
                    x: (old(target_transform).velocity.x + 60) as i64,
                    y: old(target_transform).velocity.y,
                })
            },
            Direction::South => {
                &&& final(entity_transform).velocity == (Vector2 {
                    x: old(entity_transform).velocity.x,
                    y: (old(entity_transform).velocity.y - 60) as i64,
                })
                &&& final(target_transform).velocity == (Vector2 {
                    x: old(target_transform).velocity.x,
                    y: (old(target_transform).velocity.y + 60) as i64,
                })
            },
            Direction::West => {
                &&& final(entity_transform).velocity == (Vector2 {
                    x: (old(entity_transform).velocity.x + 60) as i64,
                    y: old(entity_transform).velocity.y,
                })
                &&& final(target_transform).velocity == (Vector2 {
                    x: (old(target_transform).velocity.x - 60) as i64,
                    y: old(target_transform).velocity.y,
                })
            },
        },
{
    match direction {
        Direction::North => {
            entity_transform.velocity.y = entity_transform.velocity.y + 60;
            target_transform.velocity.y = target_transform.velocity.y - 60;
        },
        Direction::East => {
            entity_transform.velocity.x = entity_transform.velocity.x - 60;
            target_transform.velocity.x = target_transform.velocity.x + 60;
        },
        Direction::South => {
            entity_transform.velocity.y = entity_transform.velocity.y - 60;
            target_transform.velocity.y = target_transform.velocity.y + 60;
        },
        Direction::West => {
            entity_transform.velocity.x = entity_transform.velocity.x + 60;
            target_transform.velocity.x = target_transform.velocity.x - 60;
        },
    }
}

/// Velocity components of every stored transform lie within `bound`.
pub open spec fn velocities_bounded(w: World, bound: int) -> bool {
    forall|id: EntityId|
        #[trigger] w.transform.spec_get(id) matches Some(t) ==> -bound <= t.velocity.x <= bound
            && -bound <= t.velocity.y <= bound
}


/// The x-velocity delta that one confirmed contact applies to the entity
/// whose collider recorded it; the target receives the negation.
pub open spec fn impulse_dx(d: Direction) -> int {
    match d {
        Direction::North => 0,
        Direction::East => -60,
        Direction::South => 0,
        Direction::West => 60,
    }
}

/// The y-velocity delta of one confirmed contact, entity side.
pub open spec fn impulse_dy(d: Direction) -> int {
    match d {
        Direction::North => 60,
        Direction::East => 0,
        Direction::South => -60,
        Direction::West => 0,
    }
}

/// Net x-delta that the first `upto` confirmed targets of entity `e`
/// contribute to the velocity of `who`: one equal-and-opposite impulse per
/// target with the larger id, along the recorded contact direction.
pub open spec fn pair_delta_x(w: World, e: EntityId, who: EntityId, upto: int) -> int
    decreases upto,
{
    if upto <= 0 {
        0
    } else {
        pair_delta_x(w, e, who, upto - 1) + ({
            let col = w.collider.spec_get(e).unwrap()@[0];
            let t = col.targets@[upto - 1];
            let d = col.target_infos@[upto - 1].direction;
            if t.0 > e.0 {
                (if who == e {
                    impulse_dx(d)
                } else {
                    0
                }) + (if who == t {
                    -impulse_dx(d)
                } else {
                    0
                })
            } else {
                0
            }
        })
    }
}

/// Net y-delta of the first `upto` confirmed targets of `e`, as above.
pub open spec fn pair_delta_y(w: World, e: EntityId, who: EntityId, upto: int) -> int
    decreases upto,
{
    if upto <= 0 {
        0
    } else {
        pair_delta_y(w, e, who, upto - 1) + ({
            let col = w.collider.spec_get(e).unwrap()@[0];
            let t = col.targets@[upto - 1];
            let d = col.target_infos@[upto - 1].direction;
            if t.0 > e.0 {
                (if who == e {
                    impulse_dy(d)
                } else {
                    0
                }) + (if who == t {
                    -impulse_dy(d)
                } else {
                    0
                })
            } else {
                0
            }
        })
    }
}

/// What the collider entity in slot `i`, if any, contributes to `who`.
pub open spec fn slot_delta_x(w: World, who: EntityId, i: int) -> int {
    if 0 <= i < w.entities.entities@.len() && w.entities.entities@[i] is Some
        && w.collider.spec_get(EntityId(i as usize)) is Some {
        pair_delta_x(
            w,
            EntityId(i as usize),
            who,
            w.collider.spec_get(EntityId(i as usize)).unwrap()@[0].targets@.len() as int,
        )
    } else {
        0
    }
}

pub open spec fn slot_delta_y(w: World, who: EntityId, i: int) -> int {
    if 0 <= i < w.entities.entities@.len() && w.entities.entities@[i] is Some
        && w.collider.spec_get(EntityId(i as usize)) is Some {
        pair_delta_y(
            w,
            EntityId(i as usize),
            who,
            w.collider.spec_get(EntityId(i as usize)).unwrap()@[0].targets@.len() as int,
        )
    } else {
        0
    }
}

/// Net velocity delta (x component) that the whole response pass applies to
/// `who`: the sum over the collider entities of the first `n_slots` slots.
pub open spec fn response_delta_x(w: World, who: EntityId, n_slots: int) -> int
    decreases n_slots,
{
    if n_slots <= 0 {
        0
    } else {
        response_delta_x(w, who, n_slots - 1) + slot_delta_x(w, who, n_slots - 1)
    }
}

/// Net velocity delta, y component.
pub open spec fn response_delta_y(w: World, who: EntityId, n_slots: int) -> int
    decreases n_slots,
{
    if n_slots <= 0 {
        0
    } else {
        response_delta_y(w, who, n_slots - 1) + slot_delta_y(w, who, n_slots - 1)
    }
}

/// A slot whose id the collected collider list does not name contributes
/// nothing: were it live with a collider value, the list would name it.
proof fn lemma_outside_list_slot_zero(w: World, list: Seq<EntityId>, who: EntityId, i: int)
    requires
        w.wf(),
        forall|i2: int|
            0 <= i2 < w.entities.entities@.len() && (#[trigger] w.entities.entities@[i2]) is Some
                && w.entities.entities@[i2].unwrap().archetype.components@.contains(ComponentId(1))
                ==> list.contains(EntityId(i2 as usize)),
        forall|li: int| 0 <= li < list.len() ==> (#[trigger] list[li]).0 != i,
        0 <= i,
    ensures
        slot_delta_x(w, who, i) == 0,
        slot_delta_y(w, who, i) == 0,
{
    if 0 <= i < w.entities.entities@.len() && w.entities.entities@[i] is Some
        && w.collider.spec_get(EntityId(i as usize)) is Some {
        let e2 = w.entities.entities@[i].unwrap();
        assert(e2.id.0 == i);
        assert(w.spec_synced_all(e2));
        assert(w.collider.spec_registered(e2.id));
        assert(e2.archetype.components@.contains(w.collider.id));
        assert(list.contains(EntityId(i as usize)));
        let li = choose|li: int| 0 <= li < list.len() && list[li] == EntityId(i as usize);
        assert(list[li].0 == i);
        assert(false);
    }
}

/// A stretch of contribution-free slots leaves the running delta unchanged.
proof fn lemma_response_delta_constant(w: World, who: EntityId, a: int, b: int)
    requires
        0 <= a <= b,
        forall|i: int|
            a <= i < b ==> #[trigger] slot_delta_x(w, who, i) == 0 && slot_delta_y(w, who, i)
                == 0,
    ensures
        response_delta_x(w, who, b) == response_delta_x(w, who, a),
        response_delta_y(w, who, b) == response_delta_y(w, who, a),
    decreases b - a,
{
    if b > a {
        lemma_response_delta_constant(w, who, a, b - 1);
        assert(slot_delta_x(w, who, b - 1) == 0);
    }
}

/// Applies the impulse step to each confirmed contact pair, once per
/// canonical ordering (the larger id is the target), displacing both
/// bodies' velocities along the resolved separation axis. Positions,
/// store structure, and every non-velocity field are untouched.
#[verifier::rlimit(100)]
#[verifier::spinoff_prover]
pub fn physics_collision_solve_add(w: &mut World)
    requires
        old(w).wf(),
        old(w).entities.entities@.len() <= RESPONSE_MAX_ENTITIES,
        velocities_bounded(*old(w), VELOCITY_LIMIT as int),
        forall|id: EntityId|
            #[trigger] old(w).collider.spec_registered(id) ==> old(w).collider.spec_get(id)
                is Some,
        forall|id: EntityId|
            #[trigger] old(w).collider.spec_get(id) matches Some(cols) ==> {
                &&& cols@.len() >= 1
                &&& cols@[0].target_infos@.len() >= cols@[0].targets@.len()
                &&& strictly_sorted_ids(cols@[0].targets@)
                &&& forall|k: int|
                    0 <= k < cols@[0].targets@.len() ==> (#[trigger] cols@[0].targets@[k]).0 < old(
                        w,
                    ).entities.entities@.len()
                &&& forall|k: int|
                    0 <= k < cols@[0].targets@.len() && (#[trigger] cols@[0].targets@[k]).0 > id.0
                        ==> old(w).transform.spec_get(cols@[0].targets@[k]) is Some
            },
        forall|id: EntityId|
            #[trigger] old(w).collider.spec_get(id) is Some ==> old(w).transform.spec_get(id)
                is Some,
    ensures
        final(w).wf(),
        final(w).vars == old(w).vars,
        final(w).consts == old(w).consts,
        final(w).entities == old(w).entities,
        final(w).collider.id == old(w).collider.id,
        final(w).collider.id_index_map@ == old(w).collider.id_index_map@,
        final(w).collider.items@ == old(w).collider.items@,
        final(w).group == old(w).group,
        final(w).clock == old(w).clock,
        final(w).destination == old(w).destination,
        final(w).target == old(w).target,
        final(w).player_vars == old(w).player_vars,
        final(w).transform.id == old(w).transform.id,
        final(w).transform.id_index_map@ == old(w).transform.id_index_map@,
        forall|id: EntityId| final(w).transform.spec_registered(id) == old(
            w,
        ).transform.spec_registered(id),
        forall|id: EntityId|
            (#[trigger] final(w).transform.spec_get(id)) is Some == old(w).transform.spec_get(id)
                is Some,
        forall|id: EntityId|
            #[trigger] old(w).transform.spec_get(id) matches Some(t0) ==> {
                let t1 = final(w).transform.spec_get(id).unwrap();
                &&& t1.id == t0.id
                &&& t1.position == t0.position
                &&& t1.scale == t0.scale
                &&& t1.parent == t0.parent
                &&& t1.children == t0.children
                &&& t1.velocity.x == t0.velocity.x + response_delta_x(
                    *old(w),
                    id,
                    old(w).entities.entities@.len() as int,
                )
                &&& t1.velocity.y == t0.velocity.y + response_delta_y(
                    *old(w),
                    id,
                    old(w).entities.entities@.len() as int,
                )
            },
        velocities_bounded(
            *final(w),
            VELOCITY_LIMIT + 120 * (RESPONSE_MAX_ENTITIES + 1) * (RESPONSE_MAX_ENTITIES + 1),
        ),
{
    let ghost n = old(w).entities.entities@.len() as int;
    let ghost vbound = VELOCITY_LIMIT + 120 * (RESPONSE_MAX_ENTITIES + 1) * (
    RESPONSE_MAX_ENTITIES + 1);
    let collider_id = w.collider.id();
    let entities = collect_entities_from_archetype(w, &[collider_id]);
    proof {
        lemma_sorted_bound(entities@, n);
    }
    let ghost bump_bound = 120 * (RESPONSE_MAX_ENTITIES + 1);
    let ghost mut processed: int = 0;
    let mut oi: usize = 0;
    while oi < entities.len()
        invariant
            old(w).wf(),
            old(w).entities.entities@.len() <= RESPONSE_MAX_ENTITIES,
            n == old(w).entities.entities@.len() as int,
            vbound == VELOCITY_LIMIT + 120 * (RESPONSE_MAX_ENTITIES + 1) * (RESPONSE_MAX_ENTITIES
                + 1),
            forall|id: EntityId|
                #[trigger] old(w).collider.spec_registered(id) ==> old(w).collider.spec_get(id)
                    is Some,
            forall|id: EntityId|
                #[trigger] old(w).collider.spec_get(id) matches Some(cols) ==> {
                    &&& cols@.len() >= 1
                    &&& cols@[0].target_infos@.len() >= cols@[0].targets@.len()
                    &&& strictly_sorted_ids(cols@[0].targets@)
                    &&& forall|k: int|
                        0 <= k < cols@[0].targets@.len() ==> (#[trigger] cols@[0].targets@[k]).0
                            < old(w).entities.entities@.len()
                    &&& forall|k: int|
                        0 <= k < cols@[0].targets@.len() && (#[trigger] cols@[0].targets@[k]).0
                            > id.0 ==> old(w).transform.spec_get(cols@[0].targets@[k]) is Some
                },
            forall|id: EntityId|
                #[trigger] old(w).collider.spec_get(id) is Some ==> old(w).transform.spec_get(id)
                    is Some,
            w.wf(),
            w.vars == old(w).vars,
            w.consts == old(w).consts,
            w.entities == old(w).entities,
            w.collider.id == old(w).collider.id,
            w.collider.id_index_map@ == old(w).collider.id_index_map@,
            w.collider.items@ == old(w).collider.items@,
            w.group == old(w).group,
            w.clock == old(w).clock,
            w.destination == old(w).destination,
            w.target == old(w).target,
            w.player_vars == old(w).player_vars,
            w.transform.id == old(w).transform.id,
            w.transform.id_index_map@ == old(w).transform.id_index_map@,
            forall|id: EntityId| w.transform.spec_registered(id) == old(
                w,
            ).transform.spec_registered(id),
            forall|id: EntityId|
                (#[trigger] w.transform.spec_get(id)) is Some == old(w).transform.spec_get(id)
                    is Some,
            forall|id: EntityId|
                #[trigger] old(w).transform.spec_get(id) matches Some(t0) ==> {
                    let t1 = w.transform.spec_get(id).unwrap();
                    &&& t1.id == t0.id
                    &&& t1.position == t0.position
                    &&& t1.scale == t0.scale
                    &&& t1.parent == t0.parent
                    &&& t1.children == t0.children
                },
            0 <= oi <= entities@.len(),
            entities@.len() <= n,
            forall|a: int, b: int| 0 <= a < b < entities@.len() ==> entities@[a].0
                < entities@[b].0,
            forall|j: int|
                0 <= j < entities@.len() ==> {
                    &&& (#[trigger] entities@[j]).0 < w.entities.entities@.len()
                    &&& w.entities.entities@[entities@[j].0 as int] is Some
                    &&& w.entities.entities@[
                        entities@[j].0 as int
                    ].unwrap().archetype.components@.contains(ComponentId(1))
                },
            velocities_bounded(*w, VELOCITY_LIMIT + bump_bound * (oi as int)),
            bump_bound == 120 * (RESPONSE_MAX_ENTITIES + 1),
            0 <= processed <= n,
            oi == 0 ==> processed == 0,
            oi > 0 ==> processed == entities@[oi - 1].0 + 1,
            forall|i: int|
                0 <= i < old(w).entities.entities@.len() && (
                #[trigger] old(w).entities.entities@[i]) is Some && old(
                    w,
                ).entities.entities@[i].unwrap().archetype.components@.contains(ComponentId(1))
                    ==> entities@.contains(EntityId(i as usize)),
            forall|id: EntityId|
                #[trigger] old(w).transform.spec_get(id) matches Some(t0) ==> {
                    let t1 = w.transform.spec_get(id).unwrap();
                    &&& t1.velocity.x == t0.velocity.x + response_delta_x(*old(w), id, processed)
                    &&& t1.velocity.y == t0.velocity.y + response_delta_y(*old(w), id, processed)
                },
        decreases entities@.len() - oi,
    {
        let entity_id = entities[oi];
        let ghost s = entity_id.0 as int;
        proof {
            assert((oi as int) < n);
            let e = w.entities.entities@[entity_id.0 as int].unwrap();
            assert(e.id == entity_id);
            assert(w.spec_synced_all(e));
            assert(w.collider.spec_registered(entity_id));
            assert(old(w).collider.spec_get(entity_id) is Some);
            assert(old(w).transform.spec_get(entity_id) is Some);
            assert(w.transform.spec_get(entity_id) is Some);
            assert(processed <= s) by {
                if oi > 0 {
                    assert(entities@[oi - 1].0 < entities@[oi as int].0);
                }
            }
            // the slots between the previous collider entity and this one
            // contribute no impulse
            assert forall|id: EntityId|
                (#[trigger] old(w).transform.spec_get(id)) is Some implies {
                let t0 = old(w).transform.spec_get(id).unwrap();
                let t1 = w.transform.spec_get(id).unwrap();
                &&& t1.velocity.x == t0.velocity.x + response_delta_x(*old(w), id, s)
                &&& t1.velocity.y == t0.velocity.y + response_delta_y(*old(w), id, s)
            } by {
                assert forall|i: int| processed <= i < s implies #[trigger] slot_delta_x(
                    *old(w),
                    id,
                    i,
                ) == 0 && slot_delta_y(*old(w), id, i) == 0 by {
                    assert forall|li: int| 0 <= li < entities@.len() implies (
                    #[trigger] entities@[li]).0 != i by {
                        if entities@[li].0 == i {
                            if li < oi {
                                assert(oi > 0);
                                assert(entities@[li].0 <= entities@[oi - 1].0);
                            } else {
                                assert(entities@[oi as int].0 <= entities@[li].0);
                            }
                        }
                    }
                    lemma_outside_list_slot_zero(*old(w), entities@, id, i);
                }
                lemma_response_delta_constant(*old(w), id, processed, s);
            }
        }
        let entity_colliders = match w.collider.take(&entity_id) {
            Some(cols) => cols,
            None => {
                proof {
                    assert(false);
                }
                Vec::new()
            },
        };
        let mut entity_transform = match w.transform.take(&entity_id) {
            Some(t) => t,
            None => {
                proof {
                    assert(false);
                }
                Transform::new(EntityId(0))
            },
        };
        let ghost w_in = *w;
        proof {
            lemma_sorted_bound(entity_colliders@[0].targets@, n);
        }
        let n_targets = entity_colliders[0].targets.len();
        let mut index: usize = 0;
        while index < n_targets
            invariant
                old(w).wf(),
                n == old(w).entities.entities@.len() as int,
                old(w).entities.entities@.len() <= RESPONSE_MAX_ENTITIES,
                vbound == VELOCITY_LIMIT + 120 * (RESPONSE_MAX_ENTITIES + 1) * (
                RESPONSE_MAX_ENTITIES + 1),
                bump_bound == 120 * (RESPONSE_MAX_ENTITIES + 1),
                0 <= oi < entities@.len(),
                entities@.len() <= n,
                0 <= index <= n_targets,
                n_targets == entity_colliders@[0].targets@.len(),
                entity_colliders@.len() >= 1,
                old(w).collider.spec_get(entities@[oi as int]) == Some(entity_colliders),
                entity_id == entities@[oi as int],
                entity_colliders@[0].target_infos@.len() >= n_targets,
                n_targets <= n,
                forall|id: EntityId|
                    #[trigger] old(w).collider.spec_get(id) is Some ==> old(
                        w,
                    ).transform.spec_get(id) is Some,
                forall|k: int|
                    0 <= k < entity_colliders@[0].targets@.len() && (
                    #[trigger] entity_colliders@[0].targets@[k]).0 > entity_id.0 ==> old(
                        w,
                    ).transform.spec_get(entity_colliders@[0].targets@[k]) is Some,
                w.entities.wf(),
                w.transform.wf(),
                w.collider.wf(),
                w.vars == old(w).vars,
                w.consts == old(w).consts,
                w.entities == old(w).entities,
                w.group == old(w).group,
                w.clock == old(w).clock,
                w.destination == old(w).destination,
                w.target == old(w).target,
                w.player_vars == old(w).player_vars,
                w.collider.id == w_in.collider.id,
                w.collider.id_index_map@ == w_in.collider.id_index_map@,
                w.collider.items@ == w_in.collider.items@,
                w.transform.id == old(w).transform.id,
                w.transform.id_index_map@ == old(w).transform.id_index_map@,
                w.transform.spec_registered(entity_id),
                w.transform.spec_get(entity_id) is None,
                w_in.transform.spec_get(entity_id) is None,
                forall|id: EntityId| w.transform.spec_registered(id) == old(
                    w,
                ).transform.spec_registered(id),
                forall|id: EntityId|
                    id != entity_id ==> ((#[trigger] w.transform.spec_get(id)) is Some == old(
                        w,
                    ).transform.spec_get(id) is Some),
                forall|id: EntityId|
                    id != entity_id ==> ((#[trigger] old(w).transform.spec_get(id)) matches Some(
                        t0,
                    ) ==> {
                        let t1 = w.transform.spec_get(id).unwrap();
                        &&& t1.id == t0.id
                        &&& t1.position == t0.position
                        &&& t1.scale == t0.scale
                        &&& t1.parent == t0.parent
                        &&& t1.children == t0.children
                    }),
                entity_transform.id == old(w).transform.spec_get(entity_id).unwrap().id,
                entity_transform.position == old(w).transform.spec_get(entity_id).unwrap().position,
                entity_transform.scale == old(w).transform.spec_get(entity_id).unwrap().scale,
                entity_transform.parent == old(w).transform.spec_get(entity_id).unwrap().parent,
                entity_transform.children == old(w).transform.spec_get(entity_id).unwrap().children,
                -(VELOCITY_LIMIT + bump_bound * (oi as int) + 60 * (index as int))
                    <= entity_transform.velocity.x <= VELOCITY_LIMIT + bump_bound * (oi as int)
                    + 60 * (index as int),
                -(VELOCITY_LIMIT + bump_bound * (oi as int) + 60 * (index as int))
                    <= entity_transform.velocity.y <= VELOCITY_LIMIT + bump_bound * (oi as int)
                    + 60 * (index as int),
                forall|id: EntityId|
                    #[trigger] w.transform.spec_get(id) matches Some(t) ==> {
                        &&& -(VELOCITY_LIMIT + bump_bound * (oi as int) + 60 * (index as int))
                            <= t.velocity.x <= VELOCITY_LIMIT + bump_bound * (oi as int) + 60 * (
                        index as int)
                        &&& -(VELOCITY_LIMIT + bump_bound * (oi as int) + 60 * (index as int))
                            <= t.velocity.y <= VELOCITY_LIMIT + bump_bound * (oi as int) + 60 * (
                        index as int)
                    },
                s == entity_id.0 as int,
                0 <= s < n,
                entity_transform.velocity.x == old(w).transform.spec_get(
                    entity_id,
                ).unwrap().velocity.x + response_delta_x(*old(w), entity_id, s) + pair_delta_x(
                    *old(w),
                    entity_id,
                    entity_id,
                    index as int,
                ),
                entity_transform.velocity.y == old(w).transform.spec_get(
                    entity_id,
                ).unwrap().velocity.y + response_delta_y(*old(w), entity_id, s) + pair_delta_y(
                    *old(w),
                    entity_id,
                    entity_id,
                    index as int,
                ),
                forall|id: EntityId|
                    id != entity_id ==> ((#[trigger] old(w).transform.spec_get(id)) matches Some(
                        t0,
                    ) ==> {
                        let t1 = w.transform.spec_get(id).unwrap();
                        &&& t1.velocity.x == t0.velocity.x + response_delta_x(*old(w), id, s)
                            + pair_delta_x(*old(w), entity_id, id, index as int)
                        &&& t1.velocity.y == t0.velocity.y + response_delta_y(*old(w), id, s)
                            + pair_delta_y(*old(w), entity_id, id, index as int)
                    }),
            decreases n_targets - index,
        {
            let target_id = entity_colliders[0].targets[index];
            if target_id.0 > entity_id.0 {
                proof {
                    assert(entity_colliders@[0].targets@[index as int] == target_id);
                    assert(old(w).transform.spec_get(target_id) is Some);
                    assert(w.transform.spec_get(target_id) is Some);
                    assert(bump_bound * (oi as int) + 60 * (index as int) + 60 <= bump_bound * (n
                        + 1)) by (nonlinear_arith)
                        requires
                            0 <= oi < n,
                            0 <= index < n_targets <= n,
                            bump_bound == 120 * (RESPONSE_MAX_ENTITIES + 1),
                            n <= RESPONSE_MAX_ENTITIES,
                    ;
                    assert(bump_bound * (n + 1) <= 120 * (RESPONSE_MAX_ENTITIES + 1) * (
                    RESPONSE_MAX_ENTITIES + 1)) by (nonlinear_arith)
                        requires
                            bump_bound == 120 * (RESPONSE_MAX_ENTITIES + 1),
                            0 <= n <= RESPONSE_MAX_ENTITIES,
                    ;
                    assert(VELOCITY_LIMIT + 120 * (RESPONSE_MAX_ENTITIES + 1) * (
                    RESPONSE_MAX_ENTITIES + 1) <= i64::MAX - 60) by (nonlinear_arith);
                }
                let mut target_transform = match w.transform.take(&target_id) {
                    Some(t) => t,
                    None => {
                        proof {
                            assert(false);
                        }
                        Transform::new(EntityId(0))
                    },
                };
                let ghost target_pre = target_transform;
                let direction = entity_colliders[0].target_infos[index].direction;
                physics_impulse(direction, &mut entity_transform, &mut target_transform);
                w.transform.set(&target_id, Some(target_transform));
                proof {
                    assert forall|id: EntityId|
                        #[trigger] w.transform.spec_get(id) is Some implies {
                        let t = w.transform.spec_get(id).unwrap();
                        &&& -(VELOCITY_LIMIT + bump_bound * (oi as int) + 60 * (index + 1))
                            <= t.velocity.x <= VELOCITY_LIMIT + bump_bound * (oi as int) + 60 * (
                        index + 1)
                        &&& -(VELOCITY_LIMIT + bump_bound * (oi as int) + 60 * (index + 1))
                            <= t.velocity.y <= VELOCITY_LIMIT + bump_bound * (oi as int) + 60 * (
                        index + 1)
                    } by {
                        if id != target_id {
                        }
                    }
                    // one equal-and-opposite impulse moves the running sums
                    // by exactly this pair's contribution
                    assert(entity_colliders@[0] == old(w).collider.spec_get(entity_id).unwrap()@[
                        0
                    ]);
                    assert(entity_colliders@[0].target_infos@[index as int].direction
                        == direction);
                    assert(entity_colliders@[0].targets@[index as int] == target_id);
                    assert(pair_delta_x(*old(w), entity_id, entity_id, index + 1) == pair_delta_x(
                        *old(w),
                        entity_id,
                        entity_id,
                        index as int,
                    ) + impulse_dx(direction));
                    assert(pair_delta_y(*old(w), entity_id, entity_id, index + 1) == pair_delta_y(
                        *old(w),
                        entity_id,
                        entity_id,
                        index as int,
                    ) + impulse_dy(direction));
                    assert(pair_delta_x(*old(w), entity_id, target_id, index + 1) == pair_delta_x(
                        *old(w),
                        entity_id,
                        target_id,
                        index as int,
                    ) - impulse_dx(direction));
                    assert(pair_delta_y(*old(w), entity_id, target_id, index + 1) == pair_delta_y(
                        *old(w),
                        entity_id,
                        target_id,
                        index as int,
                    ) - impulse_dy(direction));
                    assert(entity_transform.velocity.x == old(w).transform.spec_get(
                        entity_id,
                    ).unwrap().velocity.x + response_delta_x(*old(w), entity_id, s) + pair_delta_x(
                        *old(w),
                        entity_id,
                        entity_id,
                        index + 1,
                    ));
                    assert(entity_transform.velocity.y == old(w).transform.spec_get(
                        entity_id,
                    ).unwrap().velocity.y + response_delta_y(*old(w), entity_id, s) + pair_delta_y(
                        *old(w),
                        entity_id,
                        entity_id,
                        index + 1,
                    ));
                    assert forall|id: EntityId|
                        id != entity_id implies ((#[trigger] old(w).transform.spec_get(
                        id,
                    )) matches Some(t0) ==> {
                        let t1 = w.transform.spec_get(id).unwrap();
                        &&& t1.velocity.x == t0.velocity.x + response_delta_x(*old(w), id, s)
                            + pair_delta_x(*old(w), entity_id, id, index + 1)
                        &&& t1.velocity.y == t0.velocity.y + response_delta_y(*old(w), id, s)
                            + pair_delta_y(*old(w), entity_id, id, index + 1)
                    }) by {
                        if old(w).transform.spec_get(id) is Some {
                            if id == target_id {
                                assert(target_pre.velocity.x == old(w).transform.spec_get(
                                    target_id,
                                ).unwrap().velocity.x + response_delta_x(*old(w), target_id, s)
                                    + pair_delta_x(*old(w), entity_id, target_id, index as int));
                            } else {
                                assert(pair_delta_x(*old(w), entity_id, id, index + 1)
                                    == pair_delta_x(*old(w), entity_id, id, index as int));
                                assert(pair_delta_y(*old(w), entity_id, id, index + 1)
                                    == pair_delta_y(*old(w), entity_id, id, index as int));
                            }
                        }
                    }
                }
            } else {
                proof {
                    assert(entity_colliders@[0] == old(w).collider.spec_get(entity_id).unwrap()@[
                        0
                    ]);
                    assert(entity_colliders@[0].targets@[index as int] == target_id);
                    assert forall|id: EntityId|
                        #![trigger pair_delta_x(*old(w), entity_id, id, index + 1)]
                        pair_delta_x(*old(w), entity_id, id, index + 1) == pair_delta_x(
                            *old(w),
                            entity_id,
                            id,
                            index as int,
                        ) && pair_delta_y(*old(w), entity_id, id, index + 1) == pair_delta_y(
                            *old(w),
                            entity_id,
                            id,
                            index as int,
                        ) by {}
                }
            }
            index = index + 1;
        }
        proof {
            assert(old(w).collider.items@[old(w).collider.spec_index_of(entity_id)].id
                == entity_id);
        }
        w.collider.set(&entity_id, Some(entity_colliders));
        w.transform.set(&entity_id, Some(entity_transform));
        proof {
            assert(w.collider.items@ =~= old(w).collider.items@);
            assert(old(w).entities.entities@[s] is Some);
            assert(EntityId(s as usize) == entity_id);
            assert forall|id: EntityId|
                #![trigger slot_delta_x(*old(w), id, s)]
                slot_delta_x(*old(w), id, s) == pair_delta_x(
                    *old(w),
                    entity_id,
                    id,
                    n_targets as int,
                ) && slot_delta_y(*old(w), id, s) == pair_delta_y(
                    *old(w),
                    entity_id,
                    id,
                    n_targets as int,
                ) by {
                assert(old(w).collider.spec_get(entity_id).unwrap()@[0].targets@.len()
                    == n_targets);
            }
            assert forall|id: EntityId|
                (#[trigger] old(w).transform.spec_get(id)) is Some implies {
                let t0 = old(w).transform.spec_get(id).unwrap();
                let t1 = w.transform.spec_get(id).unwrap();
                &&& t1.velocity.x == t0.velocity.x + response_delta_x(*old(w), id, s + 1)
                &&& t1.velocity.y == t0.velocity.y + response_delta_y(*old(w), id, s + 1)
            } by {
                assert(response_delta_x(*old(w), id, s + 1) == response_delta_x(*old(w), id, s)
                    + slot_delta_x(*old(w), id, s));
                assert(response_delta_y(*old(w), id, s + 1) == response_delta_y(*old(w), id, s)
                    + slot_delta_y(*old(w), id, s));
                assert(slot_delta_x(*old(w), id, s) == pair_delta_x(
                    *old(w),
                    entity_id,
                    id,
                    n_targets as int,
                ));
            }
            processed = s + 1;
            assert(VELOCITY_LIMIT + bump_bound * (oi as int) + 60 * (n_targets as int)
                <= VELOCITY_LIMIT + bump_bound * ((oi as int) + 1)) by (nonlinear_arith)
                requires
                    0 <= n_targets <= n,
                    bump_bound == 120 * (RESPONSE_MAX_ENTITIES + 1),
                    n <= RESPONSE_MAX_ENTITIES,
                    0 <= oi,
            ;
            assert forall|id: EntityId|
                #[trigger] w.transform.spec_get(id) is Some implies {
                let t = w.transform.spec_get(id).unwrap();
                &&& -(VELOCITY_LIMIT + bump_bound * ((oi as int) + 1)) <= t.velocity.x
                    <= VELOCITY_LIMIT + bump_bound * ((oi as int) + 1)
                &&& -(VELOCITY_LIMIT + bump_bound * ((oi as int) + 1)) <= t.velocity.y
                    <= VELOCITY_LIMIT + bump_bound * ((oi as int) + 1)
            } by {}
            assert(w.wf()) by {
                assert forall|si: int|
                    0 <= si < w.entities.entities@.len() && (#[trigger] w.entities.entities@[si])
                        is Some implies w.spec_synced_all(w.entities.entities@[si].unwrap()) by {
                    let e2 = w.entities.entities@[si].unwrap();
                    assert(old(w).spec_synced_all(e2));
                    assert(w.transform.spec_registered(e2.id) == old(w).transform.spec_registered(
                        e2.id,
                    ));
                    assert(w.transform.spec_get(e2.id) is Some == old(w).transform.spec_get(e2.id)
                        is Some);
                    assert(w.collider.spec_registered(e2.id) == old(w).collider.spec_registered(
                        e2.id,
                    ));
                    if old(w).collider.spec_registered(e2.id) {
                        assert(w.collider.items@[old(w).collider.spec_index_of(e2.id)] == old(
                            w,
                        ).collider.items@[old(w).collider.spec_index_of(e2.id)]);
                    }
                    assert(w.collider.spec_get(e2.id) is Some == old(w).collider.spec_get(e2.id)
                        is Some);
                }
                assert forall|id: EntityId|
                    #[trigger] w.transform.spec_registered(id) implies w.entities.spec_live(
                    id,
                ) by {
                    assert(old(w).transform.spec_registered(id));
                }
                assert forall|id: EntityId|
                    #[trigger] w.collider.spec_registered(id) implies w.entities.spec_live(
                    id,
                ) by {
                    assert(old(w).collider.spec_registered(id));
                }
            }
        }
        oi = oi + 1;
    }
    proof {
        assert forall|id: EntityId|
            #[trigger] w.transform.spec_get(id) is Some implies {
            let t = w.transform.spec_get(id).unwrap();
            &&& -vbound <= t.velocity.x <= vbound
            &&& -vbound <= t.velocity.y <= vbound
        } by {
            assert(bump_bound * (oi as int) <= bump_bound * (n + 1)) by (nonlinear_arith)
                requires
                    (oi as int) <= n + 1,
                    bump_bound >= 0,
            ;
            assert(bump_bound * (n + 1) <= 120 * (RESPONSE_MAX_ENTITIES + 1) * (
            RESPONSE_MAX_ENTITIES + 1)) by (nonlinear_arith)
                requires
                    bump_bound == 120 * (RESPONSE_MAX_ENTITIES + 1),
                    0 <= n <= RESPONSE_MAX_ENTITIES,
            ;
        }
        // the slots past the last collider entity contribute nothing
        assert forall|id: EntityId|
            (#[trigger] old(w).transform.spec_get(id)) is Some implies {
            let t0 = old(w).transform.spec_get(id).unwrap();
            let t1 = w.transform.spec_get(id).unwrap();
            &&& t1.velocity.x == t0.velocity.x + response_delta_x(*old(w), id, n)
            &&& t1.velocity.y == t0.velocity.y + response_delta_y(*old(w), id, n)
        } by {
            assert forall|i: int| processed <= i < n implies #[trigger] slot_delta_x(
                *old(w),
                id,
                i,
            ) == 0 && slot_delta_y(*old(w), id, i) == 0 by {
                assert forall|li: int| 0 <= li < entities@.len() implies (
                #[trigger] entities@[li]).0 != i by {
                    if entities@[li].0 == i {
                        assert(oi == entities@.len());
                        assert(oi > 0);
                        assert(entities@[li].0 <= entities@[oi - 1].0);
                    }
                }
                lemma_outside_list_slot_zero(*old(w), entities@, id, i);
            }
            lemma_response_delta_constant(*old(w), id, processed, n);
        }
    }
}


/// Queries one group's cached tree for the given box and returns the
/// candidate entities it reports, or `None` when there are none.
pub fn get_contact_with_group(w: &mut World, entity_aabb: EntityAabb, group: Group) -> (r: Option<
    Vec<EntityId>,
>)
    requires
        old(w).vars.bvh@.len() == MAX_GROUP,
        0 <= group.spec_index() < MAX_GROUP,
        match old(w).vars.bvh@[group.spec_index()] {
            Some(node) => wf_tree(node),
            None => true,
        },
    ensures
        *final(w) == *old(w),
        match old(w).vars.bvh@[group.spec_index()] {
            None => r is None,
            Some(node) => {
                let ps = contact_pairs(entity_aabb, node);
                match r {
                    None => ps.len() == 0,
                    Some(v) => {
                        &&& v@.len() == ps.len()
                        &&& v@.len() > 0
                        &&& forall|k: int| 0 <= k < v@.len() ==> v@[k] == ps[k].1
                    },
                }
            },
        },
{
    let gi = group.index();
    let mut contact_entities: Vec<EntityId> = Vec::new();
    let mut pairs: Vec<(EntityId, EntityId)> = Vec::new();
    match &w.vars.bvh[gi] {
        Some(n) => {
            get_contact_with(&entity_aabb, n, &mut pairs);
        },
        None => {},
    }
    let mut i: usize = 0;
    while i < pairs.len()
        invariant
            0 <= i <= pairs@.len(),
            contact_entities@.len() == i,
            forall|k: int| 0 <= k < i ==> contact_entities@[k] == (#[trigger] pairs@[k]).1,
        decreases pairs@.len() - i,
    {
        contact_entities.push(pairs[i].1);
        i = i + 1;
    }
    if contact_entities.len() > 0 {
        Some(contact_entities)
    } else {
        None
    }
}

} // verus!
