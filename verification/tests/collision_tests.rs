use bouncing_balls::collider::{Collider, EntityAabb, Rect};
use bouncing_balls::collision::get_contact_with_group;
use bouncing_balls::collision::{
    collect_entities_from_archetype, collision, narrow_collision_check,
    physics_collision_solve_add, RejectReason,
};
use bouncing_balls::ecs::EntityId;
use bouncing_balls::geometry::Vector2;
use bouncing_balls::group::{Direction, Group};
use bouncing_balls::world::World;

const BALL_SIZE: i64 = 20;

fn spawn(w: &mut World, pos: Vector2, group: Group, size: i64) -> EntityId {
    let id = w.entities.instantiate_entity();
    let e = w.entities.get_mut(&id).unwrap();
    let mut transform = bouncing_balls::world::Transform::new(id);
    transform.position = pos;
    w.transform.register(e, transform);
    let rect = Rect::new(size, size);
    let collider = Collider::new(rect, group, Vector2::zero());
    w.collider.register(e, vec![collider]);
    w.group.register(e, group);
    w.clock.register(e, bouncing_balls::world::Clock::new());
    id
}

fn targets_of(w: &World, id: EntityId) -> Vec<EntityId> {
    w.collider.get(&id).unwrap()[0].targets.clone()
}

fn enter_of(w: &World, id: EntityId) -> Vec<EntityId> {
    w.collider.get(&id).unwrap()[0].targets_enter.clone()
}

fn left_of(w: &World, id: EntityId) -> Vec<EntityId> {
    w.collider.get(&id).unwrap()[0].targets_left.clone()
}

#[test]
fn target_submit_test() {
    let rect = Rect::new(100, 100);
    let mut collider = Collider::new(rect, Group::Building, Vector2::zero());

    collider.add_target(&EntityId(1));
    collider.add_target(&EntityId(3));
    collider.add_target(&EntityId(5));
    collider.add_target(&EntityId(7));

    collider.targets_submit();

    assert!(collider.targets_temp.is_empty());
    assert_eq!(collider.targets, vec![EntityId(1), EntityId(3), EntityId(5), EntityId(7)]);
    assert_eq!(
        collider.targets_enter,
        vec![EntityId(1), EntityId(3), EntityId(5), EntityId(7)]
    );
    assert!(collider.targets_left.is_empty());

    collider.add_target(&EntityId(2));
    collider.add_target(&EntityId(3));
    collider.add_target(&EntityId(4));
    collider.add_target(&EntityId(5));

    collider.targets_submit();

    assert!(collider.targets_temp.is_empty());
    assert_eq!(collider.targets, vec![EntityId(2), EntityId(3), EntityId(4), EntityId(5)]);
    assert_eq!(collider.targets_enter, vec![EntityId(2), EntityId(4)]);
    assert_eq!(collider.targets_left, vec![EntityId(1), EntityId(7)]);
}

fn test_collision(w: &mut World) {
    collision(w);
}

fn test_create_static_ball_pos(w: &mut World, pos: &Vector2) {
    spawn(w, *pos, Group::Enemy, BALL_SIZE);
}

fn test_create_static_bullet_pos(w: &mut World, pos: &Vector2) {
    spawn(w, *pos, Group::PlayerBullet, BALL_SIZE);
}

fn test_remove_out_of_bounds(w: &mut World) {
    let entities = collect_entities_from_archetype(w, &[w.collider.id()]);
    for entity_id in entities.iter() {
        let pos = w.transform.get(entity_id).unwrap().position;
        let aabb = w.collider.get(entity_id).unwrap()[0].local_aabb();
        if pos.x > w.consts.canvas_width as i64 + aabb.x_max
            || pos.x < aabb.x_min
            || pos.y > w.consts.canvas_height as i64 + aabb.y_max
            || pos.y < aabb.y_min
        {
            w.remove_entity(entity_id);
        }
    }
}

#[test]
fn world_collision_test() {
    let mut w = World::new();
    w.consts.canvas_width = 200;
    w.consts.canvas_height = 200;

    let v1 = Vector2 { x: -10, y: -10 };
    let v2 = Vector2 { x: 10, y: 10 };

    test_create_static_bullet_pos(&mut w, &v1);
    test_create_static_ball_pos(&mut w, &v2);

    // frame 1: the boxes touch at the corner, which the broad phase keeps
    // and the narrow phase accepts via the east/south candidate edges
    test_collision(&mut w);
    assert_eq!(targets_of(&w, EntityId(0)), vec![EntityId(1)]);
    assert_eq!(targets_of(&w, EntityId(1)), vec![EntityId(0)]);
    assert_eq!(enter_of(&w, EntityId(0)), vec![EntityId(1)]);

    test_remove_out_of_bounds(&mut w);
    assert_eq!(w.entities.alive_entities_len(), 2);

    let v2 = Vector2 { x: -5, y: -5 };
    w.transform.get_unchecked_mut(&EntityId(1)).position = v2;

    // frame 2: still in contact, so nothing enters or leaves
    test_collision(&mut w);
    assert_eq!(targets_of(&w, EntityId(0)), vec![EntityId(1)]);
    assert!(enter_of(&w, EntityId(0)).is_empty());
    assert!(left_of(&w, EntityId(0)).is_empty());
}

#[test]
fn narrow_phase_reports_direction_and_point() {
    // horizontally separated squares resolve east with an edge-aligned point
    let mut w = World::new();
    let a = spawn(&mut w, Vector2::new(0, 0), Group::Player, 20);
    let b = spawn(&mut w, Vector2::new(14, 0), Group::Enemy, 20);

    let r = narrow_collision_check(&w, &a, &b).unwrap();
    assert_eq!(r.direction, Direction::East);
    assert_eq!(r.point, Vector2::new(4, 0));
    assert_eq!(r.target_id, b);
    assert_eq!(r.target_group, Group::Enemy);

    // from the other side the same contact resolves west
    let r2 = narrow_collision_check(&w, &b, &a).unwrap();
    assert_eq!(r2.direction, Direction::West);
    assert_eq!(r2.point, Vector2::new(10, 0));
}

#[test]
fn narrow_phase_rejects_corner_overlap() {
    // boxes offset diagonally beyond both extents reject despite the group
    // rule allowing contact
    let mut w = World::new();
    let a = spawn(&mut w, Vector2::new(0, 0), Group::Player, 20);
    let b = spawn(&mut w, Vector2::new(25, 25), Group::Enemy, 20);
    assert_eq!(narrow_collision_check(&w, &a, &b), Err(RejectReason::NoContact));
}

#[test]
fn narrow_phase_rejects_forbidden_groups() {
    // player bullets do not list players, even when the boxes overlap
    let mut w = World::new();
    let a = spawn(&mut w, Vector2::new(0, 0), Group::PlayerBullet, 20);
    let b = spawn(&mut w, Vector2::new(5, 0), Group::Player, 20);
    assert_eq!(
        narrow_collision_check(&w, &a, &b),
        Err(RejectReason::GroupNotPossible)
    );

    // the rule is directional: System lists Player, Player does not list
    // System, so the same overlapping pair is accepted from one side only
    let mut w2 = World::new();
    let s = spawn(&mut w2, Vector2::new(0, 0), Group::System, 20);
    let p = spawn(&mut w2, Vector2::new(5, 0), Group::Player, 20);
    assert!(narrow_collision_check(&w2, &s, &p).is_ok());
    assert_eq!(
        narrow_collision_check(&w2, &p, &s),
        Err(RejectReason::GroupNotPossible)
    );
}

#[test]
fn deep_interpenetration_keeps_both_directions() {
    // a small box fully inside a large one on both axes is still resolved
    let mut w = World::new();
    let big = spawn(&mut w, Vector2::new(0, 0), Group::Player, 100);
    let small = spawn(&mut w, Vector2::new(1, 0), Group::Enemy, 10);
    let r = narrow_collision_check(&w, &big, &small).unwrap();
    // the small target sits slightly east of center, so its west edge is
    // nearest: the minimum separation picks east from the entity's side
    assert_eq!(r.direction, Direction::East);
}

#[test]
fn enter_and_exit_lifecycle() {
    // frame 1: first sight enters; frame 2: moving away leaves; frame 3:
    // both deltas empty
    let mut w = World::new();
    let c = spawn(&mut w, Vector2::new(0, 0), Group::Player, 20);
    let t = spawn(&mut w, Vector2::new(10, 0), Group::Enemy, 20);

    collision(&mut w);
    assert_eq!(targets_of(&w, c), vec![t]);
    assert_eq!(enter_of(&w, c), vec![t]);
    assert!(left_of(&w, c).is_empty());

    w.transform.get_unchecked_mut(&t).position = Vector2::new(1000, 0);
    collision(&mut w);
    assert!(targets_of(&w, c).is_empty());
    assert!(enter_of(&w, c).is_empty());
    assert_eq!(left_of(&w, c), vec![t]);

    collision(&mut w);
    assert!(targets_of(&w, c).is_empty());
    assert!(enter_of(&w, c).is_empty());
    assert!(left_of(&w, c).is_empty());
}

#[test]
fn impulse_displaces_both_bodies() {
    let mut w = World::new();
    let a = spawn(&mut w, Vector2::new(0, 0), Group::Player, 20);
    let b = spawn(&mut w, Vector2::new(10, 0), Group::Enemy, 20);

    collision(&mut w);
    assert_eq!(targets_of(&w, a), vec![b]);

    physics_collision_solve_add(&mut w);
    // the contact resolves east: the entity recoils west, the target east
    assert_eq!(w.transform.get(&a).unwrap().velocity, Vector2::new(-60, 0));
    assert_eq!(w.transform.get(&b).unwrap().velocity, Vector2::new(60, 0));
    // positions are untouched by the response step
    assert_eq!(w.transform.get(&a).unwrap().position, Vector2::new(0, 0));
    assert_eq!(w.transform.get(&b).unwrap().position, Vector2::new(10, 0));
}

#[test]
fn group_query_reads_the_cached_tree() {
    let mut w = World::new();
    let a = spawn(&mut w, Vector2::new(0, 0), Group::Player, 20);
    let b = spawn(&mut w, Vector2::new(10, 0), Group::Enemy, 20);
    collision(&mut w);

    let probe = EntityAabb {
        entity_id: a,
        position: Vector2::new(0, 0),
        aabb: w.collider.get(&a).unwrap()[0].aabb(Vector2::new(0, 0)),
    };
    let hits = get_contact_with_group(&mut w, probe, Group::Enemy);
    assert_eq!(hits, Some(vec![b]));
    let misses = get_contact_with_group(&mut w, probe, Group::Building);
    assert_eq!(misses, None);
}

#[test]
fn impulses_accumulate_across_pairs() {
    // a chain of three touching bodies: the middle one receives one
    // impulse from each side and they cancel; the outer ones recoil; the
    // total momentum change is zero
    let mut w = World::new();
    let a = spawn(&mut w, Vector2::new(0, 0), Group::Player, 20);
    let b = spawn(&mut w, Vector2::new(10, 0), Group::Enemy, 20);
    let c = spawn(&mut w, Vector2::new(20, 0), Group::Building, 20);

    collision(&mut w);
    assert_eq!(targets_of(&w, a), vec![b, c]);
    assert_eq!(targets_of(&w, b), vec![a, c]);

    physics_collision_solve_add(&mut w);
    assert_eq!(w.transform.get(&a).unwrap().velocity, Vector2::new(-120, 0));
    assert_eq!(w.transform.get(&b).unwrap().velocity, Vector2::new(0, 0));
    assert_eq!(w.transform.get(&c).unwrap().velocity, Vector2::new(120, 0));
}
