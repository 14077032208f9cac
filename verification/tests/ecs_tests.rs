use bouncing_balls::ecs::{Component, ComponentId, EntityId, EntytyArcheType};
use bouncing_balls::geometry::Vector2;
use bouncing_balls::world::{Clock, Transform, World};

fn store_with_five() -> (Component<i32>, Vec<bouncing_balls::ecs::Entity>) {
    let mut store: Component<i32> = Component::new(Some(0));
    let mut entities = Vec::new();
    for i in 0..5usize {
        let mut e = bouncing_balls::ecs::Entity {
            id: EntityId(i),
            archetype: EntytyArcheType::create_empty(),
        };
        store.register(&mut e, (i as i32) * 10);
        entities.push(e);
    }
    (store, entities)
}

#[test]
fn index_map_survives_removal_of_first_middle_last() {
    // removing the first, middle, and last of a 5-element store leaves
    // every remaining entry resolving to its own value
    let (mut store, mut entities) = store_with_five();

    let mut middle = entities.remove(2);
    store.remove(&mut middle);
    for e in &entities {
        assert_eq!(store.get(&e.id), Some(&((e.id.0 as i32) * 10)));
    }
    assert!(store.get(&EntityId(2)).is_none());

    let mut first = entities.remove(0);
    store.remove(&mut first);
    for e in &entities {
        assert_eq!(store.get(&e.id), Some(&((e.id.0 as i32) * 10)));
    }

    let mut last = entities.pop().unwrap();
    store.remove(&mut last);
    for e in &entities {
        assert_eq!(store.get(&e.id), Some(&((e.id.0 as i32) * 10)));
    }
}

#[test]
fn archetype_tracks_store_membership() {
    // after each register/remove, archetype membership mirrors the store
    let mut store: Component<i32> = Component::new(Some(7));
    let mut e = bouncing_balls::ecs::Entity {
        id: EntityId(0),
        archetype: EntytyArcheType::create_empty(),
    };
    assert!(!e.archetype.is_component_include(ComponentId(7)));
    assert!(store.get(&e.id).is_none());

    store.register(&mut e, 42);
    assert!(e.archetype.is_component_include(ComponentId(7)));
    assert_eq!(store.get(&e.id), Some(&42));

    store.remove(&mut e);
    assert!(!e.archetype.is_component_include(ComponentId(7)));
    assert!(store.get(&e.id).is_none());

    store.register(&mut e, 7);
    assert!(e.archetype.is_component_include(ComponentId(7)));
    assert_eq!(store.get(&e.id), Some(&7));
}

#[test]
fn take_and_set_round_trip() {
    let (mut store, entities) = store_with_five();
    let taken = store.take(&entities[3].id);
    assert_eq!(taken, Some(30));
    // the slot stays reserved: archetype unchanged, value gone
    assert!(store.get(&entities[3].id).is_none());
    assert!(entities[3].archetype.is_component_include(ComponentId(0)));
    store.set(&entities[3].id, Some(31));
    assert_eq!(store.get(&entities[3].id), Some(&31));
    assert_eq!(store.take_unchecked(&entities[3].id), 31);
    assert!(store.take(&EntityId(99)).is_none());
}

#[test]
fn unchecked_accessors_and_index_access() {
    let (mut store, entities) = store_with_five();
    assert_eq!(*store.get_unchecked(&entities[1].id), 10);
    *store.get_unchecked_mut(&entities[1].id) = 11;
    assert_eq!(*store.get_unchecked(&entities[1].id), 11);
    assert_eq!(store.get_from_index(4), Some(&40));
    assert!(store.get_from_index(5).is_none());
    if let Some(v) = store.get_mut_from_index(0) {
        *v = -1;
    }
    assert_eq!(store.get(&entities[0].id), Some(&-1));
    assert_eq!(store.id(), ComponentId(0));
}

#[test]
fn slot_recycling_reuses_lowest_free_slot() {
    let mut w = World::new();
    let a = w.entities.instantiate_entity();
    let b = w.entities.instantiate_entity();
    let c = w.entities.instantiate_entity();
    assert_eq!((a, b, c), (EntityId(0), EntityId(1), EntityId(2)));
    assert_eq!(w.entities.alive_entities_len(), 3);

    w.remove_entity(&b);
    assert_eq!(w.entities.alive_entities_len(), 2);

    let d = w.entities.instantiate_entity();
    assert_eq!(d, EntityId(1));
    assert_eq!(w.entities.len(), 3);
    assert_eq!(w.entities.alive_entities_len(), 3);
}

#[test]
fn world_teardown_strips_every_store() {
    let mut w = World::new();
    let id = w.entities.instantiate_entity();
    let e = w.entities.get_mut(&id).unwrap();
    w.transform.register(e, Transform::new(id));
    w.group.register(e, bouncing_balls::group::Group::Enemy);
    w.clock.register(e, Clock::new());
    assert!(w.transform.get(&id).is_some());
    assert!(w.group.get(&id).is_some());

    w.remove_entity(&id);
    assert!(w.transform.get(&id).is_none());
    assert!(w.group.get(&id).is_none());
    assert!(w.clock.get(&id).is_none());
    assert_eq!(w.entities.alive_entities_len(), 0);
    assert!(w.entities.get_alive_entities().is_none());
}

#[test]
fn archetype_superset_query() {
    let mut w = World::new();
    let a = w.entities.instantiate_entity();
    let ea = w.entities.get_mut(&a).unwrap();
    w.transform.register(ea, Transform::new(a));
    w.group.register(ea, bouncing_balls::group::Group::Player);

    let b = w.entities.instantiate_entity();
    let eb = w.entities.get_mut(&b).unwrap();
    w.transform.register(eb, Transform::new(b));

    let both = bouncing_balls::collision::collect_entities_from_archetype(
        &w,
        &[w.transform.id()],
    );
    assert_eq!(both, vec![a, b]);
    let grouped = bouncing_balls::collision::collect_entities_from_archetype(
        &w,
        &[w.transform.id(), w.group.id()],
    );
    assert_eq!(grouped, vec![a]);
    assert!(w.entities.has_component(&a, &w.group.id()));
    assert!(!w.entities.has_component(&b, &w.group.id()));
    assert_eq!(w.entities.get_alive_entities(), Some(vec![a, b]));
}

#[test]
fn archetype_inclusion_checks() {
    let arch = EntytyArcheType::create_archetype(&[ComponentId(1), ComponentId(3)]);
    let sub = EntytyArcheType::create_archetype(&[ComponentId(3)]);
    let other = EntytyArcheType::create_archetype(&[ComponentId(2)]);
    assert!(arch.is_archetype_include(&sub));
    assert!(!sub.is_archetype_include(&arch));
    assert!(!arch.is_archetype_include(&other));
    assert!(arch.is_archetype_include(&EntytyArcheType::create_empty()));
}

#[test]
fn transform_links_and_clock() {
    let mut parent = Transform::new(EntityId(0));
    let mut child = Transform::new(EntityId(1));
    parent.set_children(&mut child);
    assert_eq!(child.parent, Some(EntityId(0)));
    assert_eq!(parent.children, Some(vec![EntityId(1)]));
    // linking twice does not duplicate the child
    parent.set_children(&mut child);
    assert_eq!(parent.children, Some(vec![EntityId(1)]));

    let mut other = Transform::new(EntityId(2));
    other.set_parent(&mut parent);
    assert_eq!(other.parent, Some(EntityId(0)));
    assert_eq!(parent.children, Some(vec![EntityId(1), EntityId(2)]));

    let mut clock = Clock::new();
    clock.timer_create_and_set(500, 3);
    assert_eq!(clock.timer.len(), 4);
    assert_eq!(clock.timer[3], Some(500));
    assert_eq!(clock.timer[1], None);
    clock.timer_reset(3);
    assert_eq!(clock.timer[3], Some(0));
    clock.timer_reset(1);
    assert_eq!(clock.timer[1], None);
    clock.timer_set(9, 0);
    assert_eq!(clock.timer[0], Some(9));

    let mut v = Vector2::new(1, 2);
    v.add(Vector2::new(3, -5));
    assert_eq!(v, Vector2::new(4, -3));
}

#[test]
fn register_default_attaches_default_value() {
    let mut store: Component<i32> = Component::new(Some(2));
    let mut e = bouncing_balls::ecs::Entity {
        id: EntityId(4),
        archetype: EntytyArcheType::create_empty(),
    };
    store.register_default(&mut e);
    assert_eq!(store.get(&e.id), Some(&0));
    assert!(e.archetype.is_component_include(ComponentId(2)));
}
