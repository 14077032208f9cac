use vstd::prelude::*;

use crate::bvh::BvhNode;
use crate::collider::Collider;
use crate::ecs::{Component, ComponentId, EntityId, EntityManager, Entity};
use crate::geometry::Vector2;
use crate::group::{GameState, Group, MAX_GROUP};

verus! {

/// Position, scale and velocity of one entity, with non-owning
/// parent/children links by identifier.
#[derive(Clone, Debug, PartialEq)]
pub struct Transform {
    pub id: EntityId,
    pub position: Vector2,
    pub scale: i64,
    pub velocity: Vector2,
    pub parent: Option<EntityId>,
    pub children: Option<Vec<EntityId>>,
}

impl Transform {
    pub fn new(id: EntityId) -> (r: Transform)
        ensures
            r.id == id,
            r.position == (Vector2 { x: 0i64, y: 0i64 }),
            r.scale == 1i64,
            r.velocity == (Vector2 { x: 0i64, y: 0i64 }),
            r.parent is None,
            r.children is None,
    {
        Transform {
            id,
            position: Vector2::zero(),
            scale: 1,
            velocity: Vector2::zero(),
            parent: None,
            children: None,
        }
    }

    /// Links `child_transform` under `self`: the child's parent becomes
    /// `self.id`, and the child's id is appended to `self.children` unless
    /// it is already listed.
    pub fn set_children(&mut self, child_transform: &mut Transform)
        requires
            match old(self).children {
                Some(cs) => cs@.len() < usize::MAX,
                None => true,
            },
        ensures
            final(child_transform).parent == Some(old(self).id),
            final(child_transform).id == old(child_transform).id,
            final(child_transform).position == old(child_transform).position,
            final(child_transform).scale == old(child_transform).scale,
            final(child_transform).velocity == old(child_transform).velocity,
            final(child_transform).children == old(child_transform).children,
            final(self).id == old(self).id,
            final(self).position == old(self).position,
            final(self).scale == old(self).scale,
            final(self).velocity == old(self).velocity,
            final(self).parent == old(self).parent,
            match old(self).children {
                None => final(self).children matches Some(cs)
                    && cs@ == seq![old(child_transform).id],
                Some(cs0) => {
                    if cs0@.contains(old(child_transform).id) {
                        final(self).children matches Some(cs) && cs@ == cs0@
                    } else {
                        final(self).children matches Some(cs) && cs@ == cs0@.push(
                            old(child_transform).id,
                        )
                    }
                },
            },
    {
        child_transform.parent = Some(self.id);
        let cs_opt = self.children.take();
        match cs_opt {
            Some(children) => {
                let mut children = children;
                let mut i: usize = 0;
                let mut found = false;
                while !found && i < children.len()
                    invariant
                        0 <= i <= children@.len(),
                        children@ == old(self).children.unwrap()@,
                        forall|k: int| 0 <= k < i ==> children@[k] != old(child_transform).id,
                        child_transform.id == old(child_transform).id,
                        found ==> i < children@.len() && children@[i as int] == old(
                            child_transform,
                        ).id,
                    decreases children@.len() - i + (if found {
                        0int
                    } else {
                        1int
                    }),
                {
                    if children[i] == child_transform.id {
                        found = true;
                    } else {
                        i = i + 1;
                    }
                }
                if !found {
                    children.push(child_transform.id);
                }
                self.children = Some(children);
            },
            None => {
                self.children = Some(vec![child_transform.id]);
            },
        }
    }

    /// Links `self` under `parent_transform`; the mirror of `set_children`.
    pub fn set_parent(&mut self, parent_transform: &mut Transform)
        requires
            match old(parent_transform).children {
                Some(cs) => cs@.len() < usize::MAX,
                None => true,
            },
        ensures
            final(self).parent == Some(old(parent_transform).id),
            final(self).id == old(self).id,
            final(self).position == old(self).position,
            final(self).scale == old(self).scale,
            final(self).velocity == old(self).velocity,
            final(self).children == old(self).children,
            final(parent_transform).id == old(parent_transform).id,
            final(parent_transform).position == old(parent_transform).position,
            final(parent_transform).scale == old(parent_transform).scale,
            final(parent_transform).velocity == old(parent_transform).velocity,
            final(parent_transform).parent == old(parent_transform).parent,
            match old(parent_transform).children {
                None => final(parent_transform).children matches Some(cs)
                    && cs@ == seq![old(self).id],
                Some(cs0) => {
                    if cs0@.contains(old(self).id) {
                        final(parent_transform).children matches Some(cs) && cs@ == cs0@
                    } else {
                        final(parent_transform).children matches Some(cs) && cs@ == cs0@.push(
                            old(self).id,
                        )
                    }
                },
            },
    {
        self.parent = Some(parent_transform.id);
        let cs_opt = parent_transform.children.take();
        match cs_opt {
            Some(children) => {
                let mut children = children;
                let mut i: usize = 0;
                let mut found = false;
                while !found && i < children.len()
                    invariant
                        0 <= i <= children@.len(),
                        children@ == old(parent_transform).children.unwrap()@,
                        forall|k: int| 0 <= k < i ==> children@[k] != old(self).id,
                        self.id == old(self).id,
                        found ==> i < children@.len() && children@[i as int] == old(self).id,
                    decreases children@.len() - i + (if found {
                        0int
                    } else {
                        1int
                    }),
                {
                    if children[i] == self.id {
                        found = true;
                    } else {
                        i = i + 1;
                    }
                }
                if !found {
                    children.push(self.id);
                }
                parent_transform.children = Some(children);
            },
            None => {
                parent_transform.children = Some(vec![self.id]);
            },
        }
    }
}

/// Per-entity timers and alarms in milliseconds.
pub struct Clock {
    pub timer: Vec<Option<i64>>,
    pub alarm: Vec<Option<i64>>,
}

impl Clock {
    pub fn new() -> (r: Clock)
        ensures
            r.timer@ == seq![Option::<i64>::None],
            r.alarm@ == seq![Option::<i64>::None],
    {
        Clock { timer: vec![None], alarm: vec![None] }
    }

    /// Resets a running timer to zero; a stopped timer stays stopped.
    pub fn timer_reset(&mut self, index: usize)
        requires
            index < old(self).timer@.len(),
        ensures
            final(self).alarm@ == old(self).alarm@,
            final(self).timer@ == (if old(self).timer@[index as int] is Some {
                old(self).timer@.update(index as int, Some(0i64))
            } else {
                old(self).timer@
            }),
    {
        if self.timer[index].is_some() {
            self.timer[index] = Some(0);
        } else {
            proof {
                assert(self.timer@ =~= old(self).timer@);
            }
        }
    }

    pub fn timer_set(&mut self, time: i64, index: usize)
        requires
            index < old(self).timer@.len(),
        ensures
            final(self).alarm@ == old(self).alarm@,
            final(self).timer@ == old(self).timer@.update(index as int, Some(time)),
    {
        self.timer[index] = Some(time);
    }

    /// Grows the timer list with stopped timers until `index` is a valid
    /// slot.
    pub fn timer_create(&mut self, index: usize)
        requires
            index < usize::MAX,
        ensures
            final(self).alarm@ == old(self).alarm@,
            final(self).timer@.len() >= index + 1,
            final(self).timer@.len() >= old(self).timer@.len(),
            final(self).timer@.take(old(self).timer@.len() as int) == old(self).timer@,
            forall|k: int|
                old(self).timer@.len() <= k < final(self).timer@.len() ==> (
                #[trigger] final(self).timer@[k]) is None,
    {
        proof {
            assert(self.timer@.take(old(self).timer@.len() as int) =~= old(self).timer@);
        }
        while self.timer.len() < index + 1
            invariant
                index < usize::MAX,
                old(self).timer@.len() <= self.timer@.len(),
                self.timer@.len() > old(self).timer@.len() ==> self.timer@.len() <= index + 1,
                self.timer@.take(old(self).timer@.len() as int) == old(self).timer@,
                forall|k: int|
                    old(self).timer@.len() <= k < self.timer@.len() ==> (
                    #[trigger] self.timer@[k]) is None,
                self.alarm@ == old(self).alarm@,
            decreases index + 1 - self.timer@.len(),
        {
            self.timer.push(None);
            proof {
                assert(self.timer@.take(old(self).timer@.len() as int) =~= old(self).timer@);
            }
        }
    }

    /// Grows the timer list as needed, then starts the timer at `index`.
    pub fn timer_create_and_set(&mut self, time: i64, index: usize)
        requires
            index < usize::MAX,
        ensures
            final(self).alarm@ == old(self).alarm@,
            final(self).timer@.len() >= index + 1,
            final(self).timer@[index as int] == Some(time),
            forall|k: int|
                0 <= k < old(self).timer@.len() && k != index ==> final(self).timer@[k] == old(self).timer@[k],
            forall|k: int|
                old(self).timer@.len() <= k < final(self).timer@.len() && k != index ==> (
                #[trigger] final(self).timer@[k]) is None,
    {
        self.timer_create(index);
        let ghost grown = self.timer@;
        self.timer[index] = Some(time);
        proof {
            assert forall|k: int|
                0 <= k < old(self).timer@.len() && k != index implies self.timer@[k] == old(self).timer@[k] by {
                assert(grown[k] == grown.take(old(self).timer@.len() as int)[k]);
            }
        }
    }
}

/// Slot-allocation values of the player system: the entity that owns the
/// player's weapons.
pub struct PlayerVars {
    pub weapons_id: EntityId,
}

/// Frame-constant world parameters supplied by the surrounding loop.
pub struct WorldConsts {
    pub canvas_width: u32,
    pub canvas_height: u32,
    pub delta_time: i64,
}

impl WorldConsts {
    fn new() -> (r: WorldConsts)
        ensures
            r.canvas_width == 0,
            r.canvas_height == 0,
            r.delta_time == 0,
    {
        WorldConsts { canvas_width: 0, canvas_height: 0, delta_time: 0 }
    }
}

/// Mutable world state, among it the per-group tree cache, indexed by group
/// ordinal.
pub struct WorldVariables {
    pub is_playing: bool,
    pub last_click_point: Option<Vector2>,
    pub is_click_detection: bool,
    pub state: GameState,
    pub bvh: Vec<Option<BvhNode>>,
}

impl WorldVariables {
    fn new() -> (r: WorldVariables)
        ensures
            r.is_playing == false,
            r.last_click_point is None,
            r.is_click_detection == false,
            r.state is Title,
            r.bvh@.len() == MAX_GROUP,
            forall|k: int| 0 <= k < r.bvh@.len() ==> (#[trigger] r.bvh@[k]) is None,
    {
        let mut bvh: Vec<Option<BvhNode>> = Vec::new();
        let mut i: usize = 0;
        while i < MAX_GROUP
            invariant
                0 <= i <= MAX_GROUP,
                bvh@.len() == i,
                forall|k: int| 0 <= k < i ==> (#[trigger] bvh@[k]) is None,
            decreases MAX_GROUP - i,
        {
            bvh.push(None);
            i = i + 1;
        }
        WorldVariables {
            is_playing: false,
            last_click_point: None,
            is_click_detection: false,
            state: GameState::Title,
            bvh,
        }
    }
}

/// The world: the entity manager and one store per component kind.
pub struct World {
    pub consts: WorldConsts,
    pub vars: WorldVariables,
    pub entities: EntityManager,
    pub transform: Component<Transform>,
    pub destination: Component<Vec<Option<Vector2>>>,
    pub collider: Component<Vec<Collider>>,
    pub group: Component<Group>,
    pub clock: Component<Clock>,
    pub target: Component<Vec<Option<EntityId>>>,
    pub player_vars: Component<PlayerVars>,
}

impl World {
    /// Every store's id as assigned at construction.
    pub open spec fn ids_assigned(self) -> bool {
        &&& self.transform.id == ComponentId(0)
        &&& self.collider.id == ComponentId(1)
        &&& self.group.id == ComponentId(2)
        &&& self.clock.id == ComponentId(3)
        &&& self.destination.id == ComponentId(4)
        &&& self.target.id == ComponentId(5)
        &&& self.player_vars.id == ComponentId(6)
    }

    /// Store consistency for one entity across every store: its archetype
    /// lists a store exactly when that store holds a live value for it.
    pub open spec fn spec_synced_all(self, e: Entity) -> bool {
        &&& self.transform.spec_synced(e)
        &&& self.collider.spec_synced(e)
        &&& self.group.spec_synced(e)
        &&& self.clock.spec_synced(e)
        &&& self.destination.spec_synced(e)
        &&& self.target.spec_synced(e)
        &&& self.player_vars.spec_synced(e)
    }

    /// A store only holds entries for live entities.
    pub open spec fn registered_live(self) -> bool {
        &&& forall|id: EntityId|
            #[trigger] self.transform.spec_registered(id) ==> self.entities.spec_live(id)
        &&& forall|id: EntityId|
            #[trigger] self.collider.spec_registered(id) ==> self.entities.spec_live(id)
        &&& forall|id: EntityId|
            #[trigger] self.group.spec_registered(id) ==> self.entities.spec_live(id)
        &&& forall|id: EntityId|
            #[trigger] self.clock.spec_registered(id) ==> self.entities.spec_live(id)
        &&& forall|id: EntityId|
            #[trigger] self.destination.spec_registered(id) ==> self.entities.spec_live(id)
        &&& forall|id: EntityId|
            #[trigger] self.target.spec_registered(id) ==> self.entities.spec_live(id)
        &&& forall|id: EntityId|
            #[trigger] self.player_vars.spec_registered(id) ==> self.entities.spec_live(id)
    }

    /// The central consistency invariant: well-formed manager and stores,
    /// fixed store ids, and for every live entity an archetype that mirrors
    /// exactly the stores holding a value for it.
    pub open spec fn wf(self) -> bool {
        &&& self.entities.wf()
        &&& self.transform.wf()
        &&& self.collider.wf()
        &&& self.group.wf()
        &&& self.clock.wf()
        &&& self.destination.wf()
        &&& self.target.wf()
        &&& self.player_vars.wf()
        &&& self.ids_assigned()
        &&& self.registered_live()
        &&& forall|i: int|
            0 <= i < self.entities.entities@.len() && (#[trigger] self.entities.entities@[i])
                is Some ==> self.spec_synced_all(self.entities.entities@[i].unwrap())
        &&& forall|i: int|
            0 <= i < self.entities.entities@.len() && (#[trigger] self.entities.entities@[i])
                is Some
                ==> self.entities.entities@[i].unwrap().archetype.components@.no_duplicates()
    }

    pub fn new() -> (r: World)
        ensures
            r.wf(),
            r.entities.entities@.len() == 0,
            r.transform.items@.len() == 0,
            r.collider.items@.len() == 0,
            r.group.items@.len() == 0,
            r.clock.items@.len() == 0,
            r.destination.items@.len() == 0,
            r.target.items@.len() == 0,
            r.player_vars.items@.len() == 0,
            r.vars.bvh@.len() == MAX_GROUP,
            forall|k: int| 0 <= k < r.vars.bvh@.len() ==> (#[trigger] r.vars.bvh@[k]) is None,
            r.consts.delta_time == 0,
    {
        World {
            consts: WorldConsts::new(),
            vars: WorldVariables::new(),
            entities: EntityManager { entities: Vec::new() },
            transform: Component::new(Some(0)),
            collider: Component::new(Some(1)),
            group: Component::new(Some(2)),
            clock: Component::new(Some(3)),
            destination: Component::new(Some(4)),
            target: Component::new(Some(5)),
            player_vars: Component::new(Some(6)),
        }
    }

    /// Strips every component value of the entity, keeping archetype and
    /// stores in step. Part of the two-step teardown; the slot itself stays
    /// live until `remove_entity` clears it.
    #[verifier::rlimit(100)]
    fn remove_from_entity(&mut self, entity_id: &EntityId)
        requires
            old(self).wf(),
            entity_id.0 < old(self).entities.entities@.len(),
        ensures
            final(self).wf(),
            final(self).consts == old(self).consts,
            final(self).vars == old(self).vars,
            final(self).entities.entities@.len() == old(self).entities.entities@.len(),
            forall|k: int|
                0 <= k < old(self).entities.entities@.len() && k != entity_id.0 ==> final(self).entities.entities@[k] == old(self).entities.entities@[k],
            old(self).entities.entities@[entity_id.0 as int] is None ==> final(self).entities.entities@ == old(self).entities.entities@ && final(self).transform == old(self).transform && final(self).collider == old(self).collider && final(self).group == old(self).group && final(self).clock == old(self).clock && final(self).destination == old(self).destination && final(self).target == old(self).target && final(self).player_vars
                == old(self).player_vars,
            old(self).entities.entities@[entity_id.0 as int] is Some ==> {
                &&& final(self).entities.entities@[entity_id.0 as int] is Some
                &&& final(self).entities.entities@[entity_id.0 as int].unwrap().id == *entity_id
                &&& !final(self).transform.spec_registered(*entity_id)
                &&& !final(self).collider.spec_registered(*entity_id)
                &&& !final(self).group.spec_registered(*entity_id)
                &&& !final(self).clock.spec_registered(*entity_id)
                &&& !final(self).destination.spec_registered(*entity_id)
                &&& !final(self).target.spec_registered(*entity_id)
                &&& !final(self).player_vars.spec_registered(*entity_id)
            },
            forall|id2: EntityId|
                id2 != *entity_id ==> final(self).transform.spec_get(id2) == old(self).transform.spec_get(id2) && final(self).collider.spec_get(id2) == old(self).collider.spec_get(id2) && final(self).group.spec_get(id2) == old(self).group.spec_get(id2) && final(self).clock.spec_get(id2) == old(self).clock.spec_get(id2) && final(self).destination.spec_get(id2) == old(self).destination.spec_get(id2) && final(self).target.spec_get(id2) == old(self).target.spec_get(id2) && final(self).player_vars.spec_get(id2) == old(self).player_vars.spec_get(id2),
            forall|id2: EntityId|
                id2 != *entity_id ==> final(self).transform.spec_registered(id2) == old(self).transform.spec_registered(id2) && final(self).collider.spec_registered(id2)
                    == old(self).collider.spec_registered(id2) && final(self).group.spec_registered(id2) == old(self).group.spec_registered(id2) && final(self).clock.spec_registered(id2) == old(self).clock.spec_registered(id2) && final(self).destination.spec_registered(id2) == old(self).destination.spec_registered(id2)
                    && final(self).target.spec_registered(id2) == old(self).target.spec_registered(id2) && final(self).player_vars.spec_registered(id2)
                    == old(self).player_vars.spec_registered(id2),
    {
        let i = entity_id.0;
        let slot = &mut self.entities.entities[i];
        let e_opt = slot.take();
        match e_opt {
            None => {
                proof {
                    assert(self.entities.entities@ =~= old(self).entities.entities@);
                }
            },
            Some(entity) => {
                let mut entity = entity;
                proof {
                    assert(old(self).entities.entities@[i as int].unwrap().id.0 == i);
                    assert(entity.id == *entity_id);
                    assert(old(self).spec_synced_all(entity));
                    assert(entity.archetype.components@.no_duplicates());
                }
                let ghost e0 = entity;
                self.transform.remove(&mut entity);
                proof {
                    lemma_teardown_step(
                        e0.archetype.components@,
                        entity.archetype.components@,
                        ComponentId(0),
                        );
                    assert(self.collider.spec_synced(entity));
                    assert(self.group.spec_synced(entity));
                    assert(self.clock.spec_synced(entity));
                    assert(self.destination.spec_synced(entity));
                    assert(self.target.spec_synced(entity));
                    assert(self.player_vars.spec_synced(entity));
                }
                let ghost e1 = entity;
                self.collider.remove(&mut entity);
                proof {
                    lemma_teardown_step(
                        e1.archetype.components@,
                        entity.archetype.components@,
                        ComponentId(1),
                        );
                    assert(self.transform.spec_synced(entity));
                    assert(self.group.spec_synced(entity));
                    assert(self.clock.spec_synced(entity));
                    assert(self.destination.spec_synced(entity));
                    assert(self.target.spec_synced(entity));
                    assert(self.player_vars.spec_synced(entity));
                }
                let ghost e2 = entity;
                self.group.remove(&mut entity);
                proof {
                    lemma_teardown_step(
                        e2.archetype.components@,
                        entity.archetype.components@,
                        ComponentId(2),
                        );
                    assert(self.transform.spec_synced(entity));
                    assert(self.collider.spec_synced(entity));
                    assert(self.clock.spec_synced(entity));
                    assert(self.destination.spec_synced(entity));
                    assert(self.target.spec_synced(entity));
                    assert(self.player_vars.spec_synced(entity));
                }
                let ghost e3 = entity;
                self.clock.remove(&mut entity);
                proof {
                    lemma_teardown_step(
                        e3.archetype.components@,
                        entity.archetype.components@,
                        ComponentId(3),
                        );
                    assert(self.transform.spec_synced(entity));
                    assert(self.collider.spec_synced(entity));
                    assert(self.group.spec_synced(entity));
                    assert(self.destination.spec_synced(entity));
                    assert(self.target.spec_synced(entity));
                    assert(self.player_vars.spec_synced(entity));
                }
                let ghost e4 = entity;
                self.destination.remove(&mut entity);
                proof {
                    lemma_teardown_step(
                        e4.archetype.components@,
                        entity.archetype.components@,
                        ComponentId(4),
                        );
                    assert(self.transform.spec_synced(entity));
                    assert(self.collider.spec_synced(entity));
                    assert(self.group.spec_synced(entity));
                    assert(self.clock.spec_synced(entity));
                    assert(self.target.spec_synced(entity));
                    assert(self.player_vars.spec_synced(entity));
                }
                let ghost e5 = entity;
                self.target.remove(&mut entity);
                proof {
                    lemma_teardown_step(
                        e5.archetype.components@,
                        entity.archetype.components@,
                        ComponentId(5),
                        );
                    assert(self.transform.spec_synced(entity));
                    assert(self.collider.spec_synced(entity));
                    assert(self.group.spec_synced(entity));
                    assert(self.clock.spec_synced(entity));
                    assert(self.destination.spec_synced(entity));
                    assert(self.player_vars.spec_synced(entity));
                }
                let ghost e6 = entity;
                self.player_vars.remove(&mut entity);
                proof {
                    lemma_teardown_step(
                        e6.archetype.components@,
                        entity.archetype.components@,
                        ComponentId(6),
                        );
                    assert(self.transform.spec_synced(entity));
                    assert(self.collider.spec_synced(entity));
                    assert(self.group.spec_synced(entity));
                    assert(self.clock.spec_synced(entity));
                    assert(self.destination.spec_synced(entity));
                    assert(self.target.spec_synced(entity));
                }
                let ghost e_done = entity;
                self.entities.entities[i] = Some(entity);
                proof {
                    assert forall|k: int|
                        0 <= k < self.entities.entities@.len() && (
                        #[trigger] self.entities.entities@[k]) is Some implies {
                        &&& self.entities.entities@[k].unwrap().id.0 == k
                        &&& self.spec_synced_all(self.entities.entities@[k].unwrap())
                        &&& self.entities.entities@[
                            k
                        ].unwrap().archetype.components@.no_duplicates()
                    } by {
                        if k == i {
                            assert(self.entities.entities@[k].unwrap() == e_done);
                        } else {
                            let ek = old(self).entities.entities@[k].unwrap();
                            assert(self.entities.entities@[k] == old(self).entities.entities@[k]);
                            assert(old(self).spec_synced_all(ek));
                            assert(ek.id.0 == k);
                            assert(ek.id != e0.id);
                            assert(old(self).transform.spec_synced(ek));
                            assert(old(self).collider.spec_synced(ek));
                            assert(old(self).group.spec_synced(ek));
                            assert(old(self).clock.spec_synced(ek));
                            assert(old(self).destination.spec_synced(ek));
                            assert(old(self).target.spec_synced(ek));
                            assert(old(self).player_vars.spec_synced(ek));
                            assert(self.transform.spec_synced(ek));
                            assert(self.collider.spec_synced(ek));
                            assert(self.group.spec_synced(ek));
                            assert(self.clock.spec_synced(ek));
                            assert(self.destination.spec_synced(ek));
                            assert(self.target.spec_synced(ek));
                            assert(self.player_vars.spec_synced(ek));
                        }
                    }
                    assert(self.registered_live()) by {
                        assert forall|id: EntityId|
                            #[trigger] self.transform.spec_registered(id) implies self.entities.spec_live(
                            id,
                        ) by {
                            assert(old(self).transform.spec_registered(id));
                        }
                        assert forall|id: EntityId|
                            #[trigger] self.collider.spec_registered(id) implies self.entities.spec_live(
                            id,
                        ) by {
                            assert(old(self).collider.spec_registered(id));
                        }
                        assert forall|id: EntityId|
                            #[trigger] self.group.spec_registered(id) implies self.entities.spec_live(
                            id,
                        ) by {
                            assert(old(self).group.spec_registered(id));
                        }
                        assert forall|id: EntityId|
                            #[trigger] self.clock.spec_registered(id) implies self.entities.spec_live(
                            id,
                        ) by {
                            assert(old(self).clock.spec_registered(id));
                        }
                        assert forall|id: EntityId|
                            #[trigger] self.destination.spec_registered(id) implies self.entities.spec_live(
                            id,
                        ) by {
                            assert(old(self).destination.spec_registered(id));
                        }
                        assert forall|id: EntityId|
                            #[trigger] self.target.spec_registered(id) implies self.entities.spec_live(
                            id,
                        ) by {
                            assert(old(self).target.spec_registered(id));
                        }
                        assert forall|id: EntityId|
                            #[trigger] self.player_vars.spec_registered(id) implies self.entities.spec_live(
                            id,
                        ) by {
                            assert(old(self).player_vars.spec_registered(id));
                        }
                    }
                }
            },
        }
    }

    /// Destroys the entity: strips every component value first, while the
    /// slot is still live, then marks the slot destroyed.
    pub fn remove_entity(&mut self, entity_id: &EntityId)
        requires
            old(self).wf(),
            entity_id.0 < old(self).entities.entities@.len(),
        ensures
            final(self).wf(),
            final(self).consts == old(self).consts,
            final(self).vars == old(self).vars,
            final(self).entities.entities@ == old(self).entities.entities@.update(
                entity_id.0 as int,
                None,
            ),
            !final(self).transform.spec_registered(*entity_id),
            !final(self).collider.spec_registered(*entity_id),
            !final(self).group.spec_registered(*entity_id),
            !final(self).clock.spec_registered(*entity_id),
            !final(self).destination.spec_registered(*entity_id),
            !final(self).target.spec_registered(*entity_id),
            !final(self).player_vars.spec_registered(*entity_id),
            forall|id2: EntityId|
                id2 != *entity_id ==> final(self).transform.spec_get(id2) == old(self).transform.spec_get(id2) && final(self).collider.spec_get(id2) == old(self).collider.spec_get(id2) && final(self).group.spec_get(id2) == old(self).group.spec_get(id2) && final(self).clock.spec_get(id2) == old(self).clock.spec_get(id2) && final(self).destination.spec_get(id2) == old(self).destination.spec_get(id2) && final(self).target.spec_get(id2) == old(self).target.spec_get(id2) && final(self).player_vars.spec_get(id2) == old(self).player_vars.spec_get(id2),
    {
        self.remove_from_entity(entity_id);
        let ghost mid = *self;
        self.entities.remove(entity_id);
        proof {
            assert forall|i: int|
                0 <= i < self.entities.entities@.len() && (#[trigger] self.entities.entities@[i])
                    is Some implies self.spec_synced_all(self.entities.entities@[i].unwrap())
                && self.entities.entities@[i].unwrap().archetype.components@.no_duplicates() by {
                assert(self.entities.entities@[i] == mid.entities.entities@[i]);
            }
            assert forall|i: int|
                0 <= i < self.entities.entities@.len() && (#[trigger] self.entities.entities@[i])
                    is Some implies self.entities.entities@[i].unwrap().id.0 == i by {
                assert(self.entities.entities@[i] == mid.entities.entities@[i]);
            }
            if mid.entities.entities@[entity_id.0 as int] is Some {
            } else {
                assert(!mid.transform.spec_registered(*entity_id)) by {
                    if mid.transform.spec_registered(*entity_id) {
                        assert(mid.entities.spec_live(*entity_id));
                    }
                }
                assert(!mid.collider.spec_registered(*entity_id)) by {
                    if mid.collider.spec_registered(*entity_id) {
                        assert(mid.entities.spec_live(*entity_id));
                    }
                }
                assert(!mid.group.spec_registered(*entity_id)) by {
                    if mid.group.spec_registered(*entity_id) {
                        assert(mid.entities.spec_live(*entity_id));
                    }
                }
                assert(!mid.clock.spec_registered(*entity_id)) by {
                    if mid.clock.spec_registered(*entity_id) {
                        assert(mid.entities.spec_live(*entity_id));
                    }
                }
                assert(!mid.destination.spec_registered(*entity_id)) by {
                    if mid.destination.spec_registered(*entity_id) {
                        assert(mid.entities.spec_live(*entity_id));
                    }
                }
                assert(!mid.target.spec_registered(*entity_id)) by {
                    if mid.target.spec_registered(*entity_id) {
                        assert(mid.entities.spec_live(*entity_id));
                    }
                }
                assert(!mid.player_vars.spec_registered(*entity_id)) by {
                    if mid.player_vars.spec_registered(*entity_id) {
                        assert(mid.entities.spec_live(*entity_id));
                    }
                }
            }
        }
    }
}

/// One teardown step: stripping one store id from a duplicate-free
/// archetype keeps it duplicate-free and leaves every other id's
/// membership unchanged.
proof fn lemma_teardown_step(
    arch_pre: Seq<ComponentId>,
    arch_post: Seq<ComponentId>,
    removed: ComponentId,
)
    requires
        arch_pre.no_duplicates(),
        arch_post == arch_pre.remove_value(removed) || arch_post == arch_pre,
    ensures
        arch_post.no_duplicates(),
        forall|c: ComponentId| c != removed ==> #[trigger] arch_post.contains(c) == arch_pre.contains(c),
{
    if arch_post == arch_pre {
    } else {
        arch_pre.index_of_first_ensures(removed);
        if arch_pre.contains(removed) {
            let f = arch_pre.index_of_first(removed).unwrap();
            assert(arch_post =~= arch_pre.remove(f));
            assert forall|a: int, b: int| 0 <= a < b < arch_post.len() implies arch_post[a]
                != arch_post[b] by {
                if b < f {
                    assert(arch_post[a] == arch_pre[a]);
                    assert(arch_post[b] == arch_pre[b]);
                } else if a < f {
                    assert(arch_post[a] == arch_pre[a]);
                    assert(arch_post[b] == arch_pre[b + 1]);
                } else {
                    assert(arch_post[a] == arch_pre[a + 1]);
                    assert(arch_post[b] == arch_pre[b + 1]);
                }
            }
            assert forall|c: ComponentId| c != removed implies #[trigger] arch_post.contains(c)
                == arch_pre.contains(c) by {
                if arch_pre.contains(c) {
                    let w = choose|w: int| 0 <= w < arch_pre.len() && arch_pre[w] == c;
                    assert(w != f);
                    if w < f {
                        assert(arch_post[w] == c);
                    } else {
                        assert(arch_post[w - 1] == c);
                    }
                    assert(arch_post.contains(c));
                }
                if arch_post.contains(c) {
                    let w = choose|w: int| 0 <= w < arch_post.len() && arch_post[w] == c;
                    if w < f {
                        assert(arch_pre[w] == c);
                    } else {
                        assert(arch_pre[w + 1] == c);
                    }
                    assert(arch_pre.contains(c));
                }
            }
        } else {
            assert(arch_post =~= arch_pre);
        }
    }
}

} // verus!
