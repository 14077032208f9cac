use vstd::prelude::*;

verus! {

/// Densely assigned handle of one entity. Slots are recycled, so a value is
/// unique only among currently live entities.
#[derive(Clone, Copy, Debug, PartialEq, Eq, PartialOrd, Ord, Hash, Structural)]
pub struct EntityId(pub usize);

/// Handle of one kind of component store, assigned once at world
/// construction, sequential and distinct per store.
#[derive(Clone, Copy, Debug, PartialEq, Eq, PartialOrd, Ord, Hash, Structural)]
pub struct ComponentId(pub usize);

/// The set of component kinds attached to one entity, as a duplicate-free
/// list of store handles.
#[derive(Clone, Debug)]
pub struct EntytyArcheType {
    pub components: Vec<ComponentId>,
}

impl EntytyArcheType {
    pub fn create_empty() -> (r: EntytyArcheType)
        ensures
            r.components@ == Seq::<ComponentId>::empty(),
    {
        EntytyArcheType { components: Vec::new() }
    }

    pub fn create_archetype(values: &[ComponentId]) -> (r: EntytyArcheType)
        ensures
            r.components@ == values@,
    {
        let mut vec: Vec<ComponentId> = Vec::new();
        let mut i: usize = 0;
        while i < values.len()
            invariant
                0 <= i <= values@.len(),
                vec@ == values@.take(i as int),
            decreases values@.len() - i,
        {
            vec.push(values[i]);
            proof {
                assert(values@.take(i + 1) =~= values@.take(i as int).push(values@[i as int]));
            }
            i = i + 1;
        }
        proof {
            assert(values@.take(values@.len() as int) =~= values@);
        }
        EntytyArcheType { components: vec }
    }

    /// Every component of `archetype_ref` is present in `self`.
    pub open spec fn spec_includes(self, archetype_ref: EntytyArcheType) -> bool {
        forall|i: int|
            0 <= i < archetype_ref.components@.len() ==> self.components@.contains(
                #[trigger] archetype_ref.components@[i],
            )
    }

    pub fn is_archetype_include(&self, archetype_ref: &EntytyArcheType) -> (r: bool)
        ensures
            r == self.spec_includes(*archetype_ref),
    {
        let mut i: usize = 0;
        while i < archetype_ref.components.len()
            invariant
                0 <= i <= archetype_ref.components@.len(),
                forall|k: int|
                    0 <= k < i ==> self.components@.contains(
                        #[trigger] archetype_ref.components@[k],
                    ),
            decreases archetype_ref.components@.len() - i,
        {
            if !self.is_component_include(archetype_ref.components[i]) {
                return false;
            }
            i = i + 1;
        }
        true
    }

    pub fn is_component_include(&self, ref_id: ComponentId) -> (r: bool)
        ensures
            r == self.components@.contains(ref_id),
    {
        let mut i: usize = 0;
        while i < self.components.len()
            invariant
                0 <= i <= self.components@.len(),
                forall|k: int| 0 <= k < i ==> self.components@[k] != ref_id,
            decreases self.components@.len() - i,
        {
            if self.components[i] == ref_id {
                return true;
            }
            i = i + 1;
        }
        false
    }
}

#[derive(Clone)]
pub struct Entity {
    pub id: EntityId,
    pub archetype: EntytyArcheType,
}

/// Entity slot allocation and reuse: a dense array of optional entities,
/// indexed by the integer value of the `EntityId`.
pub struct EntityManager {
    pub entities: Vec<Option<Entity>>,
}

impl EntityManager {
    /// Every stored entity carries the index of its own slot.
    pub open spec fn wf(self) -> bool {
        forall|i: int|
            0 <= i < self.entities@.len() && (#[trigger] self.entities@[i]) is Some
                ==> self.entities@[i].unwrap().id.0 == i
    }

    pub open spec fn spec_live(self, id: EntityId) -> bool {
        id.0 < self.entities@.len() && self.entities@[id.0 as int] is Some
    }

    /// Reuses the lowest destroyed slot if one exists, else appends; the new
    /// entity starts with an empty archetype.
    pub fn instantiate_entity(&mut self) -> (r: EntityId)
        requires
            old(self).wf(),
            old(self).entities@.len() < usize::MAX,
        ensures
            final(self).wf(),
            r.0 < final(self).entities@.len(),
            final(self).entities@[r.0 as int] is Some,
            final(self).entities@[r.0 as int].unwrap().id == r,
            final(self).entities@[r.0 as int].unwrap().archetype.components@.len() == 0,
            forall|k: int|
                0 <= k < old(self).entities@.len() && k != r.0 ==> final(self).entities@[k] == old(self).entities@[k],
            (if exists|j: int| 0 <= j < old(self).entities@.len() && old(self).entities@[j] is None {
                &&& r.0 < old(self).entities@.len()
                &&& old(self).entities@[r.0 as int] is None
                &&& (forall|k: int| 0 <= k < r.0 ==> (#[trigger] old(self).entities@[k]) is Some)
                &&& final(self).entities@.len() == old(self).entities@.len()
            } else {
                &&& r.0 == old(self).entities@.len()
                &&& final(self).entities@.len() == old(self).entities@.len() + 1
            }),
    {
        let n = self.entities.len();
        let mut index: usize = 0;
        while index < n
            invariant
                old(self).wf(),
                *old(self) == *self,
                n == self.entities@.len(),
                0 <= index <= n,
                forall|k: int| 0 <= k < index ==> (#[trigger] self.entities@[k]) is Some,
            decreases n - index,
        {
            if self.entities[index].is_none() {
                self.entities[index] = Some(
                    Entity { id: EntityId(index), archetype: EntytyArcheType::create_empty() },
                );
                proof {
                    assert forall|k: int|
                        0 <= k < self.entities@.len() && (#[trigger] self.entities@[k]) is Some
                        implies self.entities@[k].unwrap().id.0 == k by {
                        if k != index {
                            assert(self.entities@[k] == old(self).entities@[k]);
                        }
                    }
                }
                return EntityId(index);
            }
            index = index + 1;
        }
        let entity_id = self.entities.len();
        self.entities.push(
            Some(Entity { id: EntityId(entity_id), archetype: EntytyArcheType::create_empty() }),
        );
        proof {
            assert forall|k: int|
                0 <= k < self.entities@.len() && (#[trigger] self.entities@[k]) is Some
                implies self.entities@[k].unwrap().id.0 == k by {
                if k != entity_id {
                    assert(self.entities@[k] == old(self).entities@[k]);
                }
            }
        }
        EntityId(entity_id)
    }

    pub fn get_mut(&mut self, id: &EntityId) -> (r: Option<&mut Entity>)
        requires
            id.0 < old(self).entities@.len(),
        ensures
            r is None ==> old(self).entities@[id.0 as int] is None && final(self).entities@ == old(self).entities@,
            r is Some ==> old(self).entities@[id.0 as int] == Some(*r.unwrap()) && final(self).entities@ == old(self).entities@.update(id.0 as int, Some(*final(r.unwrap()))),
    {
        let slot = &mut self.entities[id.0];
        slot.as_mut()
    }

    /// Live entities whose archetype is a superset of `ref_archetype`,
    /// in ascending slot order.
    pub fn get_entities_from_archetype(&self, ref_archetype: &EntytyArcheType) -> (r: Vec<EntityId>)
        requires
            self.wf(),
        ensures
            forall|a: int, b: int| 0 <= a < b < r@.len() ==> r@[a].0 < r@[b].0,
            forall|j: int|
                0 <= j < r@.len() ==> {
                    &&& (#[trigger] r@[j]).0 < self.entities@.len()
                    &&& self.entities@[r@[j].0 as int] is Some
                    &&& self.entities@[r@[j].0 as int].unwrap().archetype.spec_includes(
                        *ref_archetype,
                    )
                },
            forall|i: int|
                0 <= i < self.entities@.len() && (#[trigger] self.entities@[i]) is Some
                    && self.entities@[i].unwrap().archetype.spec_includes(*ref_archetype)
                    ==> r@.contains(EntityId(i as usize)),
    {
        let mut entities: Vec<EntityId> = Vec::new();
        let mut i: usize = 0;
        while i < self.entities.len()
            invariant
                self.wf(),
                0 <= i <= self.entities@.len(),
                forall|a: int, b: int| 0 <= a < b < entities@.len() ==> entities@[a].0
                    < entities@[b].0,
                forall|j: int|
                    0 <= j < entities@.len() ==> {
                        &&& (#[trigger] entities@[j]).0 < i
                        &&& self.entities@[entities@[j].0 as int] is Some
                        &&& self.entities@[entities@[j].0 as int].unwrap().archetype.spec_includes(
                            *ref_archetype,
                        )
                    },
                forall|k: int|
                    0 <= k < i && (#[trigger] self.entities@[k]) is Some
                        && self.entities@[k].unwrap().archetype.spec_includes(*ref_archetype)
                        ==> entities@.contains(EntityId(k as usize)),
            decreases self.entities@.len() - i,
        {
            let ghost pre = entities@;
            match &self.entities[i] {
                Some(value) => {
                    if value.archetype.is_archetype_include(ref_archetype) {
                        entities.push(value.id);
                        proof {
                            assert(self.entities@[i as int].unwrap().id.0 == i);
                            assert(entities@[pre.len() as int] == EntityId(i as usize));
                        }
                    }
                },
                None => {},
            }
            proof {
                assert forall|k: int|
                    0 <= k < i + 1 && (#[trigger] self.entities@[k]) is Some
                        && self.entities@[k].unwrap().archetype.spec_includes(*ref_archetype)
                        implies entities@.contains(EntityId(k as usize)) by {
                    if k < i {
                        let w = choose|w: int| 0 <= w < pre.len() && pre[w] == EntityId(k as usize);
                        assert(entities@[w] == EntityId(k as usize));
                    } else {
                        assert(entities@[entities@.len() - 1] == EntityId(i as usize));
                    }
                }
            }
            i = i + 1;
        }
        entities
    }

    pub fn len(&self) -> (r: usize)
        ensures
            r == self.entities@.len(),
    {
        self.entities.len()
    }

    /// Number of live entities.
    pub fn alive_entities_len(&self) -> (r: usize)
        ensures
            r == count_live(self.entities@),
    {
        let mut count: usize = 0;
        let mut i: usize = 0;
        while i < self.entities.len()
            invariant
                0 <= i <= self.entities@.len(),
                count == count_live(self.entities@.take(i as int)),
                count <= i,
            decreases self.entities@.len() - i,
        {
            proof {
                assert(self.entities@.take(i + 1).drop_last() =~= self.entities@.take(i as int));
                assert(self.entities@.take(i + 1).last() == self.entities@[i as int]);
            }
            if self.entities[i].is_some() {
                count = count + 1;
            }
            i = i + 1;
        }
        proof {
            assert(self.entities@.take(self.entities@.len() as int) =~= self.entities@);
        }
        count
    }

    /// The ids of every live entity, in ascending slot order, or `None`
    /// when no entity is live.
    pub fn get_alive_entities(&self) -> (r: Option<Vec<EntityId>>)
        requires
            self.wf(),
        ensures
            match r {
                Some(v) => {
                    &&& v@.len() > 0
                    &&& forall|a: int, b: int| 0 <= a < b < v@.len() ==> v@[a].0 < v@[b].0
                    &&& forall|j: int|
                        0 <= j < v@.len() ==> (#[trigger] v@[j]).0 < self.entities@.len()
                            && self.entities@[v@[j].0 as int] is Some
                    &&& forall|i: int|
                        0 <= i < self.entities@.len() && (#[trigger] self.entities@[i]) is Some
                            ==> v@.contains(EntityId(i as usize))
                },
                None => forall|i: int|
                    0 <= i < self.entities@.len() ==> (#[trigger] self.entities@[i]) is None,
            },
    {
        let mut entities: Vec<EntityId> = Vec::new();
        let mut i: usize = 0;
        while i < self.entities.len()
            invariant
                self.wf(),
                0 <= i <= self.entities@.len(),
                forall|a: int, b: int| 0 <= a < b < entities@.len() ==> entities@[a].0
                    < entities@[b].0,
                forall|j: int|
                    0 <= j < entities@.len() ==> (#[trigger] entities@[j]).0 < i
                        && self.entities@[entities@[j].0 as int] is Some,
                forall|k: int|
                    0 <= k < i && (#[trigger] self.entities@[k]) is Some ==> entities@.contains(
                        EntityId(k as usize),
                    ),
            decreases self.entities@.len() - i,
        {
            let ghost pre = entities@;
            match &self.entities[i] {
                Some(value) => {
                    entities.push(value.id);
                    proof {
                        assert(self.entities@[i as int].unwrap().id.0 == i);
                        assert(entities@[pre.len() as int] == EntityId(i as usize));
                    }
                },
                None => {},
            }
            proof {
                assert forall|k: int|
                    0 <= k < i + 1 && (#[trigger] self.entities@[k]) is Some implies entities@.contains(
                    EntityId(k as usize),
                ) by {
                    if k < i {
                        let w = choose|w: int| 0 <= w < pre.len() && pre[w] == EntityId(k as usize);
                        assert(entities@[w] == EntityId(k as usize));
                    } else {
                        assert(entities@[entities@.len() - 1] == EntityId(i as usize));
                    }
                }
            }
            i = i + 1;
        }
        if entities.len() > 0 {
            Some(entities)
        } else {
            proof {
                assert forall|i2: int| 0 <= i2 < self.entities@.len() implies (
                #[trigger] self.entities@[i2]) is None by {
                    if self.entities@[i2] is Some {
                        assert(entities@.contains(EntityId(i2 as usize)));
                    }
                }
            }
            None
        }
    }

    /// Whether the entity is live and its archetype lists `comp_id`.
    pub fn has_component(&self, entity_id: &EntityId, comp_id: &ComponentId) -> (r: bool)
        requires
            entity_id.0 < self.entities@.len(),
        ensures
            r == (self.entities@[entity_id.0 as int] is Some
                && self.entities@[entity_id.0 as int].unwrap().archetype.components@.contains(
                *comp_id,
            )),
    {
        let entity = &self.entities[entity_id.0];
        match entity {
            Some(e) => e.archetype.is_component_include(*comp_id),
            None => false,
        }
    }

    /// Marks the slot destroyed; the caller must already have stripped every
    /// component value through the world-level teardown.
    pub(crate) fn remove(&mut self, entity_id: &EntityId)
        requires
            entity_id.0 < old(self).entities@.len(),
        ensures
            final(self).entities@ == old(self).entities@.update(entity_id.0 as int, None),
    {
        self.entities[entity_id.0] = None;
    }
}

/// Number of `Some` slots in an entity list.
pub open spec fn count_live(s: Seq<Option<Entity>>) -> int
    decreases s.len(),
{
    if s.len() == 0 {
        0
    } else {
        count_live(s.drop_last()) + if s.last() is Some {
            1int
        } else {
            0int
        }
    }
}

pub struct CompItem<T> {
    pub id: EntityId,
    pub item: Option<T>,
}

/// Generic sparse/dense component store: an append-only dense array of
/// `(owner, optional value)` pairs plus a map from the owner's id to the
/// dense index, kept in exact correspondence.
pub struct Component<T> {
    pub id: ComponentId,
    pub id_index_map: Vec<Option<usize>>,
    pub items: Vec<CompItem<T>>,
}

impl<T> Component<T> {
    pub open spec fn spec_registered(self, id: EntityId) -> bool {
        id.0 < self.id_index_map@.len() && self.id_index_map@[id.0 as int] is Some
    }

    pub open spec fn spec_index_of(self, id: EntityId) -> int {
        self.id_index_map@[id.0 as int].unwrap() as int
    }

    /// The stored value slot for `id`: `None` when unregistered, otherwise
    /// the (possibly taken) item of the owning dense entry.
    pub open spec fn spec_get(self, id: EntityId) -> Option<T> {
        if self.spec_registered(id) {
            self.items@[self.spec_index_of(id)].item
        } else {
            None
        }
    }

    /// The index-map invariant: `id_index_map[id] == i` exactly when
    /// `items[i].id == id`.
    pub open spec fn wf(self) -> bool {
        &&& forall|e: int|
            0 <= e < self.id_index_map@.len() && (#[trigger] self.id_index_map@[e]) is Some ==> {
                &&& (self.id_index_map@[e].unwrap() as int) < self.items@.len()
                &&& self.items@[self.id_index_map@[e].unwrap() as int].id.0 == e
            }
        &&& forall|i: int|
            0 <= i < self.items@.len() ==> {
                &&& (#[trigger] self.items@[i]).id.0 < self.id_index_map@.len()
                &&& self.id_index_map@[self.items@[i].id.0 as int] == Some(i as usize)
            }
    }

    /// Store consistency for one entity: the archetype lists this store
    /// exactly when the store holds a live value for the entity.
    pub open spec fn spec_synced(self, e: Entity) -> bool {
        e.archetype.components@.contains(self.id) <==> (self.spec_registered(e.id)
            && self.spec_get(e.id) is Some)
    }

    pub fn get(&self, entity_id: &EntityId) -> (r: Option<&T>)
        requires
            self.wf(),
        ensures
            match r {
                Some(v) => self.spec_get(*entity_id) == Some(*v),
                None => self.spec_get(*entity_id) is None,
            },
    {
        if entity_id.0 >= self.id_index_map.len() {
            return None;
        }
        match self.id_index_map[entity_id.0] {
            Some(i) => self.items[i].item.as_ref(),
            None => None,
        }
    }

    pub fn get_mut(&mut self, entity_id: &EntityId) -> (r: Option<&mut T>)
        requires
            old(self).wf(),
        ensures
            final(self).wf(),
            final(self).id == old(self).id,
            final(self).id_index_map@ == old(self).id_index_map@,
            r is None ==> final(self).items@ == old(self).items@ && old(self).spec_get(*entity_id)
                is None,
            r is Some ==> {
                &&& old(self).spec_registered(*entity_id)
                &&& old(self).spec_get(*entity_id) == Some(*r.unwrap())
                &&& final(self).items@ == old(self).items@.update(
                    old(self).spec_index_of(*entity_id),
                    CompItem { id: *entity_id, item: Some(*final(r.unwrap())) },
                )
            },
    {
        if entity_id.0 >= self.id_index_map.len() {
            return None;
        }
        match self.id_index_map[entity_id.0] {
            Some(i) => {
                proof {
                    assert(old(self).items@[i as int].id == *entity_id);
                }
                self.items[i].item.as_mut()
            },
            None => None,
        }
    }

    /// Presence is caller-guaranteed.
    pub fn get_unchecked(&self, entity_id: &EntityId) -> (r: &T)
        requires
            self.wf(),
            self.spec_get(*entity_id) is Some,
        ensures
            self.spec_get(*entity_id) == Some(*r),
    {
        let i = self.id_index_map[entity_id.0].unwrap();
        self.items[i].item.as_ref().unwrap()
    }

    /// Presence is caller-guaranteed.
    pub fn get_unchecked_mut(&mut self, entity_id: &EntityId) -> (r: &mut T)
        requires
            old(self).wf(),
            old(self).spec_get(*entity_id) is Some,
        ensures
            final(self).wf(),
            final(self).id == old(self).id,
            final(self).id_index_map@ == old(self).id_index_map@,
            old(self).spec_get(*entity_id) == Some(*r),
            final(self).items@ == old(self).items@.update(
                old(self).spec_index_of(*entity_id),
                CompItem { id: *entity_id, item: Some(*final(r)) },
            ),
    {
        let i = self.id_index_map[entity_id.0].unwrap();
        proof {
            assert(old(self).items@[i as int].id == *entity_id);
        }
        self.items[i].item.as_mut().unwrap()
    }

    /// Removes the value but keeps the dense slot reserved.
    pub fn take(&mut self, entity_id: &EntityId) -> (r: Option<T>)
        requires
            old(self).wf(),
        ensures
            final(self).wf(),
            final(self).id == old(self).id,
            final(self).id_index_map@ == old(self).id_index_map@,
            r == old(self).spec_get(*entity_id),
            if old(self).spec_registered(*entity_id) {
                final(self).items@ == old(self).items@.update(
                    old(self).spec_index_of(*entity_id),
                    CompItem { id: *entity_id, item: None },
                )
            } else {
                final(self).items@ == old(self).items@
            },
            forall|id2: EntityId| id2 != *entity_id ==> final(self).spec_get(id2) == old(self).spec_get(id2),
            forall|id2: EntityId| final(self).spec_registered(id2) == old(self).spec_registered(
                id2,
            ),
    {
        if entity_id.0 >= self.id_index_map.len() {
            return None;
        }
        match self.id_index_map[entity_id.0] {
            Some(i) => {
                proof {
                    assert(old(self).items@[i as int].id == *entity_id);
                }
                let item = self.items[i].item.take();
                proof {
                    assert(self.items@ =~= old(self).items@.update(
                        i as int,
                        CompItem { id: *entity_id, item: None },
                    ));
                    assert forall|id2: EntityId| id2 != *entity_id implies self.spec_get(id2)
                        == old(self).spec_get(id2) by {
                        if old(self).spec_registered(id2) {
                            assert(old(self).items@[old(self).spec_index_of(id2)].id == id2);
                        }
                    }
                }
                item
            },
            None => None,
        }
    }

    /// Presence is caller-guaranteed.
    pub fn take_unchecked(&mut self, entity_id: &EntityId) -> (r: T)
        requires
            old(self).wf(),
            old(self).spec_get(*entity_id) is Some,
        ensures
            final(self).wf(),
            final(self).id == old(self).id,
            final(self).id_index_map@ == old(self).id_index_map@,
            Some(r) == old(self).spec_get(*entity_id),
            final(self).items@ == old(self).items@.update(
                old(self).spec_index_of(*entity_id),
                CompItem { id: *entity_id, item: None },
            ),
            forall|id2: EntityId| id2 != *entity_id ==> final(self).spec_get(id2) == old(self).spec_get(id2),
            forall|id2: EntityId| final(self).spec_registered(id2) == old(self).spec_registered(
                id2,
            ),
    {
        let i = self.id_index_map[entity_id.0].unwrap();
        proof {
            assert(old(self).items@[i as int].id == *entity_id);
        }
        let item = self.items[i].item.take().unwrap();
        proof {
            assert(self.items@ =~= old(self).items@.update(
                i as int,
                CompItem { id: *entity_id, item: None },
            ));
            assert forall|id2: EntityId| id2 != *entity_id implies self.spec_get(id2) == old(self).spec_get(id2) by {
                if old(self).spec_registered(id2) {
                    assert(old(self).items@[old(self).spec_index_of(id2)].id == id2);
                }
            }
        }
        item
    }

    pub fn get_from_index(&self, index: usize) -> (r: Option<&T>)
        ensures
            match r {
                Some(v) => index < self.items@.len() && self.items@[index as int].item == Some(*v),
                None => index >= self.items@.len() || self.items@[index as int].item is None,
            },
    {
        if self.items.len() <= index {
            return None;
        }
        self.items[index].item.as_ref()
    }

    pub fn get_mut_from_index(&mut self, index: usize) -> (r: Option<&mut T>)
        ensures
            final(self).id == old(self).id,
            final(self).id_index_map@ == old(self).id_index_map@,
            r is None ==> final(self).items@ == old(self).items@ && (index >= old(self).items@.len() || old(self).items@[index as int].item is None),
            r is Some ==> {
                &&& index < old(self).items@.len()
                &&& old(self).items@[index as int].item == Some(*r.unwrap())
                &&& final(self).items@ == old(self).items@.update(
                    index as int,
                    CompItem {
                        id: old(self).items@[index as int].id,
                        item: Some(*final(r.unwrap())),
                    },
                )
            },
    {
        if self.items.len() <= index {
            return None;
        }
        self.items[index].item.as_mut()
    }

    /// Overwrites the value slot of an already registered entity.
    pub fn set(&mut self, entity_id: &EntityId, value: Option<T>)
        requires
            old(self).wf(),
            old(self).spec_registered(*entity_id),
        ensures
            final(self).wf(),
            final(self).id == old(self).id,
            final(self).id_index_map@ == old(self).id_index_map@,
            final(self).items@ == old(self).items@.update(
                old(self).spec_index_of(*entity_id),
                CompItem { id: *entity_id, item: value },
            ),
            final(self).spec_get(*entity_id) == value,
            forall|id2: EntityId| id2 != *entity_id ==> final(self).spec_get(id2) == old(self).spec_get(id2),
            forall|id2: EntityId| final(self).spec_registered(id2) == old(self).spec_registered(
                id2,
            ),
    {
        let i = self.id_index_map[entity_id.0].unwrap();
        proof {
            assert(old(self).items@[i as int].id == *entity_id);
        }
        self.items[i] = CompItem { id: EntityId(entity_id.0), item: value };
        proof {
            assert forall|id2: EntityId| id2 != *entity_id implies self.spec_get(id2) == old(self).spec_get(id2) by {
                if old(self).spec_registered(id2) {
                    assert(old(self).items@[old(self).spec_index_of(id2)].id == id2);
                }
            }
        }
    }

    fn push_with_item(&mut self, entity_id: EntityId, item: T) -> (r: usize)
        requires
            old(self).items@.len() < usize::MAX,
        ensures
            r == old(self).items@.len(),
            final(self).items@ == old(self).items@.push(
                CompItem { id: entity_id, item: Some(item) },
            ),
            final(self).id == old(self).id,
            final(self).id_index_map@ == old(self).id_index_map@,
    {
        self.items.push(CompItem { id: entity_id, item: Some(item) });
        self.items.len() - 1
    }

    fn push_default(&mut self, entity_id: EntityId) -> (r: usize) where T: Default
        requires
            old(self).items@.len() < usize::MAX,
        ensures
            r == old(self).items@.len(),
            final(self).items@.len() == old(self).items@.len() + 1,
            final(self).items@ == old(self).items@.push(final(self).items@.last()),
            final(self).items@.last().id == entity_id,
            final(self).items@.last().item is Some,
            final(self).id == old(self).id,
            final(self).id_index_map@ == old(self).id_index_map@,
    {
        self.items.push(CompItem { id: entity_id, item: Some(T::default()) });
        self.items.len() - 1
    }

    /// Attaches a value to an entity that must not already hold one, and
    /// pushes this store's id into the entity's archetype.
    pub fn register(&mut self, entity: &mut Entity, item: T)
        requires
            old(self).wf(),
            !old(self).spec_registered(old(entity).id),
            old(entity).id.0 < usize::MAX,
            old(self).items@.len() < usize::MAX,
            old(entity).archetype.components@.len() < usize::MAX,
        ensures
            final(self).wf(),
            final(self).id == old(self).id,
            final(self).items@ == old(self).items@.push(
                CompItem { id: old(entity).id, item: Some(item) },
            ),
            final(self).spec_registered(old(entity).id),
            final(self).spec_get(old(entity).id) == Some(item),
            forall|id2: EntityId| id2 != old(entity).id ==> final(self).spec_registered(id2) == old(self).spec_registered(id2),
            forall|id2: EntityId| id2 != old(entity).id ==> final(self).spec_get(id2) == old(self).spec_get(id2),
            final(entity).id == old(entity).id,
            final(entity).archetype.components@ == old(entity).archetype.components@.push(
                old(self).id,
            ),
            final(self).spec_synced(*final(entity)),
            forall|e2: Entity|
                #[trigger] old(self).spec_synced(e2) && e2.id != old(entity).id ==> final(self).spec_synced(e2),
    {
        let index = self.push_with_item(entity.id, item);
        self.map_insert(entity.id, index);
        entity.archetype.components.push(self.id);
        proof {
            assert(entity.archetype.components@.last() == old(self).id);
            assert(entity.archetype.components@.contains(old(self).id));
            assert forall|id2: EntityId| id2 != old(entity).id implies self.spec_get(id2) == old(self).spec_get(id2) by {
                if old(self).spec_registered(id2) {
                    assert(old(self).items@[old(self).spec_index_of(id2)].id == id2);
                    assert(self.items@[self.spec_index_of(id2)] == old(self).items@[old(self).spec_index_of(id2)]);
                }
            }
        }
    }

    /// Attaches the type's default value; otherwise as `register`.
    pub fn register_default(&mut self, entity: &mut Entity) where T: Default
        requires
            old(self).wf(),
            !old(self).spec_registered(old(entity).id),
            old(entity).id.0 < usize::MAX,
            old(self).items@.len() < usize::MAX,
            old(entity).archetype.components@.len() < usize::MAX,
        ensures
            final(self).wf(),
            final(self).id == old(self).id,
            final(self).items@.len() == old(self).items@.len() + 1,
            final(self).items@ == old(self).items@.push(final(self).items@.last()),
            final(self).items@.last().id == old(entity).id,
            final(self).spec_registered(old(entity).id),
            final(self).spec_get(old(entity).id) is Some,
            forall|id2: EntityId| id2 != old(entity).id ==> final(self).spec_registered(id2) == old(self).spec_registered(id2),
            forall|id2: EntityId| id2 != old(entity).id ==> final(self).spec_get(id2) == old(self).spec_get(id2),
            final(entity).id == old(entity).id,
            final(entity).archetype.components@ == old(entity).archetype.components@.push(
                old(self).id,
            ),
            final(self).spec_synced(*final(entity)),
            forall|e2: Entity|
                #[trigger] old(self).spec_synced(e2) && e2.id != old(entity).id ==> final(self).spec_synced(e2),
    {
        let index = self.push_default(entity.id);
        self.map_insert(entity.id, index);
        entity.archetype.components.push(self.id);
        proof {
            assert(entity.archetype.components@.last() == old(self).id);
            assert(entity.archetype.components@.contains(old(self).id));
            assert forall|id2: EntityId| id2 != old(entity).id implies self.spec_get(id2) == old(self).spec_get(id2) by {
                if old(self).spec_registered(id2) {
                    assert(old(self).items@[old(self).spec_index_of(id2)].id == id2);
                    assert(self.items@[self.spec_index_of(id2)] == old(self).items@[old(self).spec_index_of(id2)]);
                }
            }
        }
    }

    /// Grows the index map as needed and points `id` at the dense index of
    /// the just-pushed last item.
    fn map_insert(&mut self, id: EntityId, index: usize)
        requires
            !old(self).spec_registered(id),
            id.0 < usize::MAX,
            old(self).items@.len() >= 1,
            index == old(self).items@.len() - 1,
            old(self).items@.last().id == id,
            forall|e: int|
                0 <= e < old(self).id_index_map@.len() && (#[trigger] old(self).id_index_map@[e])
                    is Some ==> {
                    &&& (old(self).id_index_map@[e].unwrap() as int) < old(self).items@.len() - 1
                    &&& old(self).items@[old(self).id_index_map@[e].unwrap() as int].id.0 == e
                },
            forall|i: int|
                0 <= i < old(self).items@.len() - 1 ==> {
                    &&& (#[trigger] old(self).items@[i]).id.0 < old(self).id_index_map@.len()
                    &&& old(self).id_index_map@[old(self).items@[i].id.0 as int] == Some(i as usize)
                },
        ensures
            final(self).wf(),
            final(self).id == old(self).id,
            final(self).items@ == old(self).items@,
            final(self).spec_registered(id),
            final(self).spec_index_of(id) == index,
            forall|id2: EntityId| id2 != id ==> final(self).spec_registered(id2) == old(self).spec_registered(id2),
            forall|id2: EntityId| id2 != id && old(self).spec_registered(id2) ==> final(self).spec_index_of(id2) == old(self).spec_index_of(id2),
    {
        let ghost old_len = self.id_index_map@.len();
        proof {
            assert(self.id_index_map@.take(old_len as int) =~= old(self).id_index_map@);
        }
        while self.id_index_map.len() <= id.0
            invariant
                old_len == old(self).id_index_map@.len(),
                old_len <= self.id_index_map@.len(),
                self.id_index_map@.len() > old_len ==> self.id_index_map@.len() <= id.0 + 1,
                self.id_index_map@.take(old_len as int) == old(self).id_index_map@,
                forall|k: int|
                    old_len <= k < self.id_index_map@.len() ==> (#[trigger] self.id_index_map@[k])
                        is None,
                self.items@ == old(self).items@,
                self.id == old(self).id,
            decreases id.0 - self.id_index_map@.len() + 1,
        {
            self.id_index_map.push(None);
            proof {
                assert(self.id_index_map@.take(old_len as int) =~= old(self).id_index_map@);
            }
        }
        proof {
            assert forall|e: int| 0 <= e < old_len implies self.id_index_map@[e] == old(self).id_index_map@[e] by {
                assert(old(self).id_index_map@[e] == self.id_index_map@.take(old_len as int)[e]);
            }
        }
        self.id_index_map[id.0] = Some(index);
        proof {
            assert forall|e: int|
                0 <= e < self.id_index_map@.len() && (#[trigger] self.id_index_map@[e]) is Some
                implies {
                &&& (self.id_index_map@[e].unwrap() as int) < self.items@.len()
                &&& self.items@[self.id_index_map@[e].unwrap() as int].id.0 == e
            } by {
                if e == id.0 {
                    assert(self.items@[index as int].id.0 == id.0);
                } else {
                    assert(e < old_len);
                    assert(old(self).id_index_map@[e] is Some);
                }
            }
            assert forall|i: int| 0 <= i < self.items@.len() implies {
                &&& (#[trigger] self.items@[i]).id.0 < self.id_index_map@.len()
                &&& self.id_index_map@[self.items@[i].id.0 as int] == Some(i as usize)
            } by {
                if i == self.items@.len() - 1 {
                    assert(self.items@[i].id == id);
                } else {
                    assert(old(self).items@[i].id.0 < old_len);
                    assert(old(self).id_index_map@[old(self).items@[i].id.0 as int] == Some(
                        i as usize,
                    ));
                    assert(old(self).items@[i].id.0 != id.0) by {
                        if old(self).items@[i].id.0 == id.0 {
                            assert(old(self).spec_registered(id));
                        }
                    }
                }
            }
        }
    }

    /// Deletes the value, removes this store's id from the entity's
    /// archetype, and re-points every dense index greater than the removed
    /// one down by one.
    pub fn remove(&mut self, entity: &mut Entity)
        requires
            old(self).wf(),
        ensures
            final(self).wf(),
            final(self).id == old(self).id,
            final(entity).id == old(entity).id,
            if old(self).spec_registered(old(entity).id) {
                &&& final(self).items@ == old(self).items@.remove(
                    old(self).spec_index_of(old(entity).id),
                )
                &&& !final(self).spec_registered(old(entity).id)
                &&& final(entity).archetype.components@ == old(entity).archetype.components@.remove_value(old(self).id)
            } else {
                &&& final(self).items@ == old(self).items@
                &&& final(self).id_index_map@ == old(self).id_index_map@
                &&& final(entity).archetype.components@ == old(entity).archetype.components@
            },
            forall|id2: EntityId| id2 != old(entity).id ==> final(self).spec_registered(id2) == old(self).spec_registered(id2),
            forall|id2: EntityId| id2 != old(entity).id ==> final(self).spec_get(id2) == old(self).spec_get(id2),
            (old(self).spec_synced(*old(entity)) && old(entity).archetype.components@.no_duplicates())
                ==> final(self).spec_synced(*final(entity)),
            // store consistency after the removal, for a duplicate-free
            // archetype that was in step before it
            (old(self).spec_synced(*old(entity)) && old(entity).archetype.components@.no_duplicates())
                ==> (final(entity).archetype.components@.contains(final(self).id) <==> final(self).spec_get(final(entity).id) is Some),
            forall|e2: Entity|
                #[trigger] old(self).spec_synced(e2) && e2.id != old(entity).id ==> final(self).spec_synced(e2),
    {
        if entity.id.0 >= self.id_index_map.len() {
            return;
        }
        let index_opt = self.id_index_map[entity.id.0];
        if let Some(index) = index_opt {
            let n_items = self.items.len();
            proof {
                assert(old(self).items@[index as int].id == old(entity).id);
                assert(old(self).items@.len() == n_items);
            }
            self.items.remove(index);
            self.id_index_map[entity.id.0] = None;
            let ghost mid_map = self.id_index_map@;
            let mut e: usize = 0;
            while e < self.id_index_map.len()
                invariant
                    0 <= e <= self.id_index_map@.len(),
                    self.id_index_map@.len() == mid_map.len(),
                    self.items@ == old(self).items@.remove(index as int),
                    self.id == old(self).id,
                    index < old(self).items@.len(),
                    mid_map == old(self).id_index_map@.update(old(entity).id.0 as int, None),
                    old(self).wf(),
                    old(self).id_index_map@[old(entity).id.0 as int] == Some(index),
                    old(self).items@[index as int].id == old(entity).id,
                    forall|k: int|
                        e <= k < mid_map.len() ==> #[trigger] self.id_index_map@[k] == mid_map[k],
                    forall|k: int|
                        0 <= k < e ==> #[trigger] self.id_index_map@[k] == (match mid_map[k] {
                            Some(j) => if j > index {
                                Some((j - 1) as usize)
                            } else {
                                Some(j)
                            },
                            None => None,
                        }),
                decreases self.id_index_map@.len() - e,
            {
                match self.id_index_map[e] {
                    Some(j) => {
                        if j > index {
                            self.id_index_map[e] = Some(j - 1);
                        }
                    },
                    None => {},
                }
                e = e + 1;
            }
            // strip this store from the entity's archetype
            let ghost arch0 = entity.archetype.components@;
            let mut a: usize = 0;
            let mut removed = false;
            while !removed && a < entity.archetype.components.len()
                invariant
                    self.id == old(self).id,
                    entity.id == old(entity).id,
                    0 <= a,
                    !removed ==> a <= arch0.len() && entity.archetype.components@ == arch0 && (
                    forall|k: int| 0 <= k < a ==> arch0[k] != old(self).id),
                    removed ==> entity.archetype.components@ == arch0.remove_value(old(self).id),
                decreases arch0.len() - a + (if removed {
                    0int
                } else {
                    1int
                }),
            {
                if entity.archetype.components[a] == self.id {
                    entity.archetype.components.remove(a);
                    removed = true;
                    proof {
                        arch0.index_of_first_ensures(old(self).id);
                        assert(arch0.index_of_first(old(self).id) == Some(a as int));
                        assert(entity.archetype.components@ =~= arch0.remove_value(old(self).id));
                    }
                } else {
                    a = a + 1;
                }
            }
            proof {
                if !removed {
                    assert(!arch0.contains(old(self).id));
                    arch0.index_of_first_ensures(old(self).id);
                    assert(entity.archetype.components@ =~= arch0.remove_value(old(self).id));
                }
                lemma_component_remove_wf::<T>(*old(self), *self, index as int);
                assert forall|id2: EntityId| id2 != old(entity).id implies self.spec_get(id2)
                    == old(self).spec_get(id2) by {
                    if old(self).spec_registered(id2) {
                        let j = old(self).spec_index_of(id2);
                        assert(old(self).items@[j].id == id2);
                        assert(j != index);
                        if j > index {
                            assert(self.items@[j - 1] == old(self).items@[j]);
                        } else {
                            assert(self.items@[j] == old(self).items@[j]);
                        }
                    }
                }
                if old(self).spec_synced(*old(entity)) && arch0.no_duplicates() {
                    arch0.index_of_first_ensures(old(self).id);
                    if arch0.contains(old(self).id) {
                        let f = arch0.index_of_first(old(self).id).unwrap();
                        assert forall|k: int|
                            0 <= k < entity.archetype.components@.len() implies entity.archetype.components@[k]
                            != old(self).id by {
                            if k < f {
                                assert(entity.archetype.components@[k] == arch0[k]);
                            } else {
                                assert(entity.archetype.components@[k] == arch0[k + 1]);
                            }
                        }
                        assert(!entity.archetype.components@.contains(old(self).id));
                    }
                }
            }
        }
    }

    /// A fresh, empty store with the given id; the id must be supplied.
    pub fn new(id: Option<usize>) -> (r: Component<T>)
        requires
            id is Some,
        ensures
            r.id == ComponentId(id.unwrap()),
            r.id_index_map@.len() == 0,
            r.items@.len() == 0,
            r.wf(),
    {
        Component { id: ComponentId(id.unwrap()), id_index_map: Vec::new(), items: Vec::new() }
    }

    pub fn id(&self) -> (r: ComponentId)
        ensures
            r == self.id,
    {
        self.id
    }
}

/// After an ordered removal with renumbering, the index-map invariant holds
/// again.
proof fn lemma_component_remove_wf<T>(pre: Component<T>, post: Component<T>, index: int)
    requires
        pre.wf(),
        pre.items@.len() <= usize::MAX,
        0 <= index < pre.items@.len(),
        post.items@ == pre.items@.remove(index),
        post.id_index_map@.len() == pre.id_index_map@.len(),
        pre.id_index_map@[pre.items@[index].id.0 as int] == Some(index as usize),
        forall|k: int|
            0 <= k < post.id_index_map@.len() ==> #[trigger] post.id_index_map@[k] == (match (if k
                == pre.items@[index].id.0 as int {
                None
            } else {
                pre.id_index_map@[k]
            }) {
                Some(j) => if j > index {
                    Some((j - 1) as usize)
                } else {
                    Some(j)
                },
                None => None,
            }),
    ensures
        post.wf(),
{
    assert forall|e: int|
        0 <= e < post.id_index_map@.len() && (#[trigger] post.id_index_map@[e]) is Some implies {
        &&& (post.id_index_map@[e].unwrap() as int) < post.items@.len()
        &&& post.items@[post.id_index_map@[e].unwrap() as int].id.0 == e
    } by {
        assert(pre.id_index_map@[e] is Some);
        let j = pre.id_index_map@[e].unwrap() as int;
        assert(pre.items@[j].id.0 == e);
        assert(e != pre.items@[index].id.0 as int);
        assert(j != index);
        if j > index {
            assert(post.items@[j - 1] == pre.items@[j]);
        } else {
            assert(post.items@[j] == pre.items@[j]);
        }
    }
    assert forall|i: int| 0 <= i < post.items@.len() implies {
        &&& (#[trigger] post.items@[i]).id.0 < post.id_index_map@.len()
        &&& post.id_index_map@[post.items@[i].id.0 as int] == Some(i as usize)
    } by {
        if i < index {
            assert(post.items@[i] == pre.items@[i]);
            assert(pre.id_index_map@[pre.items@[i].id.0 as int] == Some(i as usize));
            assert(pre.items@[i].id.0 != pre.items@[index].id.0) by {
                if pre.items@[i].id.0 == pre.items@[index].id.0 {
                    assert(pre.id_index_map@[pre.items@[index].id.0 as int] == Some(
                        index as usize,
                    ));
                }
            }
        } else {
            assert(post.items@[i] == pre.items@[i + 1]);
            assert(pre.id_index_map@[pre.items@[i + 1].id.0 as int] == Some((i + 1) as usize));
            assert(pre.items@[i + 1].id.0 != pre.items@[index].id.0) by {
                if pre.items@[i + 1].id.0 == pre.items@[index].id.0 {
                    assert(pre.id_index_map@[pre.items@[index].id.0 as int] == Some(
                        index as usize,
                    ));
                }
            }
        }
    }
}

} // verus!
