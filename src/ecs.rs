//! The entity/module store: entities, each holding at most one module per
//! module type and optionally a `Messenger`, and the world that maps entity
//! ids to entities and routes incoming calls.
use vstd::prelude::*;
use crate::ids::{EntityId, TypeId, fresh_id};
use crate::messaging::{Messenger, RoutingError, route_spec};
use crate::packets::{ClientMessage, ClientPacket};

verus! {

/// An entity: its id, its modules keyed by module type in the order they
/// were added, and its messenger, if it has one. `M` is the type of a
/// module, `H` that of a receiver of remote calls.
pub struct Entity<M, H> {
    entity_id: EntityId,
    modules: Vec<(TypeId, M)>,
    messenger: Option<Messenger<H>>,
}

/// The module types of `modules`, in order.
pub open spec fn module_keys<M>(modules: Seq<(TypeId, M)>) -> Seq<TypeId> {
    modules.map_values(|p: (TypeId, M)| p.0)
}

impl<M, H> Entity<M, H> {
    pub closed spec fn id_spec(&self) -> EntityId {
        self.entity_id
    }

    /// The modules with their types, in the order they were added.
    pub closed spec fn modules(&self) -> Seq<(TypeId, M)> {
        self.modules@
    }

    pub closed spec fn messenger_spec(&self) -> Option<Messenger<H>> {
        self.messenger
    }

    /// At most one module per type, and a messenger, if any, that belongs to
    /// this entity.
    pub open spec fn wf(&self) -> bool {
        &&& module_keys(self.modules()).no_duplicates()
        &&& (self.messenger_spec() matches Some(m) ==> m.wf() && m.entity_id_spec() == self.id_spec())
    }

    /// An entity with no modules.
    pub fn new(entity_id: EntityId) -> (r: Entity<M, H>)
        ensures
            r.wf(),
            r.id_spec() == entity_id,
            r.modules() == Seq::<(TypeId, M)>::empty(),
            r.messenger_spec() is None,
    {
        let r = Entity { entity_id, modules: Vec::new(), messenger: None };
        assert(module_keys(r.modules()) =~= Seq::<TypeId>::empty());
        r
    }

    pub fn id(&self) -> (r: EntityId)
        ensures
            r == self.id_spec(),
    {
        self.entity_id
    }

    /// The position of the module of type `key`.
    fn position(&self, key: TypeId) -> (r: Option<usize>)
        ensures
            match r {
                Some(i) => i < self.modules().len() && self.modules()[i as int].0 == key,
                None => !module_keys(self.modules()).contains(key),
            },
    {
        let mut i: usize = 0;
        while i < self.modules.len()
            invariant
                i <= self.modules@.len(),
                forall|j: int| 0 <= j < i ==> self.modules@[j].0 != key,
            decreases self.modules@.len() - i,
        {
            if self.modules[i].0 == key {
                return Some(i);
            }
            i = i + 1;
        }
        proof {
            if module_keys(self.modules()).contains(key) {
                let j = choose|j: int| 0 <= j < module_keys(self.modules()).len() && module_keys(self.modules())[j] == key;
                assert(self.modules@[j].0 == key);
            }
        }
        None
    }

    /// Whether the entity has a module of type `key`.
    pub fn has_module(&self, key: TypeId) -> (r: bool)
        ensures
            r == module_keys(self.modules()).contains(key),
    {
        match self.position(key) {
            Some(i) => {
                assert(module_keys(self.modules())[i as int] == key);
                true
            },
            None => false,
        }
    }

    /// Adds `module` as the module of type `key`. An entity holds one module
    /// per type: if it has one of type `key` already, the call is refused,
    /// the entity is unchanged and `false` is returned.
    pub fn add_module(&mut self, key: TypeId, module: M) -> (r: bool)
        requires
            old(self).wf(),
        ensures
            final(self).wf(),
            r == !module_keys(old(self).modules()).contains(key),
            final(self).modules() == (if r {
                old(self).modules().push((key, module))
            } else {
                old(self).modules()
            }),
            final(self).id_spec() == old(self).id_spec(),
            final(self).messenger_spec() == old(self).messenger_spec(),
    {
        if self.has_module(key) {
            return false;
        }
        self.modules.push((key, module));
        proof {
            let ks = module_keys(self.modules());
            let old_ks = module_keys(old(self).modules());
            assert(ks =~= old_ks.push(key));
            assert forall|i: int, j: int| 0 <= i < j < ks.len() implies ks[i] != ks[j] by {
                if j == ks.len() - 1 {
                    assert(ks[i] == old_ks[i]);
                }
            }
        }
        true
    }

    /// The module of type `key`.
    pub fn get_module(&self, key: TypeId) -> (r: Option<&M>)
        requires
            self.wf(),
        ensures
            r is Some <==> module_keys(self.modules()).contains(key),
            r matches Some(m) ==> exists|i: int|
                0 <= i < self.modules().len() && #[trigger] self.modules()[i] == (key, *m),
    {
        match self.position(key) {
            Some(i) => {
                assert(module_keys(self.modules())[i as int] == key);
                Some(&self.modules[i].1)
            },
            None => None,
        }
    }

    /// The module of type `key`, to change it in place.
    pub fn mut_module(&mut self, key: TypeId) -> (r: Option<&mut M>)
        requires
            old(self).wf(),
        ensures
            final(self).wf(),
            final(self).id_spec() == old(self).id_spec(),
            final(self).messenger_spec() == old(self).messenger_spec(),
            match r {
                Some(m) => {
                    let j = module_keys(old(self).modules()).index_of(key);
                    &&& module_keys(old(self).modules()).contains(key)
                    &&& 0 <= j < old(self).modules().len()
                    &&& old(self).modules()[j] == (key, *m)
                    &&& final(self).modules() == old(self).modules().update(j, (key, *final(m)))
                },
                None => !module_keys(old(self).modules()).contains(key) && final(self).modules() == old(
                    self,
                ).modules(),
            },
    {
        match self.position(key) {
            Some(i) => {
                proof {
                    let ks = module_keys(self.modules@);
                    assert(ks[i as int] == key);
                    let j = ks.index_of(key);
                    assert(ks[j] == key);
                    assert forall|x: M| #[trigger] module_keys(self.modules@.update(i as int, (key, x))) == ks by {
                        assert(module_keys(self.modules@.update(i as int, (key, x))) =~= ks);
                    }
                }
                let pair = &mut self.modules[i];
                Some(&mut pair.1)
            },
            None => None,
        }
    }

    /// The module types, in the order the modules were added: the order in
    /// which their lifecycle hooks run.
    pub fn module_types(&self) -> (r: Vec<TypeId>)
        ensures
            r@ == module_keys(self.modules()),
    {
        let mut out: Vec<TypeId> = Vec::new();
        let mut i: usize = 0;
        while i < self.modules.len()
            invariant
                i <= self.modules@.len(),
                out@ == module_keys(self.modules@.take(i as int)),
            decreases self.modules@.len() - i,
        {
            out.push(self.modules[i].0);
            assert(module_keys(self.modules@.take(i + 1)) =~= module_keys(self.modules@.take(i as int)).push(
                self.modules@[i as int].0,
            ));
            i = i + 1;
        }
        assert(self.modules@.take(i as int) =~= self.modules@);
        out
    }

    /// Attaches `messenger` to this entity, which starts it. An entity holds
    /// one messenger: if it has one already, the call is refused and `false`
    /// is returned.
    pub fn add_messenger(&mut self, messenger: Messenger<H>) -> (r: bool)
        requires
            old(self).wf(),
            messenger.wf(),
        ensures
            final(self).wf(),
            r == old(self).messenger_spec() is None,
            r ==> (final(self).messenger_spec() matches Some(m) && m.entity_id_spec() == old(self).id_spec()
                && m.receivers() == messenger.receivers() && m.functions() == messenger.functions()
                && m.handle_type_spec() == messenger.handle_type_spec()),
            !r ==> final(self).messenger_spec() == old(self).messenger_spec(),
            final(self).id_spec() == old(self).id_spec(),
            final(self).modules() == old(self).modules(),
    {
        if self.messenger.is_some() {
            return false;
        }
        let mut m = messenger;
        m.start(self.entity_id);
        self.messenger = Some(m);
        true
    }

    /// The entity's messenger.
    pub fn messenger(&self) -> (r: Option<&Messenger<H>>)
        ensures
            match r {
                Some(m) => self.messenger_spec() == Some(*m),
                None => self.messenger_spec() is None,
            },
    {
        match &self.messenger {
            Some(m) => Some(m),
            None => None,
        }
    }

    /// The entity's messenger, to change it.
    pub fn messenger_mut(&mut self) -> (r: Option<&mut Messenger<H>>)
        ensures
            match r {
                Some(m) => old(self).messenger_spec() == Some(*m) && final(self).messenger_spec() == Some(
                    *final(m),
                ),
                None => old(self).messenger_spec() is None && final(self).messenger_spec() is None,
            },
            final(self).id_spec() == old(self).id_spec(),
            final(self).modules() == old(self).modules(),
    {
        match &mut self.messenger {
            Some(m) => Some(m),
            None => None,
        }
    }
}

/// The ids of `entities`, in order.
pub open spec fn entity_ids<M, H>(entities: Seq<Entity<M, H>>) -> Seq<EntityId> {
    entities.map_values(|e: Entity<M, H>| e.id_spec())
}

/// The lifecycle calls of `e`: its id with each of its module types, in the
/// order the modules were added.
pub open spec fn entity_calls<M, H>(e: Entity<M, H>) -> Seq<(EntityId, TypeId)> {
    e.modules().map_values(|p: (TypeId, M)| (e.id_spec(), p.0))
}

/// The lifecycle calls of all of `entities`, entity after entity.
pub open spec fn tick_calls<M, H>(entities: Seq<Entity<M, H>>) -> Seq<(EntityId, TypeId)>
    decreases entities.len(),
{
    if entities.len() == 0 {
        Seq::empty()
    } else {
        tick_calls(entities.drop_last()) + entity_calls(entities.last())
    }
}

/// The ids of those of `entities` that have a module of type `key`, in order.
pub open spec fn ids_with<M, H>(entities: Seq<Entity<M, H>>, key: TypeId) -> Seq<EntityId>
    decreases entities.len(),
{
    if entities.len() == 0 {
        Seq::empty()
    } else if module_keys(entities.last().modules()).contains(key) {
        ids_with(entities.drop_last(), key).push(entities.last().id_spec())
    } else {
        ids_with(entities.drop_last(), key)
    }
}

/// The ids of `entities` are unique and every entity is well formed.
pub open spec fn entities_wf<M, H>(entities: Seq<Entity<M, H>>) -> bool {
    &&& entity_ids(entities).no_duplicates()
    &&& forall|i: int| 0 <= i < entities.len() ==> (#[trigger] entities[i]).wf()
}

/// All entities, in the order they were added.
pub struct World<M, H> {
    entities: Vec<Entity<M, H>>,
}

impl<M, H> World<M, H> {
    pub closed spec fn entities(&self) -> Seq<Entity<M, H>> {
        self.entities@
    }

    /// Entity ids are unique and every entity is well formed.
    pub open spec fn wf(&self) -> bool {
        entities_wf(self.entities())
    }

    pub open spec fn has_entity(&self, id: EntityId) -> bool {
        entity_ids(self.entities()).contains(id)
    }

    /// The index of the entity `id`.
    pub open spec fn index_spec(&self, id: EntityId) -> int {
        entity_ids(self.entities()).index_of(id)
    }

    /// The entity `id`.
    pub open spec fn entity(&self, id: EntityId) -> Entity<M, H> {
        self.entities()[self.index_spec(id)]
    }

    /// Where an incoming packet is routed: the receiver that the messenger
    /// of its entity registered under its function id.
    pub open spec fn dispatch_spec(&self, message: ClientMessage) -> Result<H, RoutingError> {
        match message {
            ClientMessage::ModMessage(e, f, _) => if !self.has_entity(e) {
                Err(RoutingError::UnknownEntity(e))
            } else {
                match self.entity(e).messenger_spec() {
                    Some(m) => route_spec(m.functions(), f),
                    None => Err(RoutingError::NoMessenger(e)),
                }
            },
            _ => Err(RoutingError::NotACall),
        }
    }

    /// An empty world.
    pub fn new() -> (r: World<M, H>)
        ensures
            r.wf(),
            r.entities() == Seq::<Entity<M, H>>::empty(),
    {
        let r = World { entities: Vec::new() };
        assert(entity_ids(r.entities()) =~= Seq::<EntityId>::empty());
        r
    }

    /// The position of the entity `id`.
    fn position(&self, id: EntityId) -> (r: Option<usize>)
        requires
            self.wf(),
        ensures
            match r {
                Some(i) => self.has_entity(id) && i == self.index_spec(id) && i < self.entities().len()
                    && self.entities()[i as int].id_spec() == id,
                None => !self.has_entity(id),
            },
    {
        let mut i: usize = 0;
        while i < self.entities.len()
            invariant
                self.wf(),
                i <= self.entities@.len(),
                forall|j: int| 0 <= j < i ==> self.entities@[j].id_spec() != id,
            decreases self.entities@.len() - i,
        {
            if self.entities[i].id() == id {
                proof {
                    let ids = entity_ids(self.entities());
                    assert(ids[i as int] == id);
                    let k = ids.index_of(id);
                    assert(ids[k] == id);
                }
                return Some(i);
            }
            i = i + 1;
        }
        proof {
            let ids = entity_ids(self.entities());
            if ids.contains(id) {
                let j = choose|j: int| 0 <= j < ids.len() && ids[j] == id;
                assert(self.entities@[j].id_spec() == id);
            }
        }
        None
    }

    /// Appends `entity`, whose id no entity has.
    fn push_new(&mut self, entity: Entity<M, H>)
        requires
            old(self).wf(),
            entity.wf(),
            !old(self).has_entity(entity.id_spec()),
        ensures
            final(self).wf(),
            final(self).entities() == old(self).entities().push(entity),
    {
        let ghost id = entity.id_spec();
        self.entities.push(entity);
        proof {
            let ids = entity_ids(self.entities());
            let old_ids = entity_ids(old(self).entities());
            assert(ids =~= old_ids.push(id));
            assert forall|i: int, j: int| 0 <= i < j < ids.len() implies ids[i] != ids[j] by {
                if j == ids.len() - 1 {
                    assert(ids[i] == old_ids[i]);
                }
            }
            assert forall|i: int| 0 <= i < self.entities().len() implies (#[trigger] self.entities()[i]).wf() by {
                if i < old(self).entities().len() {
                    assert(self.entities()[i] == old(self).entities()[i]);
                }
            }
        }
    }

    /// Adds `entity`. An entity with the same id that is there already is
    /// replaced by it, in its place; otherwise `entity` comes after all
    /// others. Returns whether an entity was replaced. The caller then runs
    /// the `start` hook of each module of `entity`, in the order of
    /// `module_types`.
    pub fn add_entity(&mut self, entity: Entity<M, H>) -> (r: bool)
        requires
            old(self).wf(),
            entity.wf(),
        ensures
            final(self).wf(),
            r == old(self).has_entity(entity.id_spec()),
            final(self).entities() == (if r {
                old(self).entities().update(old(self).index_spec(entity.id_spec()), entity)
            } else {
                old(self).entities().push(entity)
            }),
            final(self).has_entity(entity.id_spec()),
            final(self).entity(entity.id_spec()) == entity,
    {
        let ghost id = entity.id_spec();
        match self.position(entity.id()) {
            Some(i) => {
                let ghost before = self.entities@;
                self.entities.set(i, entity);
                proof {
                    let ids = entity_ids(self.entities());
                    let old_ids = entity_ids(before);
                    assert(ids =~= old_ids);
                    assert forall|k: int| 0 <= k < self.entities().len() implies (#[trigger] self.entities()[k]).wf() by {
                        if k != i {
                            assert(self.entities()[k] == before[k]);
                        }
                    }
                }
                true
            },
            None => {
                self.push_new(entity);
                proof {
                    let ids = entity_ids(self.entities());
                    let n = old(self).entities().len() as int;
                    assert(ids[n] == id);
                    let k = ids.index_of(id);
                    assert(ids[k] == id);
                }
                false
            },
        }
    }

    /// Creates an empty entity with a fresh random id and returns the id. On
    /// an empty world this always succeeds; otherwise it returns `None`,
    /// leaving the world unchanged, only in the vanishingly rare case that
    /// the id drawn is taken.
    pub fn new_entity(&mut self) -> (r: Option<EntityId>)
        requires
            old(self).wf(),
        ensures
            final(self).wf(),
            r is None ==> old(self).entities().len() > 0,
            match r {
                Some(id) => !old(self).has_entity(id) && final(self).entities() == old(self).entities().push(
                    final(self).entities().last(),
                ) && final(self).entities().last().id_spec() == id
                    && final(self).entities().last().modules().len() == 0
                    && final(self).entities().last().messenger_spec() is None,
                None => final(self).entities() == old(self).entities(),
            },
    {
        let id = fresh_id();
        match self.position(id) {
            Some(_) => None,
            None => {
                self.push_new(Entity::new(id));
                Some(id)
            },
        }
    }

    /// Removes the entity `id`; returns whether there was one.
    pub fn remove_entity(&mut self, id: &EntityId) -> (r: bool)
        requires
            old(self).wf(),
        ensures
            final(self).wf(),
            r == old(self).has_entity(*id),
            final(self).entities() == (if r {
                old(self).entities().remove(old(self).index_spec(*id))
            } else {
                old(self).entities()
            }),
    {
        match self.position(*id) {
            Some(i) => {
                self.entities.remove(i);
                proof {
                    let ids = entity_ids(self.entities());
                    let old_ids = entity_ids(old(self).entities());
                    assert(ids =~= old_ids.remove(i as int));
                    assert forall|a: int, b: int| 0 <= a < b < ids.len() implies ids[a] != ids[b] by {
                        let a0 = if a < i { a } else { a + 1 };
                        let b0 = if b < i { b } else { b + 1 };
                        assert(ids[a] == old_ids[a0]);
                        assert(ids[b] == old_ids[b0]);
                    }
                    assert forall|k: int| 0 <= k < self.entities().len() implies (#[trigger] self.entities()[k]).wf() by {
                        let k0 = if k < i { k } else { k + 1 };
                        assert(self.entities()[k] == old(self).entities()[k0]);
                    }
                }
                true
            },
            None => false,
        }
    }

    /// The entity `id`.
    pub fn get_entity(&self, id: &EntityId) -> (r: Option<&Entity<M, H>>)
        requires
            self.wf(),
        ensures
            r is Some <==> self.has_entity(*id),
            r matches Some(e) ==> *e == self.entity(*id),
    {
        match self.position(*id) {
            Some(i) => Some(&self.entities[i]),
            None => None,
        }
    }

    /// The entity `id`, to change it. The world stays well formed as long as
    /// the entity does and keeps its id.
    pub fn mut_entity(&mut self, id: &EntityId) -> (r: Option<&mut Entity<M, H>>)
        requires
            old(self).wf(),
        ensures
            match r {
                Some(e) => {
                    &&& old(self).has_entity(*id)
                    &&& *e == old(self).entity(*id)
                    &&& final(self).entities() == old(self).entities().update(old(self).index_spec(*id), *final(e))
                    &&& (final(e).wf() && final(e).id_spec() == *id) ==> final(self).wf()
                },
                None => !old(self).has_entity(*id) && final(self).entities() == old(self).entities() && final(self).wf(),
            },
    {
        match self.position(*id) {
            Some(i) => {
                let ghost before = self.entities@;
                let e = &mut self.entities[i];
                proof {
                    assert forall|x: Entity<M, H>| x.wf() && x.id_spec() == *id implies #[trigger] entities_wf(
                        before.update(i as int, x),
                    ) by {
                        let after = before.update(i as int, x);
                        assert(entity_ids(after) =~= entity_ids(before));
                        assert forall|k: int| 0 <= k < after.len() implies (#[trigger] after[k]).wf() by {
                            if k != i {
                                assert(after[k] == before[k]);
                            }
                        }
                    }
                }
                Some(e)
            },
            None => None,
        }
    }

    /// The ids of all entities, in the order they were added.
    pub fn ids(&self) -> (r: Vec<EntityId>)
        ensures
            r@ == entity_ids(self.entities()),
    {
        let mut out: Vec<EntityId> = Vec::new();
        let mut i: usize = 0;
        while i < self.entities.len()
            invariant
                i <= self.entities@.len(),
                out@ == entity_ids(self.entities@.take(i as int)),
            decreases self.entities@.len() - i,
        {
            out.push(self.entities[i].id());
            assert(entity_ids(self.entities@.take(i + 1)) =~= entity_ids(self.entities@.take(i as int)).push(
                self.entities@[i as int].id_spec(),
            ));
            i = i + 1;
        }
        assert(self.entities@.take(i as int) =~= self.entities@);
        out
    }

    /// The ids of the entities that have a module of type `key`, in the
    /// order the entities were added.
    pub fn id_find_with(&self, key: TypeId) -> (r: Vec<EntityId>)
        ensures
            r@ == ids_with(self.entities(), key),
    {
        let mut out: Vec<EntityId> = Vec::new();
        let mut i: usize = 0;
        while i < self.entities.len()
            invariant
                i <= self.entities@.len(),
                out@ == ids_with(self.entities@.take(i as int), key),
            decreases self.entities@.len() - i,
        {
            assert(self.entities@.take(i + 1).drop_last() =~= self.entities@.take(i as int));
            if self.entities[i].has_module(key) {
                out.push(self.entities[i].id());
            }
            i = i + 1;
        }
        assert(self.entities@.take(i as int) =~= self.entities@);
        out
    }

    /// The lifecycle calls of one tick: every entity in the order they were
    /// added, and within an entity every module in the order it was added.
    pub fn tick_order(&self) -> (r: Vec<(EntityId, TypeId)>)
        ensures
            r@ == tick_calls(self.entities()),
    {
        let mut out: Vec<(EntityId, TypeId)> = Vec::new();
        let mut i: usize = 0;
        while i < self.entities.len()
            invariant
                i <= self.entities@.len(),
                out@ == tick_calls(self.entities@.take(i as int)),
            decreases self.entities@.len() - i,
        {
            let e = &self.entities[i];
            let keys = e.module_types();
            let id = e.id();
            let ghost base = out@;
            let mut j: usize = 0;
            while j < keys.len()
                invariant
                    j <= keys@.len(),
                    keys@ == module_keys(e.modules()),
                    id == e.id_spec(),
                    out@ == base + entity_calls(*e).take(j as int),
                decreases keys@.len() - j,
            {
                out.push((id, keys[j]));
                assert(entity_calls(*e).take(j + 1) =~= entity_calls(*e).take(j as int).push((id, keys@[j as int])));
                assert(out@ =~= base + entity_calls(*e).take(j + 1));
                j = j + 1;
            }
            proof {
                assert(entity_calls(*e).take(j as int) =~= entity_calls(*e));
                assert(self.entities@.take(i + 1).drop_last() =~= self.entities@.take(i as int));
            }
            i = i + 1;
        }
        assert(self.entities@.take(i as int) =~= self.entities@);
        out
    }

    /// The module of type `key` of the entity `id`.
    pub fn get_module_of(&self, id: &EntityId, key: TypeId) -> (r: Option<&M>)
        requires
            self.wf(),
        ensures
            r is Some <==> self.has_entity(*id) && module_keys(self.entity(*id).modules()).contains(key),
            r matches Some(m) ==> exists|i: int|
                0 <= i < self.entity(*id).modules().len() && #[trigger] self.entity(*id).modules()[i] == (key, *m),
    {
        match self.get_entity(id) {
            Some(e) => e.get_module(key),
            None => None,
        }
    }

    /// The module of type `key` of the entity `id`, to change it in place.
    pub fn mut_module_of(&mut self, id: &EntityId, key: TypeId) -> (r: Option<&mut M>)
        requires
            old(self).wf(),
        ensures
            final(self).wf(),
            final(self).entities().len() == old(self).entities().len(),
            match r {
                Some(m) => {
                    let k = old(self).index_spec(*id);
                    let e = old(self).entity(*id);
                    let j = module_keys(e.modules()).index_of(key);
                    &&& old(self).has_entity(*id)
                    &&& module_keys(e.modules()).contains(key)
                    &&& 0 <= j < e.modules().len()
                    &&& e.modules()[j] == (key, *m)
                    &&& forall|x: int|
                        0 <= x < old(self).entities().len() && x != k ==> #[trigger] final(self).entities()[x]
                            == old(self).entities()[x]
                    &&& final(self).entities()[k].id_spec() == *id
                    &&& final(self).entities()[k].messenger_spec() == e.messenger_spec()
                    &&& final(self).entities()[k].modules() == e.modules().update(j, (key, *final(m)))
                },
                None => !(old(self).has_entity(*id) && module_keys(old(self).entity(*id).modules()).contains(key))
                    && final(self).entities() == old(self).entities(),
            },
    {
        if !self.get_entity(id).is_some() {
            return None;
        }
        if !self.get_entity(id).unwrap().has_module(key) {
            return None;
        }
        match self.mut_entity(id) {
            Some(e) => e.mut_module(key),
            None => None,
        }
    }

    /// The receiver that an incoming packet is routed to. A packet that is
    /// not a call, or names an entity, messenger or function that does not
    /// exist, is refused with the matching error; the world is not changed
    /// either way.
    pub fn dispatch(&self, packet: &ClientPacket) -> (r: Result<&H, RoutingError>)
        requires
            self.wf(),
        ensures
            match r {
                Ok(h) => self.dispatch_spec(packet.message) == Ok::<H, RoutingError>(*h),
                Err(e) => self.dispatch_spec(packet.message) == Err::<H, RoutingError>(e),
            },
    {
        match &packet.message {
            ClientMessage::ModMessage(e, f, _) => {
                match self.get_entity(e) {
                    Some(entity) => match entity.messenger() {
                        Some(m) => m.receiver(*f),
                        None => Err(RoutingError::NoMessenger(*e)),
                    },
                    None => Err(RoutingError::UnknownEntity(*e)),
                }
            },
            _ => Err(RoutingError::NotACall),
        }
    }
}

} // verus!
