use crate::command_buffer::{CommandBuffer, WorldCommand};
use crate::components::Component;
use crate::entities::entity_manager::{EntityManager, EntityManagerView};
use crate::entities::waiting::{lemma_with_entity, with_entity, WaitingEntities};
use crate::entities::Entity;
use crate::errors::EcsErrors;
use crate::events::{
    dispatched, handlers_for, EventEmitter, EventHandler, WorldEventEmmiter, WorldEvents,
};
use crate::query::Query;
use crate::resources::{Resource, Resources};
use crate::signature::{satisfies, signature_satisfies};
use crate::system::{lemma_without, without, InternalSystem};
use crate::TypeKey;
use std::collections::hash_map::Entry;
use std::collections::HashMap;
use vstd::prelude::*;

verus! {

/// What a world knows of one registered system.
pub struct SystemView {
    pub key: TypeKey,
    pub name: Seq<char>,
    pub signature: u32,
    pub entities: Seq<Entity>,
}

impl SystemView {
    /// The record after the list is brought in step with one entity: the
    /// entity is in the list exactly when `member` says so, and no other
    /// entry moves.
    pub open spec fn sync(self, entity: Entity, member: bool) -> Self {
        SystemView {
            entities: if member {
                with_entity(self.entities, entity)
            } else {
                without(self.entities, entity)
            },
            ..self
        }
    }

    /// The record after `entity` is dropped from the list.
    pub open spec fn drop_entity(self, entity: Entity) -> Self {
        SystemView { entities: without(self.entities, entity), ..self }
    }

    /// After `sync`, the entity is listed exactly when `member` says so, and
    /// every other entity is listed as before.
    pub proof fn lemma_sync(self, entity: Entity, member: bool)
        ensures
            self.sync(entity, member).entities.contains(entity) == member,
            forall|other: Entity|
                other != entity ==> #[trigger] self.sync(entity, member).entities.contains(other)
                    == self.entities.contains(other),
    {
        lemma_without(self.entities, entity);
        let after = self.sync(entity, member).entities;
        if member && !self.entities.contains(entity) {
            assert(after.last() == entity);
            assert forall|other: Entity| other != entity implies #[trigger] after.contains(other)
                == self.entities.contains(other) by {
                if self.entities.contains(other) {
                    let i = choose|i: int| 0 <= i < self.entities.len() && self.entities[i] == other;
                    assert(after[i] == other);
                }
            }
        }
    }
}

/// What a world holds.
#[verifier::ext_equal]
pub struct WorldView<C, R, H> {
    /// Entities, signatures and component pools.
    pub entities: EntityManagerView<C>,
    /// The registered systems.
    pub systems: Seq<SystemView>,
    /// The resources, by kind.
    pub resources: Map<TypeKey, R>,
    /// The event handlers, by kind of event.
    pub handlers: Map<TypeKey, Seq<H>>,
    /// The entities whose place in the systems' lists is out of date, in the
    /// order in which they got there.
    pub to_add: Seq<Entity>,
    /// The entities that wait to be removed, in the order of the requests.
    pub to_remove: Seq<Entity>,
    /// The entity created last.
    pub current: Option<Entity>,
}

impl<C, R, H> WorldView<C, R, H> {
    /// The world with nothing in it.
    pub open spec fn empty() -> Self {
        WorldView {
            entities: EntityManagerView::empty(),
            systems: Seq::empty(),
            resources: Map::empty(),
            handlers: Map::empty(),
            to_add: Seq::empty(),
            to_remove: Seq::empty(),
            current: None,
        }
    }

    /// The keys of the registered systems, in the order of the records.
    pub open spec fn system_keys(self) -> Seq<TypeKey> {
        Seq::new(self.systems.len(), |i: int| self.systems[i].key)
    }

    /// The invariant every world keeps: the entity manager is well formed, no
    /// two systems share a key, neither waiting list names an entity twice,
    /// an entity that waits for its lists to be brought up to date is live,
    /// and so is every entity that a system lists.
    pub open spec fn wf(self) -> bool {
        &&& self.entities.wf()
        &&& self.system_keys().no_duplicates()
        &&& self.to_add.no_duplicates()
        &&& self.to_remove.no_duplicates()
        &&& forall|i: int| 0 <= i < self.to_add.len() ==> self.entities.is_live(#[trigger] self.to_add[i])
        &&& self.lists_only_live()
    }

    /// Every entity that a system lists is live.
    pub open spec fn lists_only_live(self) -> bool {
        forall|i: int, entity: Entity|
            0 <= i < self.systems.len() && #[trigger] self.systems[i].entities.contains(entity)
                ==> self.entities.is_live(entity)
    }

    pub open spec fn has_system(self, key: TypeKey) -> bool {
        self.system_keys().contains(key)
    }

    /// The position of the record of a registered system.
    pub open spec fn system_index(self, key: TypeKey) -> int {
        self.system_keys().index_of(key)
    }

    /// The record of a registered system.
    pub open spec fn system(self, key: TypeKey) -> SystemView {
        self.systems[self.system_index(key)]
    }

    /// The world after an entity is created: it is the current entity, and it
    /// waits for the next update to reach the systems' lists.
    pub open spec fn create_entity(self) -> Self {
        let entity = self.entities.next_entity();
        WorldView {
            entities: self.entities.create_entity(),
            current: Some(entity),
            to_add: with_entity(self.to_add, entity),
            ..self
        }
    }

    /// The world after `component` of kind `key` is attached to `entity`;
    /// unchanged where that is refused. The entity then waits for the next
    /// update to have its place in the systems' lists looked at again.
    pub open spec fn add_component(self, entity: Entity, key: TypeKey, component: C) -> Self {
        if self.entities.add_error(entity, key).is_some() {
            self
        } else {
            WorldView {
                entities: self.entities.add_component(entity, key, component),
                to_add: with_entity(self.to_add, entity),
                ..self
            }
        }
    }

    /// The world after the component of kind `key` is taken from `entity`;
    /// unchanged where that is refused. The entity then waits for the next
    /// update to have its place in the systems' lists looked at again.
    pub open spec fn remove_component(self, entity: Entity, key: TypeKey) -> Self {
        if self.entities.remove_error(entity, key).is_some() {
            self
        } else {
            WorldView {
                entities: self.entities.remove_component(entity, key),
                to_add: with_entity(self.to_add, entity),
                ..self
            }
        }
    }

    /// The world in which `entity` holds `component` in place of the
    /// component of kind `key` it held.
    pub open spec fn replace_component(self, entity: Entity, key: TypeKey, component: C) -> Self {
        WorldView { entities: self.entities.replace_component(entity, key, component), ..self }
    }

    /// The world after the removal of `entity` is asked for: the entity waits
    /// for the next update to be removed.
    pub open spec fn remove_entity(self, entity: Entity) -> Self {
        WorldView { to_remove: with_entity(self.to_remove, entity), ..self }
    }

    /// The world after every system's list is brought in step with `entity`:
    /// a system lists it exactly when the entity is live and its signature
    /// holds every bit the system asks for.
    pub open spec fn sync_entity(self, entity: Entity) -> Self {
        WorldView {
            systems: Seq::new(
                self.systems.len(),
                |i: int|
                    self.systems[i].sync(
                        entity,
                        self.entities.matches(entity, self.systems[i].signature),
                    ),
            ),
            ..self
        }
    }

    /// The world after `entity` is destroyed: no system lists it, it holds
    /// nothing, and its id is free for reuse.
    pub open spec fn kill_entity(self, entity: Entity) -> Self {
        WorldView {
            systems: Seq::new(self.systems.len(), |i: int| self.systems[i].drop_entity(entity)),
            entities: self.entities.remove_entity(entity),
            to_add: without(self.to_add, entity),
            ..self
        }
    }

    /// The world after the lists are brought in step with each entity of
    /// `entities`, one after the other.
    pub open spec fn sync_all(self, entities: Seq<Entity>) -> Self
        decreases entities.len(),
    {
        if entities.len() == 0 {
            self
        } else {
            self.sync_all(entities.drop_last()).sync_entity(entities.last())
        }
    }

    /// The world after each entity of `entities` is destroyed, one after the
    /// other.
    pub open spec fn kill_all(self, entities: Seq<Entity>) -> Self
        decreases entities.len(),
    {
        if entities.len() == 0 {
            self
        } else {
            self.kill_all(entities.drop_last()).kill_entity(entities.last())
        }
    }

    /// The world after an update: the lists are brought in step with every
    /// entity that waited for it, then every entity that waited for its
    /// removal is destroyed. Nothing waits afterwards.
    pub open spec fn update(self) -> Self {
        self.synced().kill_all(self.to_remove)
    }

    /// The world in the middle of an update: the lists are brought in step
    /// with every entity that waited for it, nothing waits any more, and no
    /// entity is destroyed yet.
    pub open spec fn synced(self) -> Self {
        WorldView {
            to_remove: Seq::empty(),
            ..(WorldView { to_add: Seq::empty(), ..self }).sync_all(self.to_add)
        }
    }

    /// The world after each component of `components` is attached to
    /// `entity`, one after the other; one that is refused is passed over.
    pub open spec fn attach_all(self, entity: Entity, components: Seq<(TypeKey, C)>) -> Self
        decreases components.len(),
    {
        if components.len() == 0 {
            self
        } else {
            self.attach_all(entity, components.drop_last()).add_component(
                entity,
                components.last().0,
                components.last().1,
            )
        }
    }

    /// The world after an entity is created with `components`. Where no
    /// entity can be created, nothing changes.
    pub open spec fn create_with(self, components: Seq<(TypeKey, C)>) -> Self {
        if self.entities.can_create() {
            self.create_entity().attach_all(self.entities.next_entity(), components)
        } else {
            self
        }
    }

    /// The world after one command is carried out.
    pub open spec fn apply(self, command: WorldCommand<C>) -> Self {
        match command {
            WorldCommand::RemoveEntity(id) => self.remove_entity(Entity(id)),
            WorldCommand::RemoveComponent(id, key) => self.remove_component(Entity(id), key),
            WorldCommand::CreateEntity(components) => self.create_with(components@),
            WorldCommand::AddComponent(id, key, component) => self.add_component(
                Entity(id),
                key,
                component,
            ),
        }
    }

    /// The world after the commands of `commands` are carried out, the first
    /// of the sequence first.
    pub open spec fn handle_commands(self, commands: Seq<WorldCommand<C>>) -> Self
        decreases commands.len(),
    {
        if commands.len() == 0 {
            self
        } else {
            self.handle_commands(commands.drop_last()).apply(commands.last())
        }
    }

    /// The world after a system with this name and signature is registered
    /// under `key`, in place of the one registered under that key before.
    /// Its list starts out empty; with `backfill` it holds the live entities
    /// that satisfy the signature, each once, in ascending order of their
    /// index.
    pub open spec fn add_system(
        self,
        key: TypeKey,
        name: Seq<char>,
        signature: u32,
        backfill: bool,
    ) -> Self {
        let record = SystemView {
            key,
            name,
            signature,
            entities: if backfill {
                self.entities.matching(signature)
            } else {
                Seq::empty()
            },
        };
        WorldView {
            systems: if self.has_system(key) {
                self.systems.update(self.system_index(key), record)
            } else {
                self.systems.push(record)
            },
            ..self
        }
    }

    /// The world after the system registered under `key`, if there is one, is
    /// dropped.
    pub open spec fn remove_system(self, key: TypeKey) -> Self {
        if self.has_system(key) {
            WorldView { systems: self.systems.remove(self.system_index(key)), ..self }
        } else {
            self
        }
    }

    /// A registered system's key sits at exactly one position.
    pub proof fn lemma_system_index(self, key: TypeKey, index: int)
        requires
            self.system_keys().no_duplicates(),
            0 <= index < self.systems.len(),
            self.systems[index].key == key,
        ensures
            self.has_system(key),
            self.system_index(key) == index,
    {
        let keys = self.system_keys();
        assert(keys[index] == key);
        assert(keys.contains(key));
        let found = keys.index_of(key);
        assert(0 <= found < keys.len() && keys[found] == key);
    }

    /// Creating an entity keeps the world well formed and leaves every
    /// system's list as it is.
    pub proof fn lemma_create_entity(self)
        requires
            self.wf(),
            self.entities.can_create(),
        ensures
            self.create_entity().wf(),
            self.create_entity().systems == self.systems,
            self.create_entity().entities.is_live(self.entities.next_entity()),
    {
        let entity = self.entities.next_entity();
        let after = self.create_entity();
        self.entities.lemma_create_entity();
        lemma_with_entity(self.to_add, entity);
        assert(after.system_keys() =~= self.system_keys());
        assert forall|i: int, listed: Entity|
            0 <= i < after.systems.len() && #[trigger] after.systems[i].entities.contains(
                listed,
            ) implies after.entities.is_live(listed) by {
            assert(self.systems[i].entities.contains(listed));
            assert(after.entities.is_live(listed) == self.entities.is_live(listed)
                || listed == entity);
        }
        assert forall|i: int| 0 <= i < after.to_add.len() implies after.entities.is_live(
            #[trigger] after.to_add[i],
        ) by {
            let waiting = after.to_add[i];
            if waiting != entity {
                assert(self.to_add.contains(waiting));
                let j = choose|j: int| 0 <= j < self.to_add.len() && self.to_add[j] == waiting;
                assert(self.entities.is_live(self.to_add[j]));
                assert(after.entities.is_live(waiting) == self.entities.is_live(waiting));
            }
        }
    }

    /// Attaching a component keeps the world well formed and leaves every
    /// system's list as it is.
    pub proof fn lemma_add_component(self, entity: Entity, key: TypeKey, component: C)
        requires
            self.wf(),
        ensures
            self.add_component(entity, key, component).wf(),
            self.add_component(entity, key, component).systems == self.systems,
            self.add_component(entity, key, component).entities.ids == self.entities.ids,
    {
        let after = self.add_component(entity, key, component);
        self.entities.lemma_add_component(entity, key, component);
        lemma_with_entity(self.to_add, entity);
        if self.entities.add_error(entity, key).is_none() {
            assert(after.system_keys() =~= self.system_keys());
            assert forall|i: int| 0 <= i < after.to_add.len() implies after.entities.is_live(
                #[trigger] after.to_add[i],
            ) by {
                let waiting = after.to_add[i];
                if waiting != entity {
                    assert(self.to_add.contains(waiting));
                    let j = choose|j: int| 0 <= j < self.to_add.len() && self.to_add[j] == waiting;
                    assert(self.entities.is_live(self.to_add[j]));
                }
            }
        }
    }

    /// Taking a component away keeps the world well formed and leaves every
    /// system's list as it is.
    pub proof fn lemma_remove_component(self, entity: Entity, key: TypeKey)
        requires
            self.wf(),
        ensures
            self.remove_component(entity, key).wf(),
            self.remove_component(entity, key).systems == self.systems,
            self.remove_component(entity, key).entities.ids == self.entities.ids,
    {
        let after = self.remove_component(entity, key);
        self.entities.lemma_remove_component(entity, key);
        lemma_with_entity(self.to_add, entity);
        if self.entities.remove_error(entity, key).is_none() {
            assert(after.system_keys() =~= self.system_keys());
            assert forall|i: int| 0 <= i < after.to_add.len() implies after.entities.is_live(
                #[trigger] after.to_add[i],
            ) by {
                let waiting = after.to_add[i];
                if waiting != entity {
                    assert(self.to_add.contains(waiting));
                    let j = choose|j: int| 0 <= j < self.to_add.len() && self.to_add[j] == waiting;
                    assert(self.entities.is_live(self.to_add[j]));
                }
            }
        }
    }

    /// Replacing a component that is held keeps the world well formed.
    pub proof fn lemma_replace_component(self, entity: Entity, key: TypeKey, component: C)
        requires
            self.wf(),
            self.entities.has_component(entity, key),
        ensures
            self.replace_component(entity, key, component).wf(),
    {
        let after = self.replace_component(entity, key, component);
        self.entities.lemma_replace_component(entity, key, component);
        assert(after.system_keys() =~= self.system_keys());
        assert forall|i: int| 0 <= i < after.to_add.len() implies after.entities.is_live(
            #[trigger] after.to_add[i],
        ) by {
            assert(self.entities.is_live(self.to_add[i]));
        }
        assert forall|i: int, listed: Entity|
            0 <= i < after.systems.len() && #[trigger] after.systems[i].entities.contains(
                listed,
            ) implies after.entities.is_live(listed) by {
            assert(self.systems[i].entities.contains(listed));
        }
    }

    /// A new entity that is given a component before the next update holds
    /// it, and every system's list is what it was before the entity was
    /// created: none names the entity.
    pub proof fn lemma_new_entity_waits(self, key: TypeKey, component: C, i: int)
        requires
            self.wf(),
            self.entities.can_create(),
            self.create_entity().entities.add_error(self.entities.next_entity(), key).is_none(),
            0 <= i < self.systems.len(),
        ensures
            ({
                let entity = self.entities.next_entity();
                let after = self.create_entity().add_component(entity, key, component);
                &&& after.entities.has_component(entity, key)
                &&& after.systems == self.systems
                &&& !after.systems[i].entities.contains(entity)
            }),
    {
        let entity = self.entities.next_entity();
        self.lemma_create_entity();
        self.entities.lemma_create_entity();
        self.create_entity().entities.lemma_add_component(entity, key, component);
    }

    /// Asking for a removal keeps the world well formed and leaves every
    /// system's list, and every entity, as it is.
    pub proof fn lemma_remove_entity(self, entity: Entity)
        requires
            self.wf(),
        ensures
            self.remove_entity(entity).wf(),
            self.remove_entity(entity).systems == self.systems,
            self.remove_entity(entity).entities == self.entities,
    {
        lemma_with_entity(self.to_remove, entity);
        assert(self.remove_entity(entity).system_keys() =~= self.system_keys());
    }

    /// Bringing the lists in step with an entity keeps the world well
    /// formed, keeps every system's key, name and signature, lists the
    /// entity exactly where it matches, and lists every other entity as
    /// before.
    pub proof fn lemma_sync_entity(self, entity: Entity)
        requires
            self.wf(),
        ensures
            self.sync_entity(entity).wf(),
            self.sync_entity(entity).systems.len() == self.systems.len(),
            forall|i: int|
                #![trigger self.sync_entity(entity).systems[i]]
                0 <= i < self.systems.len() ==> {
                    let before = self.systems[i];
                    let after = self.sync_entity(entity).systems[i];
                    &&& after.key == before.key
                    &&& after.name == before.name
                    &&& after.signature == before.signature
                    &&& after.entities.contains(entity) == self.entities.matches(
                        entity,
                        before.signature,
                    )
                    &&& forall|other: Entity|
                        other != entity ==> #[trigger] after.entities.contains(other)
                            == before.entities.contains(other)
                },
    {
        let after = self.sync_entity(entity);
        assert(after.system_keys() =~= self.system_keys());
        assert forall|i: int, listed: Entity|
            0 <= i < after.systems.len() && #[trigger] after.systems[i].entities.contains(
                listed,
            ) implies after.entities.is_live(listed) by {
            self.systems[i].lemma_sync(
                entity,
                self.entities.matches(entity, self.systems[i].signature),
            );
            if listed != entity {
                assert(self.systems[i].entities.contains(listed));
            }
        }
        assert forall|i: int| #![trigger after.systems[i]] 0 <= i < self.systems.len() implies {
            let before = self.systems[i];
            let now = after.systems[i];
            &&& now.key == before.key
            &&& now.name == before.name
            &&& now.signature == before.signature
            &&& now.entities.contains(entity) == self.entities.matches(entity, before.signature)
            &&& forall|other: Entity|
                other != entity ==> #[trigger] now.entities.contains(other)
                    == before.entities.contains(other)
        } by {
            self.systems[i].lemma_sync(
                entity,
                self.entities.matches(entity, self.systems[i].signature),
            );
        }
    }

    /// Bringing the lists in step with several entities keeps the world well
    /// formed and changes nothing but the systems' lists.
    pub proof fn lemma_sync_all(self, entities: Seq<Entity>)
        requires
            self.wf(),
        ensures
            self.sync_all(entities).wf(),
            self.sync_all(entities) == (WorldView {
                systems: self.sync_all(entities).systems,
                ..self
            }),
            self.sync_all(entities).systems.len() == self.systems.len(),
        decreases entities.len(),
    {
        if entities.len() > 0 {
            self.lemma_sync_all(entities.drop_last());
            self.sync_all(entities.drop_last()).lemma_sync_entity(entities.last());
        }
    }

    /// Destroying an entity keeps the world well formed, keeps every
    /// system's key, name and signature, leaves the entity in no list, and
    /// lists every other entity as before.
    pub proof fn lemma_kill_entity(self, entity: Entity)
        requires
            self.wf(),
        ensures
            self.kill_entity(entity).wf(),
            self.kill_entity(entity).systems.len() == self.systems.len(),
            !self.kill_entity(entity).entities.is_live(entity),
            forall|i: int|
                #![trigger self.kill_entity(entity).systems[i]]
                0 <= i < self.systems.len() ==> {
                    let before = self.systems[i];
                    let after = self.kill_entity(entity).systems[i];
                    &&& after.key == before.key
                    &&& after.name == before.name
                    &&& after.signature == before.signature
                    &&& !after.entities.contains(entity)
                    &&& forall|other: Entity|
                        other != entity ==> #[trigger] after.entities.contains(other)
                            == before.entities.contains(other)
                },
    {
        let after = self.kill_entity(entity);
        self.entities.lemma_remove_entity(entity);
        lemma_without(self.to_add, entity);
        assert(after.system_keys() =~= self.system_keys());
        assert forall|i: int, listed: Entity|
            0 <= i < after.systems.len() && #[trigger] after.systems[i].entities.contains(
                listed,
            ) implies after.entities.is_live(listed) by {
            lemma_without(self.systems[i].entities, entity);
            assert(self.systems[i].entities.contains(listed) && listed != entity);
            assert(after.entities.is_live(listed) == self.entities.is_live(listed));
        }
        assert forall|i: int| 0 <= i < after.to_add.len() implies after.entities.is_live(
            #[trigger] after.to_add[i],
        ) by {
            let waiting = after.to_add[i];
            assert(after.to_add.contains(waiting));
            assert(self.to_add.contains(waiting) && waiting != entity);
            let j = choose|j: int| 0 <= j < self.to_add.len() && self.to_add[j] == waiting;
            assert(self.entities.is_live(self.to_add[j]));
            assert(after.entities.is_live(waiting) == self.entities.is_live(waiting));
        }
        assert forall|i: int| #![trigger after.systems[i]] 0 <= i < self.systems.len() implies {
            let before = self.systems[i];
            let now = after.systems[i];
            &&& now.key == before.key
            &&& now.name == before.name
            &&& now.signature == before.signature
            &&& !now.entities.contains(entity)
            &&& forall|other: Entity|
                other != entity ==> #[trigger] now.entities.contains(other)
                    == before.entities.contains(other)
        } by {
            lemma_without(self.systems[i].entities, entity);
        }
    }

    /// Destroying several entities keeps the world well formed and keeps
    /// the number of systems.
    pub proof fn lemma_kill_all(self, entities: Seq<Entity>)
        requires
            self.wf(),
        ensures
            self.kill_all(entities).wf(),
            self.kill_all(entities).systems.len() == self.systems.len(),
        decreases entities.len(),
    {
        if entities.len() > 0 {
            self.lemma_kill_all(entities.drop_last());
            self.kill_all(entities.drop_last()).lemma_kill_entity(entities.last());
        }
    }

    /// After the lists are brought in step with several entities, a system
    /// lists each of them exactly when it matches the system, and lists
    /// every other entity as before.
    pub proof fn lemma_sync_all_lists(self, entities: Seq<Entity>, entity: Entity, i: int)
        requires
            self.wf(),
            0 <= i < self.systems.len(),
        ensures
            self.sync_all(entities).systems.len() == self.systems.len(),
            self.sync_all(entities).systems[i].key == self.systems[i].key,
            self.sync_all(entities).systems[i].name == self.systems[i].name,
            self.sync_all(entities).systems[i].signature == self.systems[i].signature,
            self.sync_all(entities).systems[i].entities.contains(entity) == if entities.contains(
                entity,
            ) {
                self.entities.matches(entity, self.systems[i].signature)
            } else {
                self.systems[i].entities.contains(entity)
            },
        decreases entities.len(),
    {
        self.lemma_sync_all(entities);
        if entities.len() > 0 {
            let front = entities.drop_last();
            let last = entities.last();
            self.lemma_sync_all(front);
            self.lemma_sync_all_lists(front, entity, i);
            let before = self.sync_all(front);
            before.lemma_sync_entity(last);
            let after = before.sync_entity(last);
            assert(after.systems[i].key == before.systems[i].key);
            assert(entities.contains(entity) == (front.contains(entity) || entity == last)) by {
                assert(entities[entities.len() - 1] == last);
                if front.contains(entity) {
                    let k = choose|k: int| 0 <= k < front.len() && front[k] == entity;
                    assert(entities[k] == entity);
                }
                if entities.contains(entity) && entity != last {
                    let k = choose|k: int| 0 <= k < entities.len() && entities[k] == entity;
                    assert(front[k] == entity);
                }
            }
            if entity != last {
                assert(after.systems[i].entities.contains(entity) == before.systems[i].entities.contains(
                    entity,
                ));
            }
        }
    }

    /// After several entities are destroyed, none of them is live or listed
    /// by a system, and every other entity is live and listed as before.
    pub proof fn lemma_kill_all_lists(self, entities: Seq<Entity>, entity: Entity, i: int)
        requires
            self.wf(),
            0 <= i < self.systems.len(),
        ensures
            self.kill_all(entities).systems.len() == self.systems.len(),
            self.kill_all(entities).systems[i].key == self.systems[i].key,
            self.kill_all(entities).systems[i].name == self.systems[i].name,
            self.kill_all(entities).systems[i].signature == self.systems[i].signature,
            self.kill_all(entities).systems[i].entities.contains(entity) == (!entities.contains(
                entity,
            ) && self.systems[i].entities.contains(entity)),
            self.kill_all(entities).entities.is_live(entity) == (!entities.contains(entity)
                && self.entities.is_live(entity)),
        decreases entities.len(),
    {
        self.lemma_kill_all(entities);
        if entities.len() > 0 {
            let front = entities.drop_last();
            let last = entities.last();
            self.lemma_kill_all(front);
            self.lemma_kill_all_lists(front, entity, i);
            let before = self.kill_all(front);
            before.lemma_kill_entity(last);
            before.entities.lemma_remove_entity(last);
            let after = before.kill_entity(last);
            assert(after.systems[i].key == before.systems[i].key);
            assert(entities.contains(entity) == (front.contains(entity) || entity == last)) by {
                assert(entities[entities.len() - 1] == last);
                if front.contains(entity) {
                    let k = choose|k: int| 0 <= k < front.len() && front[k] == entity;
                    assert(entities[k] == entity);
                }
                if entities.contains(entity) && entity != last {
                    let k = choose|k: int| 0 <= k < entities.len() && entities[k] == entity;
                    assert(front[k] == entity);
                }
            }
            if entity != last {
                assert(after.systems[i].entities.contains(entity) == before.systems[i].entities.contains(
                    entity,
                ));
                assert(after.entities.is_live(entity) == before.entities.is_live(entity));
            }
        } else {
            assert(!entities.contains(entity));
        }
    }

    /// The middle of an update is well formed and differs from the world
    /// before it in the lists and in what waits, and in nothing else.
    pub proof fn lemma_synced(self)
        requires
            self.wf(),
        ensures
            self.synced().wf(),
            self.synced().entities == self.entities,
            self.synced().systems.len() == self.systems.len(),
            self.synced().to_add == Seq::<Entity>::empty(),
            self.synced().to_remove == Seq::<Entity>::empty(),
    {
        let start = WorldView { to_add: Seq::empty(), ..self };
        assert(start.system_keys() =~= self.system_keys());
        start.lemma_sync_all(self.to_add);
        assert(self.synced().system_keys() =~= start.sync_all(self.to_add).system_keys());
    }

    /// In the middle of an update a system lists each entity that waited
    /// exactly when it matches the system, and every other entity as before.
    pub proof fn lemma_synced_lists(self, entity: Entity, i: int)
        requires
            self.wf(),
            0 <= i < self.systems.len(),
        ensures
            self.synced().systems[i].key == self.systems[i].key,
            self.synced().systems[i].name == self.systems[i].name,
            self.synced().systems[i].signature == self.systems[i].signature,
            self.synced().systems[i].entities.contains(entity) == if self.to_add.contains(entity) {
                self.entities.matches(entity, self.systems[i].signature)
            } else {
                self.systems[i].entities.contains(entity)
            },
    {
        let start = WorldView { to_add: Seq::empty(), ..self };
        assert(start.system_keys() =~= self.system_keys());
        start.lemma_sync_all_lists(self.to_add, entity, i);
    }

    /// An update keeps the world well formed, keeps every system with its
    /// key, name and signature, and leaves nothing waiting.
    pub proof fn lemma_update(self)
        requires
            self.wf(),
        ensures
            self.update().wf(),
            self.update().to_add == Seq::<Entity>::empty(),
            self.update().to_remove == Seq::<Entity>::empty(),
            self.update().systems.len() == self.systems.len(),
            forall|i: int|
                #![trigger self.update().systems[i]]
                0 <= i < self.systems.len() ==> {
                    &&& self.update().systems[i].key == self.systems[i].key
                    &&& self.update().systems[i].name == self.systems[i].name
                    &&& self.update().systems[i].signature == self.systems[i].signature
                },
    {
        self.lemma_synced();
        self.synced().lemma_kill_all(self.to_remove);
        self.synced().lemma_kill_all_waiting(self.to_remove);
        assert forall|i: int| #![trigger self.update().systems[i]] 0 <= i < self.systems.len() implies {
            &&& self.update().systems[i].key == self.systems[i].key
            &&& self.update().systems[i].name == self.systems[i].name
            &&& self.update().systems[i].signature == self.systems[i].signature
        } by {
            self.lemma_synced_lists(Entity(0), i);
            self.synced().lemma_kill_all_lists(self.to_remove, Entity(0), i);
        }
    }

    /// Destroying entities leaves nothing waiting that did not wait before.
    pub proof fn lemma_kill_all_waiting(self, entities: Seq<Entity>)
        requires
            self.to_add == Seq::<Entity>::empty(),
        ensures
            self.kill_all(entities).to_add == Seq::<Entity>::empty(),
            self.kill_all(entities).to_remove == self.to_remove,
        decreases entities.len(),
    {
        reveal(Seq::filter);
        if entities.len() > 0 {
            self.lemma_kill_all_waiting(entities.drop_last());
        }
    }

    /// After an update, an entity that waited for it, and whose removal was
    /// not asked for, is listed by exactly those systems whose signature its
    /// own signature satisfies.
    pub proof fn lemma_update_lists_waiting(self, entity: Entity, i: int)
        requires
            self.wf(),
            self.to_add.contains(entity),
            !self.to_remove.contains(entity),
            0 <= i < self.systems.len(),
        ensures
            self.update().systems.len() == self.systems.len(),
            self.update().systems[i].signature == self.systems[i].signature,
            self.update().systems[i].entities.contains(entity) == satisfies(
                self.entities.signature_of(entity.0 as int),
                self.systems[i].signature,
            ),
            self.update().entities.is_live(entity),
    {
        self.lemma_synced();
        self.lemma_synced_lists(entity, i);
        self.synced().lemma_kill_all_lists(self.to_remove, entity, i);
        let k = choose|k: int| 0 <= k < self.to_add.len() && self.to_add[k] == entity;
        assert(self.entities.is_live(self.to_add[k]));
    }

    /// After an update, an entity that neither waited for it nor was asked
    /// to be removed is listed by the same systems as before.
    pub proof fn lemma_update_lists_others(self, entity: Entity, i: int)
        requires
            self.wf(),
            !self.to_add.contains(entity),
            !self.to_remove.contains(entity),
            0 <= i < self.systems.len(),
        ensures
            self.update().systems.len() == self.systems.len(),
            self.update().systems[i].entities.contains(entity) == self.systems[i].entities.contains(
                entity,
            ),
            self.update().entities.is_live(entity) == self.entities.is_live(entity),
    {
        self.lemma_synced();
        self.lemma_synced_lists(entity, i);
        self.synced().lemma_kill_all_lists(self.to_remove, entity, i);
    }

    /// After an update, an entity whose removal was asked for is not live
    /// and no system lists it.
    pub proof fn lemma_update_removes(self, entity: Entity, i: int)
        requires
            self.wf(),
            self.to_remove.contains(entity),
            0 <= i < self.systems.len(),
        ensures
            self.update().systems.len() == self.systems.len(),
            !self.update().systems[i].entities.contains(entity),
            !self.update().entities.is_live(entity),
    {
        self.lemma_synced();
        self.synced().lemma_kill_all_lists(self.to_remove, entity, i);
    }

    /// Where no id waits for reuse and no removal is waiting, an entity that
    /// is removed hands its id to the entity created next: after the removal
    /// is asked for and an update has run, the next entity created is the
    /// removed one again.
    pub proof fn lemma_removed_id_comes_back(self, entity: Entity)
        requires
            self.wf(),
            self.entities.ids.freed.len() == 0,
            self.to_remove.len() == 0,
            self.entities.is_live(entity),
        ensures
            self.remove_entity(entity).update().entities.next_entity() == entity,
    {
        let asked = self.remove_entity(entity);
        self.lemma_remove_entity(entity);
        asked.lemma_synced();
        assert(asked.to_remove =~= seq![entity]);
        assert(asked.to_remove.drop_last() =~= Seq::<Entity>::empty());
        assert(asked.synced().kill_all(asked.to_remove.drop_last()) == asked.synced());
        assert(asked.to_remove.last() == entity);
        assert(asked.update() == asked.synced().kill_entity(entity));
        assert(asked.update().entities.ids.freed =~= seq![entity.0]);
    }

    /// Attaching several components keeps the world well formed and leaves
    /// every system's list as it is.
    pub proof fn lemma_attach_all(self, entity: Entity, components: Seq<(TypeKey, C)>)
        requires
            self.wf(),
        ensures
            self.attach_all(entity, components).wf(),
            self.attach_all(entity, components).systems == self.systems,
            self.attach_all(entity, components).entities.ids == self.entities.ids,
        decreases components.len(),
    {
        if components.len() > 0 {
            self.lemma_attach_all(entity, components.drop_last());
            self.attach_all(entity, components.drop_last()).lemma_add_component(
                entity,
                components.last().0,
                components.last().1,
            );
        }
    }

    /// Carrying out a command keeps the world well formed and leaves every
    /// system's list as it is: what a command changes reaches the lists with
    /// the next update.
    pub proof fn lemma_apply(self, command: WorldCommand<C>)
        requires
            self.wf(),
        ensures
            self.apply(command).wf(),
            self.apply(command).systems == self.systems,
            forall|entity: Entity|
                self.entities.is_live(entity) ==> #[trigger] self.apply(command).entities.is_live(
                    entity,
                ),
    {
        match command {
            WorldCommand::RemoveEntity(id) => {
                self.lemma_remove_entity(Entity(id));
            },
            WorldCommand::RemoveComponent(id, key) => {
                self.lemma_remove_component(Entity(id), key);
            },
            WorldCommand::CreateEntity(components) => {
                if self.entities.can_create() {
                    self.lemma_create_entity();
                    self.entities.lemma_create_entity();
                    self.create_entity().lemma_attach_all(
                        self.entities.next_entity(),
                        components@,
                    );
                }
            },
            WorldCommand::AddComponent(id, key, component) => {
                self.lemma_add_component(Entity(id), key, component);
            },
        }
    }

    /// Carrying out commands keeps the world well formed and leaves every
    /// system's list as it is.
    pub proof fn lemma_handle_commands(self, commands: Seq<WorldCommand<C>>)
        requires
            self.wf(),
        ensures
            self.handle_commands(commands).wf(),
            self.handle_commands(commands).systems == self.systems,
            forall|entity: Entity|
                self.entities.is_live(entity) ==> #[trigger] self.handle_commands(
                    commands,
                ).entities.is_live(entity),
        decreases commands.len(),
    {
        if commands.len() > 0 {
            self.lemma_handle_commands(commands.drop_last());
            self.handle_commands(commands.drop_last()).lemma_apply(commands.last());
        }
    }

    /// An entity that is created is in no system's list: it reaches the
    /// lists with the next update.
    pub proof fn lemma_created_entity_is_unlisted(self, i: int)
        requires
            self.wf(),
            self.entities.can_create(),
            0 <= i < self.systems.len(),
        ensures
            !self.create_entity().systems[i].entities.contains(self.entities.next_entity()),
    {
        self.entities.lemma_create_entity();
    }

    /// Commands are carried out in the order of the sequence: carrying out
    /// one sequence followed by another is carrying out the first, then the
    /// second.
    pub proof fn lemma_handle_commands_in_order(
        self,
        first: Seq<WorldCommand<C>>,
        second: Seq<WorldCommand<C>>,
    )
        ensures
            self.handle_commands(first + second) == self.handle_commands(first).handle_commands(
                second,
            ),
        decreases second.len(),
    {
        if second.len() == 0 {
            assert(first + second =~= first);
        } else {
            self.lemma_handle_commands_in_order(first, second.drop_last());
            assert((first + second).drop_last() =~= first + second.drop_last());
            assert((first + second).last() == second.last());
        }
    }

    /// Two commands are carried out one after the other, the first one
    /// first.
    pub proof fn lemma_two_commands_in_order(self, first: WorldCommand<C>, second: WorldCommand<C>)
        ensures
            self.handle_commands(seq![first, second]) == self.apply(first).apply(second),
    {
        let both = seq![first, second];
        assert(both.drop_last() =~= seq![first]);
        assert(both.last() == second);
        assert(seq![first].drop_last() =~= Seq::<WorldCommand<C>>::empty());
        assert(seq![first].last() == first);
        assert(self.handle_commands(Seq::<WorldCommand<C>>::empty()) == self);
        assert(self.handle_commands(seq![first]) == self.apply(first));
    }
}

/// The record a world keeps of the system in `entry`.
pub open spec fn record_of<C: Component, R, H: EventHandler<C, R>, S: InternalSystem<C, R, H>>(
    entry: (TypeKey, S),
) -> SystemView {
    SystemView {
        key: entry.0,
        name: entry.1.display_name(),
        signature: entry.1.required(),
        entities: entry.1.members(),
    }
}

/// The records of `systems`, in their order.
pub open spec fn records_of<C: Component, R, H: EventHandler<C, R>, S: InternalSystem<C, R, H>>(
    systems: Seq<(TypeKey, S)>,
) -> Seq<SystemView> {
    Seq::new(systems.len(), |i: int| record_of(systems[i]))
}

/// The systems of `systems`, each with its key, in the order of `keys`.
pub open spec fn entries_of<S>(keys: Seq<TypeKey>, systems: Map<TypeKey, S>) -> Seq<
    (TypeKey, S),
> {
    Seq::new(keys.len(), |i: int| (keys[i], systems[keys[i]]))
}

/// `keys` names each system of `systems` once, and nothing else.
pub open spec fn covers<S>(keys: Seq<TypeKey>, systems: Map<TypeKey, S>) -> bool {
    &&& keys.no_duplicates()
    &&& forall|i: int| 0 <= i < keys.len() ==> systems.contains_key(#[trigger] keys[i])
    &&& forall|key: TypeKey| #[trigger] systems.contains_key(key) ==> keys.contains(key)
}

/// Exclusive access to the system registered under `key`. What the system
/// is changed to through the reference is what the map then holds under that
/// key; nothing else changes.
fn system_mut<S>(systems: &mut HashMap<TypeKey, S>, key: TypeKey) -> (system: &mut S)
    requires
        old(systems)@.contains_key(key),
    ensures
        *system == old(systems)@[key],
        final(systems)@ =~= old(systems)@.insert(key, *final(system)),
{
    broadcast use vstd::std_specs::hash::group_hash_axioms;

    match systems.entry(key) {
        Entry::Occupied(entry) => entry.into_mut(),
        Entry::Vacant(_) => vstd::pervasive::unreached(),
    }
}

/// Whether `entity` is in `list`.
fn list_contains(list: &[Entity], entity: &Entity) -> (found: bool)
    ensures
        found == list@.contains(*entity),
{
    let mut next: usize = 0;
    while next < list.len()
        invariant
            next <= list@.len(),
            forall|i: int| 0 <= i < next ==> list@[i] != *entity,
        decreases list@.len() - next,
    {
        if list[next].0 == entity.0 {
            return true;
        }
        next += 1;
    }
    false
}

/// Brings the list of every system in step with `entity`, which is live or
/// not as `live` says and has the signature `signature`.
fn sync_systems<C: Component, R, H: EventHandler<C, R>, S: InternalSystem<C, R, H>>(
    keys: &Vec<TypeKey>,
    systems: &mut HashMap<TypeKey, S>,
    entity: Entity,
    live: bool,
    signature: u32,
)
    requires
        covers(keys@, old(systems)@),
    ensures
        covers(keys@, final(systems)@),
        forall|i: int|
            0 <= i < keys@.len() ==> #[trigger] record_of(entries_of(keys@, final(systems)@)[i])
                == record_of(entries_of(keys@, old(systems)@)[i]).sync(
                entity,
                live && crate::signature::satisfies(
                    signature,
                    old(systems)@[keys@[i]].required(),
                ),
            ),
        forall|i: int|
            0 <= i < keys@.len() ==> (#[trigger] entries_of(keys@, final(systems)@)[i]).1.logic()
                == old(systems)@[keys@[i]].logic(),
{
    let mut index: usize = 0;
    while index < keys.len()
        invariant
            index <= keys@.len(),
            covers(keys@, systems@),
            forall|i: int|
                0 <= i < index ==> #[trigger] record_of(entries_of(keys@, systems@)[i])
                    == record_of(entries_of(keys@, old(systems)@)[i]).sync(
                    entity,
                    live && crate::signature::satisfies(
                        signature,
                        old(systems)@[keys@[i]].required(),
                    ),
                ),
            forall|i: int|
                0 <= i < index ==> (#[trigger] entries_of(keys@, systems@)[i]).1.logic() == old(
                    systems,
                )@[keys@[i]].logic(),
            forall|i: int|
                index <= i < keys@.len() ==> systems@[#[trigger] keys@[i]] == old(
                    systems,
                )@[keys@[i]],
        decreases keys@.len() - index,
    {
        let key = keys[index];
        let ghost before = systems@;
        let system = system_mut(systems, key);
        let required = system.signature();
        if live && signature_satisfies(signature, required) {
            if !list_contains(system.entities(), &entity) {
                system.add_entity(entity);
            }
        } else {
            system.remove_entity(&entity);
        }
        proof {
            assert forall|i: int| 0 <= i < keys@.len() && i != index implies systems@[keys@[i]]
                == before[keys@[i]] by {}
            assert forall|other: TypeKey| #[trigger]
                systems@.contains_key(other) implies keys@.contains(other) by {
                if other != key {
                    assert(before.contains_key(other));
                }
            }
            assert forall|i: int| 0 <= i < index implies #[trigger] record_of(
                entries_of(keys@, systems@)[i],
            ) == record_of(entries_of(keys@, old(systems)@)[i]).sync(
                entity,
                live && crate::signature::satisfies(
                    signature,
                    old(systems)@[keys@[i]].required(),
                ),
            ) by {
                assert(entries_of(keys@, systems@)[i] == entries_of(keys@, before)[i]);
            }
            assert forall|i: int| 0 <= i < index implies (#[trigger] entries_of(
                keys@,
                systems@,
            )[i]).1.logic() == old(systems)@[keys@[i]].logic() by {
                assert(entries_of(keys@, systems@)[i] == entries_of(keys@, before)[i]);
            }
        }
        index += 1;
    }
}

/// Empties the list of `system`, then fills it with `candidates`, in their
/// order.
fn refill<C: Component, R, H: EventHandler<C, R>, S: InternalSystem<C, R, H>>(
    system: &mut S,
    candidates: &Vec<Entity>,
)
    ensures
        final(system).required() == old(system).required(),
        final(system).display_name() == old(system).display_name(),
        final(system).logic() == old(system).logic(),
        final(system).members() == candidates@,
        old(system).members().len() == 0 && candidates@.len() == 0 ==> *final(system) == *old(
            system,
        ),
{
    while system.entities().len() > 0
        invariant
            system.required() == old(system).required(),
            system.display_name() == old(system).display_name(),
            system.logic() == old(system).logic(),
            old(system).members().len() == 0 ==> *system == *old(system),
        decreases system.members().len(),
    {
        let first = system.entities()[0];
        proof {
            assert(system.members()[0] == first);
            lemma_without(system.members(), first);
        }
        system.remove_entity(&first);
    }
    let mut next: usize = 0;
    assert(candidates@.take(0) =~= system.members());
    while next < candidates.len()
        invariant
            next <= candidates@.len(),
            system.required() == old(system).required(),
            system.display_name() == old(system).display_name(),
            system.logic() == old(system).logic(),
            system.members() == candidates@.take(next as int),
            old(system).members().len() == 0 && candidates@.len() == 0 ==> *system == *old(system),
        decreases candidates@.len() - next,
    {
        system.add_entity(candidates[next]);
        assert(system.members() =~= candidates@.take(next + 1));
        next += 1;
    }
    assert(candidates@.take(next as int) =~= candidates@);
}

/// Drops `entity` from the list of every system.
fn drop_from_systems<C: Component, R, H: EventHandler<C, R>, S: InternalSystem<C, R, H>>(
    keys: &Vec<TypeKey>,
    systems: &mut HashMap<TypeKey, S>,
    entity: &Entity,
)
    requires
        covers(keys@, old(systems)@),
    ensures
        covers(keys@, final(systems)@),
        forall|i: int|
            0 <= i < keys@.len() ==> #[trigger] record_of(entries_of(keys@, final(systems)@)[i])
                == record_of(entries_of(keys@, old(systems)@)[i]).drop_entity(*entity),
        forall|i: int|
            0 <= i < keys@.len() ==> (#[trigger] entries_of(keys@, final(systems)@)[i]).1.logic()
                == old(systems)@[keys@[i]].logic(),
{
    let mut index: usize = 0;
    while index < keys.len()
        invariant
            index <= keys@.len(),
            covers(keys@, systems@),
            forall|i: int|
                0 <= i < index ==> #[trigger] record_of(entries_of(keys@, systems@)[i])
                    == record_of(entries_of(keys@, old(systems)@)[i]).drop_entity(*entity),
            forall|i: int|
                0 <= i < index ==> (#[trigger] entries_of(keys@, systems@)[i]).1.logic() == old(
                    systems,
                )@[keys@[i]].logic(),
            forall|i: int|
                index <= i < keys@.len() ==> systems@[#[trigger] keys@[i]] == old(
                    systems,
                )@[keys@[i]],
        decreases keys@.len() - index,
    {
        let key = keys[index];
        let ghost before = systems@;
        let system = system_mut(systems, key);
        system.remove_entity(entity);
        proof {
            assert forall|i: int| 0 <= i < keys@.len() && i != index implies systems@[keys@[i]]
                == before[keys@[i]] by {}
            assert forall|other: TypeKey| #[trigger]
                systems@.contains_key(other) implies keys@.contains(other) by {
                if other != key {
                    assert(before.contains_key(other));
                }
            }
            assert forall|i: int| 0 <= i < index implies #[trigger] record_of(
                entries_of(keys@, systems@)[i],
            ) == record_of(entries_of(keys@, old(systems)@)[i]).drop_entity(*entity) by {
                assert(entries_of(keys@, systems@)[i] == entries_of(keys@, before)[i]);
            }
            assert forall|i: int| 0 <= i < index implies (#[trigger] entries_of(
                keys@,
                systems@,
            )[i]).1.logic() == old(systems)@[keys@[i]].logic() by {
                assert(entries_of(keys@, systems@)[i] == entries_of(keys@, before)[i]);
            }
        }
        index += 1;
    }
}

/// The store and what drives it: entities and their components, the
/// registered systems with the entities each one lists, the resources and
/// the event bus.
///
/// Changes to which entity exists, and to what an entity holds, reach the
/// lists of the registered systems in `update` and nowhere else.
pub struct World<C: Component, R, H: EventHandler<C, R>, S: InternalSystem<C, R, H>> {
    entity_manager: EntityManager<C>,
    /// The registered systems, by key.
    systems: HashMap<TypeKey, S>,
    /// The keys of the registered systems, in the order of their
    /// registration: the order in which the systems are walked.
    system_keys: Vec<TypeKey>,
    resources: Resources<R>,
    entities_to_add: WaitingEntities,
    entities_to_remove: WaitingEntities,
    current_entity: Option<Entity>,
    events: WorldEvents<H>,
}

impl<C: Component, R, H: EventHandler<C, R>, S: InternalSystem<C, R, H>> View for World<C, R, H, S> {
    type V = WorldView<C, R, H>;

    closed spec fn view(&self) -> WorldView<C, R, H> {
        WorldView {
            entities: self.entity_manager@,
            systems: records_of(self.entries()),
            resources: self.resources@,
            handlers: self.events@,
            to_add: self.entities_to_add@,
            to_remove: self.entities_to_remove@,
            current: self.current_entity,
        }
    }
}

impl<C: Component, R, H: EventHandler<C, R>, S: InternalSystem<C, R, H>> World<C, R, H, S> {
    /// The entity manager keeps its own invariant, and every registered
    /// system is named once in the order of the systems.
    pub closed spec fn aligned(&self) -> bool {
        &&& self.entity_manager.wf()
        &&& covers(self.system_keys@, self.systems@)
        &&& self.entities_to_add.wf()
        &&& self.entities_to_remove.wf()
    }

    /// The registered systems, each with its key, in the order of their
    /// registration.
    pub closed spec fn entries(&self) -> Seq<(TypeKey, S)> {
        entries_of(self.system_keys@, self.systems@)
    }

    /// The invariant every world keeps.
    pub open spec fn wf(&self) -> bool {
        self@.wf() && self.aligned()
    }

    /// The registered systems themselves, in the order of their records.
    pub closed spec fn registered(&self) -> Seq<S> {
        Seq::new(self.entries().len(), |i: int| self.entries()[i].1)
    }

    /// What each registered system is apart from its list, in the order of
    /// the records.
    pub open spec fn logics(&self) -> Seq<S::Logic> {
        Seq::new(self.registered().len(), |i: int| self.registered()[i].logic())
    }

    /// Each record is the record of the system at its position.
    pub proof fn lemma_registered(&self)
        ensures
            self.registered().len() == self@.systems.len(),
            forall|i: int|
                0 <= i < self@.systems.len() ==> #[trigger] self@.systems[i] == record_of(
                    (self@.systems[i].key, self.registered()[i]),
                ),
    {
        assert forall|i: int| 0 <= i < self@.systems.len() implies #[trigger] self@.systems[i]
            == record_of((self@.systems[i].key, self.registered()[i])) by {
            assert(self@.systems[i] == record_of(self.entries()[i]));
        }
    }

    /// The map holds a system under `key` exactly when one is registered
    /// under it, and then the one at the key's position.
    proof fn lemma_lookup(&self, key: TypeKey)
        requires
            self.wf(),
        ensures
            self.systems@.contains_key(key) == self@.has_system(key),
            self@.has_system(key) ==> {
                &&& 0 <= self@.system_index(key) < self.system_keys@.len()
                &&& self.system_keys@[self@.system_index(key)] == key
                &&& self.registered()[self@.system_index(key)] == self.systems@[key]
                &&& self@.system(key) == record_of((key, self.systems@[key]))
            },
    {
        assert(self@.system_keys() =~= self.system_keys@) by {
            assert forall|i: int| 0 <= i < self.system_keys@.len() implies self@.system_keys()[i]
                == self.system_keys@[i] by {
                assert(self@.systems[i] == record_of(self.entries()[i]));
            }
        }
        if self@.has_system(key) {
            let index = self@.system_index(key);
            assert(0 <= index < self.system_keys@.len() && self.system_keys@[index] == key);
            assert(self@.systems[index] == record_of(self.entries()[index]));
        }
    }

    /// The position of the system registered under `key`.
    fn find_system(&self, key: TypeKey) -> (found: Option<usize>)
        requires
            self.wf(),
        ensures
            match found {
                Some(index) => self@.has_system(key) && index == self@.system_index(key) && index
                    < self.system_keys@.len(),
                None => !self@.has_system(key),
            },
    {
        proof {
            self.lemma_lookup(key);
        }
        let mut index: usize = 0;
        while index < self.system_keys.len()
            invariant
                self.wf(),
                index <= self.system_keys@.len(),
                forall|i: int| 0 <= i < index ==> self.system_keys@[i] != key,
            decreases self.system_keys@.len() - index,
        {
            if self.system_keys[index] == key {
                proof {
                    assert(self@.systems[index as int] == record_of(self.entries()[index as int]));
                    self@.lemma_system_index(key, index as int);
                }
                return Some(index);
            }
            index += 1;
        }
        proof {
            if self@.system_keys().contains(key) {
                let i = choose|i: int|
                    0 <= i < self@.system_keys().len() && self@.system_keys()[i] == key;
                assert(self@.systems[i] == record_of(self.entries()[i]));
                assert(self.system_keys@[i] == key);
            }
        }
        None
    }

    /// A world with nothing in it.
    pub fn new() -> (world: Self)
        ensures
            world.wf(),
            world@ == WorldView::<C, R, H>::empty(),
    {
        let world = Self {
            entity_manager: EntityManager::new(),
            systems: HashMap::new(),
            system_keys: Vec::new(),
            resources: Resources::new(),
            entities_to_add: WaitingEntities::new(),
            entities_to_remove: WaitingEntities::new(),
            current_entity: None,
            events: WorldEvents::new(),
        };
        assert(world@ =~~= WorldView::<C, R, H>::empty());
        world
    }

    /// Applies what has been waiting: brings the systems' lists in step with
    /// every entity that was created or changed since the last update, in
    /// the order in which they came to wait, then destroys every entity
    /// whose removal was asked for.
    pub fn update(&mut self)
        requires
            old(self).wf(),
        ensures
            final(self).wf(),
            final(self)@ == old(self)@.update(),
            final(self).logics() == old(self).logics(),
    {
        let to_add = self.entities_to_add.take_all();
        let ghost start = self@;
        assert(start =~~= WorldView { to_add: Seq::empty(), ..old(self)@ });
        assert(start.system_keys() =~= old(self)@.system_keys());
        let mut next: usize = 0;
        assert(to_add@.take(0) =~= Seq::<Entity>::empty());
        while next < to_add.len()
            invariant
                next <= to_add@.len(),
                self.wf(),
                self.logics() == old(self).logics(),
                self@ == start.sync_all(to_add@.take(next as int)),
            decreases to_add@.len() - next,
        {
            self.add_entity_to_systems(to_add[next]);
            proof {
                let done = to_add@.take(next + 1);
                assert(done.drop_last() =~= to_add@.take(next as int));
                assert(done.last() == to_add@[next as int]);
            }
            next += 1;
        }
        proof {
            assert(to_add@.take(next as int) =~= to_add@);
            start.lemma_sync_all(to_add@);
        }

        let to_remove = self.entities_to_remove.take_all();
        let ghost middle = self@;
        assert(middle =~~= WorldView { to_remove: Seq::empty(), ..start.sync_all(to_add@) });
        assert(middle.system_keys() =~= start.sync_all(to_add@).system_keys());
        let mut next: usize = 0;
        assert(to_remove@.take(0) =~= Seq::<Entity>::empty());
        while next < to_remove.len()
            invariant
                next <= to_remove@.len(),
                self.wf(),
                self.logics() == old(self).logics(),
                self@ == middle.kill_all(to_remove@.take(next as int)),
            decreases to_remove@.len() - next,
        {
            self.kill_entity(&to_remove[next]);
            proof {
                let done = to_remove@.take(next + 1);
                assert(done.drop_last() =~= to_remove@.take(next as int));
                assert(done.last() == to_remove@[next as int]);
            }
            next += 1;
        }
        assert(to_remove@.take(next as int) =~= to_remove@);
    }

    /// Creates an entity and makes it the current one. It reaches the
    /// systems' lists with the next update.
    pub fn create_entity(&mut self) -> (world: &mut Self)
        requires
            old(self).wf(),
            old(self)@.entities.can_create(),
        ensures
            world.wf(),
            world@ == old(self)@.create_entity(),
            world.registered() == old(self).registered(),
            *final(self) == *final(world),
    {
        proof {
            old(self)@.lemma_create_entity();
        }
        let entity = self.entity_manager.create_entity();
        self.current_entity = Some(entity);
        self.entities_to_add.insert(entity);
        assert(self@ =~~= old(self)@.create_entity());
        self
    }

    /// Attaches `component` of kind `key` to the current entity.
    pub fn with_component(&mut self, key: TypeKey, component: C) -> (world: &mut Self)
        requires
            old(self).wf(),
            old(self)@.current.is_some(),
            old(self)@.entities.add_error(old(self)@.current.unwrap(), key).is_none(),
        ensures
            world.wf(),
            world@ == old(self)@.add_component(old(self)@.current.unwrap(), key, component),
            world.registered() == old(self).registered(),
            *final(self) == *final(world),
    {
        let entity = self.current_entity.unwrap();
        match self.add_component(&entity, key, component) {
            Ok(()) => {},
            Err(_) => vstd::pervasive::unreached(),
        }
        self
    }

    /// The current entity: the one created last.
    pub fn finish_entity(&mut self) -> (entity: Entity)
        requires
            old(self)@.current.is_some(),
        ensures
            entity == old(self)@.current.unwrap(),
            *final(self) == *old(self),
    {
        self.current_entity.unwrap()
    }

    /// Brings the list of every system in step with `entity`: a system lists
    /// it afterwards exactly when the entity is live and its signature holds
    /// every bit the system asks for.
    fn add_entity_to_systems(&mut self, entity: Entity)
        requires
            old(self).wf(),
        ensures
            final(self).wf(),
            final(self)@ == old(self)@.sync_entity(entity),
            final(self).logics() == old(self).logics(),
    {
        proof {
            old(self)@.lemma_sync_entity(entity);
        }
        let (live, signature) = match self.entity_manager.get_signature(&entity) {
            Ok(signature) => (true, *signature),
            Err(_) => (false, 0),
        };
        sync_systems(&self.system_keys, &mut self.systems, entity, live, signature);
        assert(self@ =~~= old(self)@.sync_entity(entity));
        assert(self.logics() =~= old(self).logics());
    }

    /// Asks for the removal of `entity`. It is destroyed with the next
    /// update and is as it was until then.
    pub fn remove_entity(&mut self, entity: &Entity)
        requires
            old(self).wf(),
        ensures
            final(self).wf(),
            final(self)@ == old(self)@.remove_entity(*entity),
            final(self).registered() == old(self).registered(),
    {
        proof {
            old(self)@.lemma_remove_entity(*entity);
        }
        self.entities_to_remove.insert(*entity);
        assert(self@ =~~= old(self)@.remove_entity(*entity));
    }

    /// Destroys `entity`: drops it from every system's list, then removes it
    /// with all it holds and frees its id.
    fn kill_entity(&mut self, entity: &Entity)
        requires
            old(self).wf(),
        ensures
            final(self).wf(),
            final(self)@ == old(self)@.kill_entity(*entity),
            final(self).logics() == old(self).logics(),
    {
        proof {
            old(self)@.lemma_kill_entity(*entity);
        }
        drop_from_systems(&self.system_keys, &mut self.systems, entity);
        self.entity_manager.remove_entity(entity);
        self.entities_to_add.remove(entity);
        assert(self@ =~~= old(self)@.kill_entity(*entity));
        assert(self.logics() =~= old(self).logics());
    }

    /// Attaches `component` of kind `key` to `entity`, in place of the one
    /// of that kind it held. Where this is refused nothing changes.
    pub fn add_component(&mut self, entity: &Entity, key: TypeKey, component: C) -> (r: Result<
        (),
        EcsErrors,
    >)
        requires
            old(self).wf(),
        ensures
            final(self).wf(),
            final(self)@ == old(self)@.add_component(*entity, key, component),
            final(self).registered() == old(self).registered(),
            r == match old(self)@.entities.add_error(*entity, key) {
                Some(e) => Err::<(), EcsErrors>(e),
                None => Ok::<(), EcsErrors>(()),
            },
    {
        proof {
            old(self)@.lemma_add_component(*entity, key, component);
        }
        let r = self.entity_manager.add_component(entity, key, component);
        if r.is_ok() {
            self.entities_to_add.insert(*entity);
        }
        assert(self@ =~~= old(self)@.add_component(*entity, key, component));
        r
    }

    /// Takes the component of kind `key` from `entity`. Taking what the
    /// entity never held succeeds. Where this is refused nothing changes.
    pub fn remove_component(&mut self, entity: &Entity, key: TypeKey) -> (r: Result<(), EcsErrors>)
        requires
            old(self).wf(),
        ensures
            final(self).wf(),
            final(self)@ == old(self)@.remove_component(*entity, key),
            final(self).registered() == old(self).registered(),
            r == match old(self)@.entities.remove_error(*entity, key) {
                Some(e) => Err::<(), EcsErrors>(e),
                None => Ok::<(), EcsErrors>(()),
            },
    {
        proof {
            old(self)@.lemma_remove_component(*entity, key);
        }
        let r = self.entity_manager.remove_component(entity, key);
        if r.is_ok() {
            self.entities_to_add.insert(*entity);
        }
        assert(self@ =~~= old(self)@.remove_component(*entity, key));
        r
    }

    /// The same as `remove_component`, for a kind named by a borrowed key;
    /// a refusal is passed over.
    fn remove_component_with_id(&mut self, entity: &Entity, comp_id: &TypeKey)
        requires
            old(self).wf(),
        ensures
            final(self).wf(),
            final(self)@ == old(self)@.remove_component(*entity, *comp_id),
            final(self).registered() == old(self).registered(),
    {
        let _ = self.remove_component(entity, *comp_id);
    }

    /// Exclusive access to the component of kind `key` that `entity` holds;
    /// none where it holds none. What is written through the reference is
    /// the component the entity then holds; nothing else changes.
    pub fn component_mut(&mut self, entity: &Entity, key: TypeKey) -> (r: Option<&mut C>)
        requires
            old(self).wf(),
        ensures
            match r {
                Some(component) => old(self)@.entities.has_component(*entity, key) && *component
                    == old(self)@.entities.component(*entity, key) && final(self)@ =~~= old(
                    self,
                )@.replace_component(*entity, key, *final(component)),
                None => !old(self)@.entities.has_component(*entity, key) && final(self)@ == old(
                    self,
                )@,
            },
            final(self).wf(),
            final(self).registered() == old(self).registered(),
    {
        proof {
            if old(self)@.entities.has_component(*entity, key) {
                assert forall|component: C|
                    (#[trigger] old(self)@.replace_component(*entity, key, component)).wf() by {
                    old(self)@.lemma_replace_component(*entity, key, component);
                }
            }
        }
        self.entity_manager.component_mut(entity, key)
    }

    /// Exclusive access to the resource of kind `key`. What the resource is
    /// changed to through the reference is what the world then holds for
    /// that kind; nothing else changes.
    pub fn resource_mut(&mut self, key: TypeKey) -> (resource: &mut Resource<R>)
        requires
            old(self)@.resources.contains_key(key),
        ensures
            resource@ == old(self)@.resources[key],
            final(self)@ =~~= (WorldView {
                resources: old(self)@.resources.insert(key, final(resource)@),
                ..old(self)@
            }),
            final(self).registered() == old(self).registered(),
            old(self).wf() ==> final(self).wf(),
    {
        self.resources.get_mut(key)
    }

    /// Whether `entity` holds a component of kind `key`. An entity that is
    /// not live holds nothing, and nothing holds a kind that was never
    /// registered.
    pub fn has_component(&self, entity: &Entity, key: TypeKey) -> (held: bool)
        requires
            self.wf(),
        ensures
            held == self@.entities.has_component(*entity, key),
    {
        proof {
            if !self@.entities.is_live(*entity) {
                self@.entities.lemma_dead_entity_holds_nothing(*entity, key);
            }
        }
        match self.entity_manager.has_component(entity, key) {
            Ok(held) => held,
            Err(_) => false,
        }
    }

    /// The signature mask of every registered kind of component, by key.
    pub fn get_component_signatures(&self) -> (masks: HashMap<TypeKey, u32>)
        requires
            self.wf(),
        ensures
            masks@ == self@.entities.components.signature_map(),
    {
        self.entity_manager.get_component_signatures()
    }

    /// A read view over the store as it is now.
    pub fn query(&self) -> (query: Query<'_, C, R>)
        requires
            self.wf(),
        ensures
            query.wf(),
            query.entities_view() == self@.entities,
            query.components_view() == self@.entities.components,
            query.resources_view() == self@.resources,
    {
        Query::new(&self.entity_manager, self.entity_manager.component_manager(), &self.resources)
    }

    /// Stores `resource` as the resource of kind `key`, in place of an
    /// earlier one of that kind.
    pub fn add_resource(&mut self, key: TypeKey, resource: R)
        ensures
            final(self)@ == (WorldView {
                resources: old(self)@.resources.insert(key, resource),
                ..old(self)@
            }),
            final(self).registered() == old(self).registered(),
    {
        self.resources.add(key, resource);
    }

    /// Drops the resource of kind `key`, if there is one.
    pub fn delete_resource(&mut self, key: TypeKey)
        ensures
            final(self)@ == (WorldView { resources: old(self)@.resources.remove(key), ..old(self)@ }),
            final(self).registered() == old(self).registered(),
    {
        self.resources.delete(key);
    }

    /// The event bus, to subscribe handlers. What is subscribed through the
    /// reference is what the world then delivers events to.
    pub fn events(&mut self) -> (events: &mut WorldEvents<H>)
        ensures
            events@ == old(self)@.handlers,
            final(self)@ == (WorldView { handlers: final(events)@, ..old(self)@ }),
            final(self).registered() == old(self).registered(),
            old(self).wf() ==> final(self).wf(),
    {
        &mut self.events
    }

    /// Whether an entity can be created without leaving the machine word.
    pub fn can_create_entity(&self) -> (room: bool)
        ensures
            room == self@.entities.can_create(),
    {
        self.entity_manager.can_create()
    }

    /// Carries out one command.
    fn apply_command(&mut self, command: WorldCommand<C>)
        requires
            old(self).wf(),
        ensures
            final(self).wf(),
            final(self)@ == old(self)@.apply(command),
            final(self).registered() == old(self).registered(),
    {
        match command {
            WorldCommand::RemoveEntity(id) => self.remove_entity(&Entity(id)),
            WorldCommand::RemoveComponent(id, comp_id) => self.remove_component_with_id(
                &Entity(id),
                &comp_id,
            ),
            WorldCommand::AddComponent(id, key, component) => {
                let _ = self.add_component(&Entity(id), key, component);
            },
            WorldCommand::CreateEntity(components) => {
                if self.can_create_entity() {
                    let entity = self.create_entity().finish_entity();
                    let ghost created = self@;
                    let ghost wanted = components@;
                    for pair in it: components
                        invariant
                            it.seq() == wanted,
                            self.wf(),
                            self.registered() == old(self).registered(),
                            self@ == created.attach_all(entity, wanted.take(it.index() as int)),
                    {
                        proof {
                            let done = wanted.take(it.index() + 1);
                            assert(done.drop_last() =~= wanted.take(it.index() as int));
                            assert(done.last() == pair);
                        }
                        let _ = self.add_component(&entity, pair.0, pair.1);
                    }
                    assert(wanted.take(wanted.len() as int) =~= wanted);
                }
            },
        }
    }

    /// Carries out the commands of `command_buffer`, the one queued first
    /// first.
    pub fn handle_commands(&mut self, command_buffer: CommandBuffer<C>)
        requires
            old(self).wf(),
        ensures
            final(self).wf(),
            final(self)@ == old(self)@.handle_commands(command_buffer@),
            final(self).registered() == old(self).registered(),
    {
        let mut commands = command_buffer.into_iter();
        let ghost all = commands@;
        let ghost mut done: int = 0;
        assert(all.take(0) =~= Seq::<WorldCommand<C>>::empty());
        while commands.len() > 0
            invariant
                self.wf(),
                0 <= done <= all.len(),
                commands@ == all.skip(done),
                self@ == old(self)@.handle_commands(all.take(done)),
                self.registered() == old(self).registered(),
            decreases commands@.len(),
        {
            let command = commands.pop_front().unwrap();
            proof {
                let handled = all.take(done + 1);
                assert(handled.drop_last() =~= all.take(done));
                assert(handled.last() == command);
                assert(commands@ =~= all.skip(done + 1));
                done = done + 1;
            }
            self.apply_command(command);
        }
        assert(all.take(done) =~= all);
    }

    /// Delivers `event` to every handler subscribed to kind `key`, in the
    /// order of their subscription, each on a read view of the world as it
    /// is and on one command queue that starts out empty; then carries out
    /// the queued commands. With no such handler nothing happens.
    pub fn emit_event(&mut self, key: TypeKey, event: H::Event)
        requires
            old(self).wf(),
        ensures
            final(self).wf(),
            exists|query: Query<C, R>, commands: Seq<WorldCommand<C>>|
                {
                    &&& query.entities_view() == old(self)@.entities
                    &&& query.components_view() == old(self)@.entities.components
                    &&& query.resources_view() == old(self)@.resources
                    &&& #[trigger] dispatched(
                        handlers_for(old(self)@.handlers, key),
                        &event,
                        &query,
                        Seq::empty(),
                        commands,
                    )
                    &&& final(self)@ == old(self)@.handle_commands(commands)
                },
            handlers_for(old(self)@.handlers, key).len() == 0 ==> final(self)@ == old(self)@,
            final(self).registered() == old(self).registered(),
    {
        let mut cmd_buffer = CommandBuffer::new();
        let query = self.query();
        self.emiter().emit(key, event, &mut cmd_buffer, &query);
        let ghost commands = cmd_buffer@;
        proof {
            assert(dispatched(
                handlers_for(old(self)@.handlers, key),
                &event,
                &query,
                Seq::empty(),
                commands,
            ));
        }
        self.handle_commands(cmd_buffer);
    }

    /// Registers `system` under `key`, in place of the system registered
    /// under that key before. The system's list is emptied; with `update` it
    /// is then filled with the live entities that satisfy the system's
    /// signature, each once, in ascending order of their index. No other
    /// system changes.
    pub fn add_system(&mut self, key: TypeKey, system: S, update: bool)
        requires
            old(self).wf(),
        ensures
            final(self).wf(),
            final(self)@ == old(self)@.add_system(
                key,
                system.display_name(),
                system.required(),
                update,
            ),
            final(self).registered().len() == final(self)@.systems.len(),
            final(self).registered()[final(self)@.system_index(key)].logic() == system.logic(),
            system.members().len() == 0 && (!update || old(self)@.entities.matching(
                system.required(),
            ).len() == 0) ==> final(self).registered()[final(self)@.system_index(key)] == system,
            forall|i: int|
                0 <= i < old(self).registered().len() && i != final(self)@.system_index(key)
                    ==> final(self).registered()[i] == #[trigger] old(self).registered()[i],
    {
        let mut system = system;
        let ghost given = system;
        let candidates = if update {
            self.entity_manager.entities_with(system.signature())
        } else {
            Vec::new()
        };
        refill(&mut system, &candidates);
        proof {
            old(self)@.entities.lemma_matching(given.required());
        }
        let ghost place: int;
        proof {
            old(self).lemma_lookup(key);
        }
        match self.find_system(key) {
            Some(index) => {
                proof {
                    place = index as int;
                }
            },
            None => {
                self.system_keys.push(key);
                proof {
                    place = self.system_keys@.len() - 1;
                }
            },
        }
        self.systems.insert(key, system);
        proof {
            broadcast use vstd::std_specs::hash::group_hash_axioms;

            let expected = old(self)@.add_system(
                key,
                given.display_name(),
                given.required(),
                update,
            );
            assert(self.system_keys@[place] == key);
            assert forall|i: int| 0 <= i < self.system_keys@.len() && i != place implies (
            #[trigger] self.system_keys@[i]) != key && self.entries()[i] == old(self).entries()[i] by {
                assert(old(self).system_keys@[i] == self.system_keys@[i]);
                assert(old(self)@.systems[i] == record_of(old(self).entries()[i]));
                if self.system_keys@[i] == key {
                    old(self)@.lemma_system_index(key, i);
                }
            }
            assert(covers(self.system_keys@, self.systems@)) by {
                assert forall|other: TypeKey| #[trigger]
                    self.systems@.contains_key(other) implies self.system_keys@.contains(
                    other,
                ) by {
                    if other != key {
                        assert(old(self).systems@.contains_key(other));
                        let i = choose|i: int|
                            0 <= i < old(self).system_keys@.len() && old(self).system_keys@[i]
                                == other;
                        assert(self.system_keys@[i] == other);
                    }
                }
                assert forall|i: int| 0 <= i < self.system_keys@.len() implies self.systems@.contains_key(
                    #[trigger] self.system_keys@[i],
                ) by {
                    if i != place {
                        assert(old(self).systems@.contains_key(old(self).system_keys@[i]));
                    }
                }
            }
            assert forall|i: int| 0 <= i < self@.systems.len() implies self@.systems[i]
                == expected.systems[i] by {
                assert(self@.systems[i] == record_of(self.entries()[i]));
                if i != place {
                    assert(old(self)@.systems[i] == record_of(old(self).entries()[i]));
                }
            }
            assert(self@.systems =~= expected.systems);
            assert(self@ =~~= expected);
            assert(self@.system_keys().no_duplicates()) by {
                let keys = self@.system_keys();
                let before = old(self)@.system_keys();
                assert forall|i: int, j: int|
                    0 <= i < keys.len() && 0 <= j < keys.len() && i != j implies keys[i]
                    != keys[j] by {
                    if i < before.len() && j < before.len() {
                        assert(before[i] != before[j]);
                    }
                    if i < before.len() {
                        assert(before[i] == old(self)@.systems[i].key);
                    }
                    if j < before.len() {
                        assert(before[j] == old(self)@.systems[j].key);
                    }
                }
            }
            self@.lemma_system_index(key, place);
            assert forall|i: int, listed: Entity|
                0 <= i < self@.systems.len() && #[trigger] self@.systems[i].entities.contains(
                    listed,
                ) implies self@.entities.is_live(listed) by {
                if i != place {
                    assert(old(self)@.systems[i].entities.contains(listed));
                }
            }
        }
    }

    /// Drops the system registered under `key`, if there is one.
    pub fn remove_system(&mut self, key: TypeKey)
        requires
            old(self).wf(),
        ensures
            final(self).wf(),
            final(self)@ == old(self)@.remove_system(key),
            final(self).registered() == if old(self)@.has_system(key) {
                old(self).registered().remove(old(self)@.system_index(key))
            } else {
                old(self).registered()
            },
    {
        proof {
            old(self).lemma_lookup(key);
        }
        match self.find_system(key) {
            Some(index) => {
                let _ = self.system_keys.remove(index);
                let _ = self.systems.remove(&key);
                proof {
                    broadcast use vstd::std_specs::hash::group_hash_axioms;

                    let expected = old(self)@.remove_system(key);
                    assert forall|i: int| 0 <= i < self.system_keys@.len() implies (
                    #[trigger] self.system_keys@[i]) != key && self.entries()[i] == old(
                        self,
                    ).entries()[if i < index { i } else { i + 1 }] by {
                        let from = if i < index { i } else { i + 1 };
                        assert(self.system_keys@[i] == old(self).system_keys@[from]);
                        assert(old(self).system_keys@[from] != old(self).system_keys@[index as int]);
                    }
                    assert(covers(self.system_keys@, self.systems@)) by {
                        assert forall|other: TypeKey| #[trigger]
                            self.systems@.contains_key(other) implies self.system_keys@.contains(
                            other,
                        ) by {
                            assert(old(self).systems@.contains_key(other) && other != key);
                            let i = choose|i: int|
                                0 <= i < old(self).system_keys@.len() && old(
                                    self,
                                ).system_keys@[i] == other;
                            let to = if i < index { i } else { i - 1 };
                            assert(self.system_keys@[to] == other);
                        }
                        assert forall|i: int| 0 <= i < self.system_keys@.len() implies self.systems@.contains_key(
                            #[trigger] self.system_keys@[i],
                        ) by {
                            let from = if i < index { i } else { i + 1 };
                            assert(old(self).systems@.contains_key(old(self).system_keys@[from]));
                        }
                    }
                    assert forall|i: int| 0 <= i < self@.systems.len() implies self@.systems[i]
                        == expected.systems[i] by {
                        let from = if i < index { i } else { i + 1 };
                        assert(self@.systems[i] == record_of(self.entries()[i]));
                        assert(old(self)@.systems[from] == record_of(old(self).entries()[from]));
                    }
                    assert(self@.systems =~= expected.systems);
                    assert(self@ =~~= expected);
                    assert(self.registered() =~= old(self).registered().remove(index as int));
                    let keys = self@.system_keys();
                    let before = old(self)@.system_keys();
                    assert forall|i: int, j: int|
                        0 <= i < keys.len() && 0 <= j < keys.len() && i != j implies keys[i]
                        != keys[j] by {
                        let from_i = if i < index { i } else { i + 1 };
                        let from_j = if j < index { j } else { j + 1 };
                        assert(keys[i] == before[from_i]);
                        assert(keys[j] == before[from_j]);
                    }
                    assert forall|i: int, listed: Entity|
                        0 <= i < self@.systems.len() && #[trigger] self@.systems[i].entities.contains(
                            listed,
                        ) implies self@.entities.is_live(listed) by {
                        let from = if i < index { i } else { i + 1 };
                        assert(old(self)@.systems[from].entities.contains(listed));
                    }
                }
            },
            None => {},
        }
    }

    /// Runs one pass of the system registered under `key` on a read view of
    /// the world as it is and on an empty command queue, then carries out
    /// the commands the system queued, in the order in which it queued them.
    /// The pass itself changes nothing in the world but the system. With no
    /// system under that key nothing happens.
    pub fn update_system(&mut self, key: TypeKey)
        requires
            old(self).wf(),
        ensures
            final(self).wf(),
            final(self).registered().len() == old(self).registered().len(),
            old(self)@.has_system(key) ==> exists|query: Query<C, R>, commands: Seq<WorldCommand<C>>|
                {
                    &&& query.entities_view() == old(self)@.entities
                    &&& query.components_view() == old(self)@.entities.components
                    &&& query.resources_view() == old(self)@.resources
                    &&& #[trigger] old(self).registered()[old(self)@.system_index(key)].passes(
                        &final(self).registered()[old(self)@.system_index(key)],
                        &query,
                        commands,
                    )
                    &&& final(self)@ == old(self)@.handle_commands(commands)
                },
            forall|i: int|
                0 <= i < old(self).registered().len() && !(old(self)@.has_system(key) && i == old(
                    self,
                )@.system_index(key)) ==> final(self).registered()[i] == old(self).registered()[i],
            !old(self)@.has_system(key) ==> final(self)@ == old(self)@,
    {
        match self.find_system(key) {
            Some(index) => {
                let query = Query::new(
                    &self.entity_manager,
                    self.entity_manager.component_manager(),
                    &self.resources,
                );
                let emitter = self.events.emiter();
                proof {
                    self.lemma_lookup(key);
                }
                let system = system_mut(&mut self.systems, key);
                let command_buffer = system.call(query, emitter);
                let ghost commands = command_buffer@;
                let ghost passed = self.registered();
                proof {
                    assert(self@.systems =~= old(self)@.systems);
                    assert(self@ =~~= old(self)@);
                    assert(old(self).registered()[index as int].passes(
                        &passed[index as int],
                        &query,
                        commands,
                    ));
                }
                self.handle_commands(command_buffer);
            },
            None => {},
        }
    }

    /// Whether a system is registered under `key`.
    pub fn has_system(&self, key: TypeKey) -> (found: bool)
        requires
            self.wf(),
        ensures
            found == self@.has_system(key),
    {
        self.find_system(key).is_some()
    }

    /// The system registered under `key`.
    pub fn get_system(&self, key: TypeKey) -> (system: &S)
        requires
            self.wf(),
            self@.has_system(key),
        ensures
            *system == self.registered()[self@.system_index(key)],
            self@.system(key) == record_of((key, *system)),
    {
        match self.find_system(key) {
            Some(index) => {
                proof {
                    broadcast use vstd::std_specs::hash::group_hash_axioms;

                    self.lemma_lookup(key);
                }
                match self.systems.get(&key) {
                    Some(system) => system,
                    None => vstd::pervasive::unreached(),
                }
            },
            None => vstd::pervasive::unreached(),
        }
    }

    /// Exclusive access to the system registered under `key`. What the
    /// system is changed to through the reference is what the world then
    /// holds under that key; nothing else changes. The world keeps its
    /// invariant where the system's list still names live entities only:
    /// that is for the caller to see to.
    pub fn get_system_mut(&mut self, key: TypeKey) -> (system: &mut S)
        requires
            old(self).wf(),
            old(self)@.has_system(key),
        ensures
            *system == old(self).registered()[old(self)@.system_index(key)],
            old(self)@.system(key) == record_of((key, *system)),
            final(self).registered() =~= old(self).registered().update(
                old(self)@.system_index(key),
                *final(system),
            ),
            final(self)@ =~~= (WorldView {
                systems: old(self)@.systems.update(
                    old(self)@.system_index(key),
                    record_of((key, *final(system))),
                ),
                ..old(self)@
            }),
            final(self).aligned(),
    {
        match self.find_system(key) {
            Some(index) => {
                proof {
                    self.lemma_lookup(key);
                }
                system_mut(&mut self.systems, key)
            },
            None => vstd::pervasive::unreached(),
        }
    }

    /// A handle that delivers events to the handlers of this world.
    pub fn emiter(&self) -> (emitter: EventEmitter<'_, H>)
        ensures
            emitter@ == self@.handlers,
    {
        self.events.emiter()
    }
}

} // verus!
