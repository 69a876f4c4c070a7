use crate::command_buffer::{CommandBuffer, WorldCommand};
use crate::components::Component;
use crate::entities::Entity;
use crate::events::{EventEmitter, EventHandler};
use crate::query::Query;
use crate::TypeKey;
use std::collections::HashMap;
use vstd::prelude::*;

verus! {

/// The list `entities` without `entity`, the others in their order.
pub open spec fn without(entities: Seq<Entity>, entity: Entity) -> Seq<Entity> {
    entities.filter(|other: Entity| other != entity)
}

/// `without` holds exactly the other members of the list, and adds no
/// second occurrence of any.
pub proof fn lemma_without(entities: Seq<Entity>, entity: Entity)
    ensures
        forall|other: Entity| #[trigger]
            without(entities, entity).contains(other) <==> other != entity && entities.contains(
                other,
            ),
        entities.no_duplicates() ==> without(entities, entity).no_duplicates(),
        !entities.contains(entity) ==> without(entities, entity) == entities,
        without(entities, entity).len() <= entities.len(),
        entities.contains(entity) ==> without(entities, entity).len() < entities.len(),
    decreases entities.len(),
{
    reveal(Seq::filter);
    let kept = without(entities, entity);
    if entities.len() > 0 {
        let front = entities.drop_last();
        let last = entities.last();
        lemma_without(front, entity);
        let kept_front = without(front, entity);
        assert forall|other: Entity| #[trigger]
            kept.contains(other) <==> other != entity && entities.contains(other) by {
            if kept.contains(other) {
                let k = choose|k: int| 0 <= k < kept.len() && kept[k] == other;
                if last != entity && k == kept.len() - 1 {
                    assert(entities[entities.len() - 1] == other);
                } else {
                    assert(kept_front[k] == other);
                    assert(kept_front.contains(other));
                    let i = choose|i: int| 0 <= i < front.len() && front[i] == other;
                    assert(entities[i] == other);
                }
            }
            if other != entity && entities.contains(other) {
                let i = choose|i: int| 0 <= i < entities.len() && entities[i] == other;
                if i < front.len() {
                    assert(front[i] == other);
                    assert(kept_front.contains(other));
                    let k = choose|k: int| 0 <= k < kept_front.len() && kept_front[k] == other;
                    assert(kept[k] == other);
                } else {
                    assert(kept[kept.len() - 1] == other);
                }
            }
        }
        if entities.no_duplicates() {
            assert(front.no_duplicates());
            if last != entity {
                assert(!kept_front.contains(last)) by {
                    if front.contains(last) {
                        let i = choose|i: int| 0 <= i < front.len() && front[i] == last;
                        assert(entities[i] == entities[entities.len() - 1]);
                    }
                }
            }
        }
        if entities.contains(entity) && last != entity {
            let i = choose|i: int| 0 <= i < entities.len() && entities[i] == entity;
            assert(front[i] == entity);
        }
        if !entities.contains(entity) {
            assert(!front.contains(entity)) by {
                if front.contains(entity) {
                    let i = choose|i: int| 0 <= i < front.len() && front[i] == entity;
                    assert(entities[i] == entity);
                }
            }
            assert(last != entity) by {
                assert(entities[entities.len() - 1] == last);
            }
            assert(kept == kept_front.push(last));
            assert(front.push(last) =~= entities);
        }
    }
}

/// The logic of one system. It reads the store through `query`, looks at the
/// entities it is matched with, and queues the changes it wants.
pub trait System<C: Component, R, H: EventHandler<C, R>> {
    /// What one pass may do: `after` is a state, and `queued` a command
    /// queue, that the system may leave when it is handed the store behind
    /// `query`, the entities `entities` and the queue `before`. A system
    /// that does not say otherwise may leave any state and any queue.
    open spec fn acts(
        &self,
        after: &Self,
        query: &Query<'_, C, R>,
        entities: Seq<Entity>,
        before: Seq<WorldCommand<C>>,
        queued: Seq<WorldCommand<C>>,
    ) -> bool {
        true
    }

    /// Runs one pass of the system.
    fn action(
        &mut self,
        query: Query<'_, C, R>,
        entities: &[Entity],
        command_buffer: &mut CommandBuffer<C>,
        emitter: EventEmitter<'_, H>,
    )
        requires
            query.wf(),
        ensures
            old(self).acts(
                final(self),
                &query,
                entities@,
                old(command_buffer)@,
                final(command_buffer)@,
            ),
    ;
}

/// Gathers what a system needs before it can be registered: its logic and
/// the kinds of component it asks for.
pub struct SystemBuilder<T> {
    comp_signatures: HashMap<TypeKey, u32>,
    signature: u32,
    name: String,
    system: Option<T>,
}

impl<T> SystemBuilder<T> {
    /// The signature mask of each kind the builder knows.
    pub closed spec fn masks(&self) -> Map<TypeKey, u32> {
        self.comp_signatures@
    }

    /// The signature gathered so far: the masks of all kinds asked for.
    pub closed spec fn required(&self) -> u32 {
        self.signature
    }

    /// The logic handed over so far.
    pub closed spec fn logic(&self) -> Option<T> {
        self.system
    }

    /// The display name of the system.
    pub closed spec fn display_name(&self) -> Seq<char> {
        self.name@
    }

    /// A builder for a system called `name` that knows the given kinds, asks
    /// for none yet and has no logic yet.
    pub fn new(name: &str, comp_signatures: HashMap<TypeKey, u32>) -> (builder: Self)
        ensures
            builder.masks() == comp_signatures@,
            builder.required() == 0,
            builder.display_name() == name@,
            builder.logic().is_none(),
    {
        Self { comp_signatures, signature: 0, name: name.to_owned(), system: None }
    }

    /// Hands over the logic of the system.
    pub fn with_action(self, system: T) -> (builder: Self)
        ensures
            builder.masks() == self.masks(),
            builder.required() == self.required(),
            builder.display_name() == self.display_name(),
            builder.logic() == Some(system),
    {
        let mut builder = self;
        builder.system = Some(system);
        builder
    }

    /// Asks, in addition, for a component of kind `key`.
    pub fn with_component(self, key: TypeKey) -> (builder: Self)
        requires
            self.masks().contains_key(key),
        ensures
            builder.masks() == self.masks(),
            builder.required() == self.required() | self.masks()[key],
            builder.display_name() == self.display_name(),
            builder.logic() == self.logic(),
    {
        broadcast use vstd::std_specs::hash::group_hash_axioms;

        let mut builder = self;
        let mask = *builder.comp_signatures.get(&key).unwrap();
        builder.signature = builder.signature | mask;
        builder
    }

    /// The system: it asks for the gathered signature and tracks no entity
    /// yet.
    pub fn build(self) -> (system: GameSystem<T>)
        requires
            self.logic().is_some(),
        ensures
            system.required() == self.required(),
            system.display_name() == self.display_name(),
            system.members() == Seq::<Entity>::empty(),
            system.logic() == self.logic().unwrap(),
    {
        GameSystem {
            signature: self.signature,
            entities: Vec::new(),
            system: self.system.unwrap(),
            name: self.name,
        }
    }
}

/// What a world needs of a registered system, whatever the type of its
/// logic.
pub trait InternalSystem<C: Component, R, H: EventHandler<C, R>> {
    /// What the system is apart from its list of entities.
    type Logic;

    /// What the system is apart from its list of entities. It changes in a
    /// pass at most: adding and removing entities leaves it as it is.
    spec fn logic(&self) -> Self::Logic;

    /// The signature an entity must satisfy to be tracked.
    spec fn required(&self) -> u32;

    /// The display name.
    spec fn display_name(&self) -> Seq<char>;

    /// The tracked entities, in the order in which they were added.
    spec fn members(&self) -> Seq<Entity>;

    /// What one pass may do: `after` is a system, and `queued` a command
    /// queue, that a pass over the store behind `query` may leave.
    spec fn passes(
        &self,
        after: &Self,
        query: &Query<'_, C, R>,
        queued: Seq<WorldCommand<C>>,
    ) -> bool;

    /// Runs one pass of the system on a fresh command queue and returns the
    /// queue. The signature, the name and the tracked entities stay.
    fn call(&mut self, query: Query<'_, C, R>, emitter: EventEmitter<'_, H>) -> (buffer:
        CommandBuffer<C>)
        requires
            query.wf(),
        ensures
            old(self).passes(final(self), &query, buffer@),
            final(self).required() == old(self).required(),
            final(self).display_name() == old(self).display_name(),
            final(self).members() == old(self).members(),
    ;

    /// The signature an entity must satisfy to be tracked.
    fn signature(&self) -> (signature: u32)
        ensures
            signature == self.required(),
    ;

    /// The display name.
    fn name(&self) -> (name: &str)
        ensures
            name@ == self.display_name(),
    ;

    /// The tracked entities, in the order in which they were added.
    fn entities(&self) -> (entities: &[Entity])
        ensures
            entities@ == self.members(),
    ;

    /// Tracks `entity`, behind the ones tracked already.
    fn add_entity(&mut self, entity: Entity)
        ensures
            final(self).required() == old(self).required(),
            final(self).display_name() == old(self).display_name(),
            final(self).members() == old(self).members().push(entity),
            final(self).logic() == old(self).logic(),
    ;

    /// Stops tracking `entity`.
    fn remove_entity(&mut self, entity: &Entity)
        ensures
            final(self).required() == old(self).required(),
            final(self).display_name() == old(self).display_name(),
            final(self).members() == without(old(self).members(), *entity),
            final(self).logic() == old(self).logic(),
    ;
}

/// A system ready to be registered: its logic, the signature it asks for,
/// its name, and the entities it tracks.
pub struct GameSystem<T> {
    pub name: String,
    pub signature: u32,
    entities: Vec<Entity>,
    system: T,
}

impl<T> GameSystem<T> {
    /// The signature an entity must satisfy to be listed.
    pub closed spec fn required(&self) -> u32 {
        self.signature
    }

    /// The display name.
    pub closed spec fn display_name(&self) -> Seq<char> {
        self.name@
    }

    /// The tracked entities, in the order in which they were added.
    pub closed spec fn members(&self) -> Seq<Entity> {
        self.entities@
    }

    /// The logic of the system.
    pub closed spec fn logic(&self) -> T {
        self.system
    }
}

impl<C: Component, R, H: EventHandler<C, R>, T: System<C, R, H>> InternalSystem<C, R, H> for GameSystem<
    T,
> {
    type Logic = T;

    open spec fn logic(&self) -> T {
        GameSystem::logic(self)
    }

    open spec fn required(&self) -> u32 {
        GameSystem::required(self)
    }

    open spec fn display_name(&self) -> Seq<char> {
        GameSystem::display_name(self)
    }

    open spec fn members(&self) -> Seq<Entity> {
        GameSystem::members(self)
    }

    open spec fn passes(
        &self,
        after: &Self,
        query: &Query<'_, C, R>,
        queued: Seq<WorldCommand<C>>,
    ) -> bool {
        self.logic().acts(&after.logic(), query, self.members(), Seq::empty(), queued)
    }

    fn call(&mut self, query: Query<'_, C, R>, emitter: EventEmitter<'_, H>) -> (buffer:
        CommandBuffer<C>) {
        let mut buffer = CommandBuffer::new();
        self.system.action(query, self.entities.as_slice(), &mut buffer, emitter);
        buffer
    }

    fn signature(&self) -> (signature: u32) {
        self.signature
    }

    fn name(&self) -> (name: &str) {
        self.name.as_str()
    }

    fn entities(&self) -> (entities: &[Entity]) {
        self.entities.as_slice()
    }

    fn add_entity(&mut self, entity: Entity) {
        self.entities.push(entity);
    }

    fn remove_entity(&mut self, entity: &Entity) {
        let mut kept: Vec<Entity> = Vec::new();
        let mut next: usize = 0;
        proof {
            reveal(Seq::filter);
            assert(self.entities@.take(0) =~= Seq::<Entity>::empty());
        }
        while next < self.entities.len()
            invariant
                next <= self.entities@.len(),
                self.entities@ == old(self).entities@,
                self.name == old(self).name,
                self.signature == old(self).signature,
                self.system == old(self).system,
                kept@ == without(self.entities@.take(next as int), *entity),
            decreases self.entities@.len() - next,
        {
            let other = self.entities[next];
            proof {
                reveal(Seq::filter);
                assert(self.entities@.take(next + 1).drop_last() =~= self.entities@.take(
                    next as int,
                ));
                assert(self.entities@.take(next + 1).last() == other);
            }
            if other.0 != entity.0 {
                kept.push(other);
            }
            next += 1;
        }
        proof {
            assert(self.entities@.take(next as int) =~= self.entities@);
        }
        self.entities = kept;
    }
}

} // verus!
