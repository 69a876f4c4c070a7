use crate::entities::Entity;
use crate::TypeKey;
use std::collections::vec_deque::Iter;
use std::collections::VecDeque;
use vstd::prelude::*;
use vstd::std_specs::iter::IteratorSpec;

verus! {

/// One deferred change to the store.
pub enum WorldCommand<C> {
    /// Remove the entity with this index.
    RemoveEntity(usize),
    /// Take the component of this kind from the entity with this index.
    RemoveComponent(usize, TypeKey),
    /// Create an entity that starts with these components.
    CreateEntity(Vec<(TypeKey, C)>),
    /// Attach this component of this kind to the entity with this index.
    AddComponent(usize, TypeKey, C),
}

/// A queue of deferred changes. Commands leave the queue in the order in
/// which they entered it.
pub struct CommandBuffer<C> {
    commands: VecDeque<WorldCommand<C>>,
}

impl<C> View for CommandBuffer<C> {
    type V = Seq<WorldCommand<C>>;

    /// The queued commands, the one queued first at the front.
    closed spec fn view(&self) -> Seq<WorldCommand<C>> {
        self.commands@
    }
}

impl<C> Default for CommandBuffer<C> {
    fn default() -> (buffer: Self)
        ensures
            buffer@ == Seq::<WorldCommand<C>>::empty(),
    {
        CommandBuffer::new()
    }
}

impl<C> CommandBuffer<C> {
    /// An empty queue.
    pub fn new() -> (buffer: Self)
        ensures
            buffer@ == Seq::<WorldCommand<C>>::empty(),
    {
        Self { commands: VecDeque::new() }
    }

    /// Queues the removal of `entity`.
    pub fn remove_entity(&mut self, entity: &Entity)
        ensures
            final(self)@ == old(self)@.push(WorldCommand::RemoveEntity(entity.0)),
    {
        self.commands.push_back(WorldCommand::RemoveEntity(entity.0));
    }

    /// Queues taking the component of kind `key` from `entity`.
    pub fn remove_component(&mut self, entity: &Entity, key: TypeKey)
        ensures
            final(self)@ == old(self)@.push(WorldCommand::RemoveComponent(entity.0, key)),
    {
        self.commands.push_back(WorldCommand::RemoveComponent(entity.0, key));
    }

    /// Queues attaching `component` of kind `key` to `entity`.
    pub fn add_component(&mut self, entity: &Entity, key: TypeKey, component: C)
        ensures
            final(self)@ == old(self)@.push(WorldCommand::AddComponent(entity.0, key, component)),
    {
        self.commands.push_back(WorldCommand::AddComponent(entity.0, key, component));
    }

    /// Queues the creation of an entity that starts with `components`.
    pub fn create_component(&mut self, components: Vec<(TypeKey, C)>)
        ensures
            final(self)@ == old(self)@.push(WorldCommand::CreateEntity(components)),
    {
        self.commands.push_back(WorldCommand::CreateEntity(components));
    }

    /// Walks the queued commands, the one queued first coming first.
    pub fn iterate(&self) -> (it: Iter<'_, WorldCommand<C>>)
        ensures
            it.remaining() == self@.as_ref(),
    {
        self.commands.iter()
    }

    /// Gives up the queue: the commands, the one queued first at the front.
    pub fn into_iter(self) -> (commands: VecDeque<WorldCommand<C>>)
        ensures
            commands@ == self@,
    {
        self.commands
    }
}

} // verus!
