use crate::command_buffer::{CommandBuffer, WorldCommand};
use crate::components::Component;
use crate::query::Query;
use crate::TypeKey;
use std::collections::HashMap;
use vstd::prelude::*;

verus! {

/// Marks a value type as an event that can be emitted.
pub trait GameEvent {

}

/// What answers an event: it looks at the event and at the store, and queues
/// the changes it wants.
pub trait EventHandler<C: Component, R> {
    /// The events this handler answers.
    type Event: GameEvent;

    /// What one run of the handler may do: `after` is a command queue that
    /// the handler may leave when it is handed `event`, the store behind
    /// `query` and the queue `before`. A handler that does not say otherwise
    /// may leave any queue.
    open spec fn handles(
        &self,
        event: &Self::Event,
        query: &Query<'_, C, R>,
        before: Seq<WorldCommand<C>>,
        after: Seq<WorldCommand<C>>,
    ) -> bool {
        true
    }

    /// Answers `event`.
    fn handle(
        &self,
        event: &Self::Event,
        query: &Query<'_, C, R>,
        command_buffer: &mut CommandBuffer<C>,
    )
        requires
            query.wf(),
        ensures
            self.handles(event, query, old(command_buffer)@, final(command_buffer)@),
    ;
}

/// The handlers subscribed to events of kind `key`, in the order of their
/// subscription; none where nothing ever subscribed to that kind.
pub open spec fn handlers_for<H>(subscribers: Map<TypeKey, Seq<H>>, key: TypeKey) -> Seq<H> {
    if subscribers.contains_key(key) {
        subscribers[key]
    } else {
        Seq::empty()
    }
}

/// `after` is a command queue that can come of `before` when each handler of
/// `handlers` is run once, in order, each on the same `event` and `query`,
/// each starting with the queue the one before it left.
pub open spec fn dispatched<C: Component, R, H: EventHandler<C, R>>(
    handlers: Seq<H>,
    event: &H::Event,
    query: &Query<'_, C, R>,
    before: Seq<WorldCommand<C>>,
    after: Seq<WorldCommand<C>>,
) -> bool
    decreases handlers.len(),
{
    if handlers.len() == 0 {
        after == before
    } else {
        exists|middle: Seq<WorldCommand<C>>|
            dispatched(handlers.drop_last(), event, query, before, middle)
                && #[trigger] handlers.last().handles(event, query, middle, after)
    }
}

/// Running one more handler extends a dispatch by one step.
pub proof fn lemma_dispatched_step<C: Component, R, H: EventHandler<C, R>>(
    handlers: Seq<H>,
    event: &H::Event,
    query: &Query<'_, C, R>,
    before: Seq<WorldCommand<C>>,
    middle: Seq<WorldCommand<C>>,
    after: Seq<WorldCommand<C>>,
)
    requires
        handlers.len() > 0,
        dispatched(handlers.drop_last(), event, query, before, middle),
        handlers.last().handles(event, query, middle, after),
    ensures
        dispatched(handlers, event, query, before, after),
{
}

/// The part of an event bus that takes subscriptions.
pub trait WorldEventSubscriber<H> {
    /// The handlers subscribed so far, by kind of event, in the order of
    /// their subscription.
    spec fn subscribers(&self) -> Map<TypeKey, Seq<H>>;

    /// Subscribes `handler` to events of kind `key`, behind the handlers
    /// subscribed to that kind before.
    fn subscribe(&mut self, key: TypeKey, handler: H)
        ensures
            final(self).subscribers() == old(self).subscribers().insert(
                key,
                handlers_for(old(self).subscribers(), key).push(handler),
            ),
    ;
}

/// The part of an event bus that delivers events.
pub trait WorldEventEmmiter<C: Component, R, H: EventHandler<C, R>> {
    /// The handlers that events are delivered to.
    spec fn subscribers(&self) -> Map<TypeKey, Seq<H>>;

    /// Delivers `event` to every handler subscribed to kind `key`, in the
    /// order of their subscription. With no such handler nothing happens.
    fn emit(
        &self,
        key: TypeKey,
        event: H::Event,
        cmd_buffer: &mut CommandBuffer<C>,
        query: &Query<'_, C, R>,
    )
        requires
            query.wf(),
        ensures
            dispatched(
                handlers_for(self.subscribers(), key),
                &event,
                query,
                old(cmd_buffer)@,
                final(cmd_buffer)@,
            ),
    ;
}

/// The event bus of a world: the handlers of each kind of event.
pub struct WorldEvents<H> {
    handlers: HashMap<TypeKey, Vec<H>>,
}

/// A handle on an event bus that can deliver events and nothing else.
pub struct EventEmitter<'a, H> {
    handlers: &'a HashMap<TypeKey, Vec<H>>,
}

impl<H> View for WorldEvents<H> {
    type V = Map<TypeKey, Seq<H>>;

    closed spec fn view(&self) -> Map<TypeKey, Seq<H>> {
        Map::new(
            |key: TypeKey| self.handlers@.contains_key(key),
            |key: TypeKey| self.handlers@[key]@,
        )
    }
}

impl<'a, H> View for EventEmitter<'a, H> {
    type V = Map<TypeKey, Seq<H>>;

    closed spec fn view(&self) -> Map<TypeKey, Seq<H>> {
        Map::new(
            |key: TypeKey| self.handlers@.contains_key(key),
            |key: TypeKey| self.handlers@[key]@,
        )
    }
}

impl<H> WorldEvents<H> {
    /// A bus without subscriptions.
    pub fn new() -> (events: Self)
        ensures
            events@ == Map::<TypeKey, Seq<H>>::empty(),
    {
        let events = Self { handlers: HashMap::new() };
        assert(events@ =~= Map::<TypeKey, Seq<H>>::empty());
        events
    }

    /// A handle that delivers events to the handlers of this bus.
    pub fn emiter(&self) -> (emitter: EventEmitter<'_, H>)
        ensures
            emitter@ == self@,
    {
        EventEmitter { handlers: &self.handlers }
    }
}

impl<H> WorldEventSubscriber<H> for WorldEvents<H> {
    open spec fn subscribers(&self) -> Map<TypeKey, Seq<H>> {
        self@
    }

    fn subscribe(&mut self, key: TypeKey, handler: H) {
        broadcast use vstd::std_specs::hash::group_hash_axioms;

        let mut handlers = match self.handlers.remove(&key) {
            Some(handlers) => handlers,
            None => Vec::new(),
        };
        handlers.push(handler);
        self.handlers.insert(key, handlers);
        assert(self@ =~= old(self)@.insert(key, handlers_for(old(self)@, key).push(handler)));
    }
}

impl<'a, C: Component, R, H: EventHandler<C, R>> WorldEventEmmiter<C, R, H> for EventEmitter<
    'a,
    H,
> {
    open spec fn subscribers(&self) -> Map<TypeKey, Seq<H>> {
        self@
    }

    fn emit(
        &self,
        key: TypeKey,
        event: H::Event,
        cmd_buffer: &mut CommandBuffer<C>,
        query: &Query<'_, C, R>,
    ) {
        broadcast use vstd::std_specs::hash::group_hash_axioms;

        let ghost start = cmd_buffer@;
        match self.handlers.get(&key) {
            Some(handlers) => {
                let mut next: usize = 0;
                assert(handlers@.take(0) =~= Seq::empty());
                while next < handlers.len()
                    invariant
                        query.wf(),
                        next <= handlers@.len(),
                        dispatched(handlers@.take(next as int), &event, query, start, cmd_buffer@),
                    decreases handlers@.len() - next,
                {
                    let ghost middle = cmd_buffer@;
                    handlers[next].handle(&event, query, cmd_buffer);
                    proof {
                        let done = handlers@.take(next + 1);
                        assert(done.drop_last() =~= handlers@.take(next as int));
                        assert(done.last() == handlers@[next as int]);
                        lemma_dispatched_step(done, &event, query, start, middle, cmd_buffer@);
                    }
                    next += 1;
                }
                assert(handlers@.take(next as int) =~= handlers@);
            },
            None => {},
        }
    }
}

} // verus!
