use ecs_runtime::command_buffer::{CommandBuffer, WorldCommand};
use ecs_runtime::components::Component;
use ecs_runtime::entities::entity_manager::EntityManager;
use ecs_runtime::entities::Entity;
use ecs_runtime::events::{EventHandler, GameEvent, WorldEventEmmiter, WorldEventSubscriber, WorldEvents};
use ecs_runtime::query::Query;
use ecs_runtime::resources::Resources;
use ecs_runtime::TypeKey;

struct Nothing;

impl Component for Nothing {}

struct Damage(usize);

impl GameEvent for Damage {}

/// Queues the removal of the entity `base + payload`.
struct Mark {
    base: usize,
}

impl EventHandler<Nothing, ()> for Mark {
    type Event = Damage;

    fn handle(
        &self,
        event: &Damage,
        _query: &Query<'_, Nothing, ()>,
        command_buffer: &mut CommandBuffer<Nothing>,
    ) {
        command_buffer.remove_entity(&Entity(self.base + event.0));
    }
}

const DAMAGE: TypeKey = 1;
const HEALING: TypeKey = 2;

fn removals(buffer: &CommandBuffer<Nothing>) -> Vec<usize> {
    buffer
        .iterate()
        .map(|command| match command {
            WorldCommand::RemoveEntity(id) => *id,
            _ => usize::MAX,
        })
        .collect()
}

#[test]
fn every_subscriber_gets_the_event_in_subscription_order() {
    let entities: EntityManager<Nothing> = EntityManager::new();
    let resources: Resources<()> = Resources::new();
    let query = Query::new(&entities, entities.component_manager(), &resources);

    let mut events: WorldEvents<Mark> = WorldEvents::new();
    events.subscribe(DAMAGE, Mark { base: 100 });
    events.subscribe(HEALING, Mark { base: 500 });
    events.subscribe(DAMAGE, Mark { base: 200 });

    let mut buffer = CommandBuffer::new();
    buffer.remove_entity(&Entity(1));
    events.emiter().emit(DAMAGE, Damage(7), &mut buffer, &query);
    assert_eq!(removals(&buffer), vec![1, 107, 207]);

    events.emiter().emit(HEALING, Damage(1), &mut buffer, &query);
    assert_eq!(removals(&buffer), vec![1, 107, 207, 501]);
}

#[test]
fn an_event_nobody_subscribed_to_leaves_the_queue_alone() {
    let entities: EntityManager<Nothing> = EntityManager::new();
    let resources: Resources<()> = Resources::new();
    let query = Query::new(&entities, entities.component_manager(), &resources);

    let events: WorldEvents<Mark> = WorldEvents::new();
    let mut buffer = CommandBuffer::new();
    buffer.remove_entity(&Entity(4));
    events.emiter().emit(DAMAGE, Damage(7), &mut buffer, &query);
    assert_eq!(removals(&buffer), vec![4]);
}

#[test]
fn a_queue_hands_its_commands_out_first_in_first_out() {
    let mut buffer: CommandBuffer<Nothing> = CommandBuffer::default();
    buffer.remove_entity(&Entity(3));
    buffer.remove_component(&Entity(4), 9);
    buffer.add_component(&Entity(5), 8, Nothing);
    buffer.create_component(vec![(7, Nothing), (6, Nothing)]);

    let mut seen = Vec::new();
    for command in buffer.into_iter() {
        seen.push(match command {
            WorldCommand::RemoveEntity(id) => (0, id, 0),
            WorldCommand::RemoveComponent(id, key) => (1, id, key),
            WorldCommand::AddComponent(id, key, _) => (2, id, key),
            WorldCommand::CreateEntity(components) => (3, components.len(), components[0].0),
        });
    }
    assert_eq!(seen, vec![(0, 3, 0), (1, 4, 9), (2, 5, 8), (3, 2, 7)]);
}
