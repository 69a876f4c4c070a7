use ecs_runtime::command_buffer::{CommandBuffer, WorldCommand};
use ecs_runtime::components::Component;
use ecs_runtime::entities::Entity;
use ecs_runtime::errors::EcsErrors;
use ecs_runtime::events::{EventEmitter, EventHandler, GameEvent, WorldEventSubscriber, WorldEvents};
use ecs_runtime::query::Query;
use ecs_runtime::system::{GameSystem, InternalSystem, System, SystemBuilder};
use ecs_runtime::world::World;
use ecs_runtime::TypeKey;

#[derive(Debug, Clone, PartialEq)]
enum Part {
    Location(i32, i32),
    Size(i32),
}

impl Component for Part {}

const LOCATION: TypeKey = 1;
const SIZE: TypeKey = 2;
const FPS: TypeKey = 7;
const SOMETHING_HAPPEND: TypeKey = 100;
const SWEEPER: TypeKey = 200;
const WATCHER: TypeKey = 201;

struct Fps(pub u32);

struct SomethingHappend;

impl GameEvent for SomethingHappend {}

struct RemoveOnEvent(usize);

impl EventHandler<Part, Fps> for RemoveOnEvent {
    type Event = SomethingHappend;

    fn handle(
        &self,
        _event: &SomethingHappend,
        _query: &Query<'_, Part, Fps>,
        command_buffer: &mut CommandBuffer<Part>,
    ) {
        command_buffer.remove_entity(&Entity(self.0));
    }
}

/// Asks for the removal of every entity it is matched with.
struct Sweep {
    passes: u32,
}

impl System<Part, Fps, RemoveOnEvent> for Sweep {
    fn action(
        &mut self,
        _query: Query<'_, Part, Fps>,
        entities: &[Entity],
        command_buffer: &mut CommandBuffer<Part>,
        _emitter: EventEmitter<'_, RemoveOnEvent>,
    ) {
        self.passes += 1;
        for entity in entities {
            command_buffer.remove_entity(entity);
        }
    }
}

type TestWorld = World<Part, Fps, RemoveOnEvent, GameSystem<Sweep>>;

fn system_for(world: &TestWorld, name: &str, kinds: &[TypeKey]) -> GameSystem<Sweep> {
    let mut builder = SystemBuilder::new(name, world.get_component_signatures());
    for kind in kinds {
        builder = builder.with_component(*kind);
    }
    builder.with_action(Sweep { passes: 0 }).build()
}

fn listed(world: &TestWorld, key: TypeKey) -> Vec<usize> {
    world.get_system(key).entities().iter().map(|entity| entity.0).collect()
}

#[test]
fn create_entity() {
    let mut world = TestWorld::new();
    let entity = world.create_entity().finish_entity();
    assert_eq!(entity.0, 0);
}

#[test]
fn query_for_entities() {
    let mut world = TestWorld::new();

    let entity = world.create_entity().finish_entity();
    world.update();
    world.add_component(&entity, LOCATION, Part::Location(1, 1)).unwrap();
    world.add_component(&entity, SIZE, Part::Size(10)).unwrap();

    let entity2 = world.create_entity().finish_entity();
    world.update();
    world.add_component(&entity2, LOCATION, Part::Location(11, 11)).unwrap();

    let entity3 = world.create_entity().finish_entity();
    world.update();
    world.add_component(&entity3, SIZE, Part::Size(99)).unwrap();

    let both = world
        .query()
        .entities()
        .with_component(LOCATION)
        .with_component(SIZE)
        .get();
    assert_eq!(both, vec![entity]);

    let located = world.query().entities().with_component(LOCATION).get();
    assert_eq!(located, vec![entity, entity2]);

    let sized = world.query().entities().with_component(SIZE).get();
    assert_eq!(sized, vec![entity, entity3]);

    let all = world.query().entities().get();
    assert_eq!(all, vec![entity, entity2, entity3]);
}

#[test]
fn reuse_deleted_entity_ids() {
    let mut world = TestWorld::new();

    let entity = world.create_entity().finish_entity();
    world.update();

    world.remove_entity(&entity);
    world.update();

    let new_entity = world.create_entity().finish_entity();
    world.update();

    assert_eq!(entity.0, new_entity.0);
}

#[test]
fn register_handler() {
    let world = TestWorld::new();
    let mut events: WorldEvents<RemoveOnEvent> = WorldEvents::new();
    events.subscribe(SOMETHING_HAPPEND, RemoveOnEvent(3));

    let mut buffer = CommandBuffer::new();
    let query = world.query();
    ecs_runtime::events::WorldEventEmmiter::emit(
        &events.emiter(),
        SOMETHING_HAPPEND,
        SomethingHappend,
        &mut buffer,
        &query,
    );
    let queued: Vec<usize> = buffer
        .iterate()
        .map(|command| match command {
            WorldCommand::RemoveEntity(id) => *id,
            _ => usize::MAX,
        })
        .collect();
    assert_eq!(queued, vec![3]);
}

#[test]
fn emit_event() {
    let mut world = TestWorld::new();
    let first = world.create_entity().finish_entity();
    let second = world.create_entity().finish_entity();
    world.update();

    world.events().subscribe(SOMETHING_HAPPEND, RemoveOnEvent(second.0));
    world.emit_event(SOMETHING_HAPPEND, SomethingHappend);
    world.update();

    assert_eq!(world.query().entities().get(), vec![first]);
}

#[test]
fn emitting_without_subscribers_changes_nothing() {
    let mut world = TestWorld::new();
    let entity = world.create_entity().finish_entity();
    world.update();
    world.emit_event(SOMETHING_HAPPEND, SomethingHappend);
    world.update();
    assert_eq!(world.query().entities().get(), vec![entity]);
}

#[test]
fn recycled_ids_come_back_first_in_first_out() {
    let mut world = TestWorld::new();
    let mut made = Vec::new();
    for _ in 0..5 {
        made.push(world.create_entity().finish_entity());
    }
    world.update();
    world.remove_entity(&made[3]);
    world.remove_entity(&made[1]);
    world.update();

    assert_eq!(world.create_entity().finish_entity().0, 3);
    assert_eq!(world.create_entity().finish_entity().0, 1);
    assert_eq!(world.create_entity().finish_entity().0, 5);
}

#[test]
fn has_component_follows_every_add_and_remove() {
    let mut world = TestWorld::new();
    let entity = world.create_entity().finish_entity();
    assert!(!world.has_component(&entity, LOCATION));

    world.add_component(&entity, LOCATION, Part::Location(4, 5)).unwrap();
    assert!(world.has_component(&entity, LOCATION));
    assert!(!world.has_component(&entity, SIZE));
    let pool = world.query().components().get(LOCATION);
    assert_eq!(pool.get(entity.0).unwrap(), &Part::Location(4, 5));

    world.add_component(&entity, SIZE, Part::Size(3)).unwrap();
    world.remove_component(&entity, LOCATION).unwrap();
    assert!(!world.has_component(&entity, LOCATION));
    assert!(world.has_component(&entity, SIZE));
    assert!(world.query().components().get(LOCATION).data[entity.0].is_none());

    world.remove_component(&entity, LOCATION).unwrap();
    assert!(!world.has_component(&entity, LOCATION));
}

#[test]
fn a_removed_entity_holds_nothing_when_its_id_comes_back() {
    let mut world = TestWorld::new();
    let entity = world
        .create_entity()
        .with_component(LOCATION, Part::Location(1, 2))
        .with_component(SIZE, Part::Size(3))
        .finish_entity();
    world.update();
    world.remove_entity(&entity);
    assert!(world.has_component(&entity, LOCATION));
    world.update();
    assert!(!world.has_component(&entity, LOCATION));

    let again = world.create_entity().finish_entity();
    assert_eq!(again, entity);
    assert!(!world.has_component(&again, LOCATION));
    assert!(!world.has_component(&again, SIZE));
}

#[test]
fn errors_name_what_is_missing() {
    let mut world = TestWorld::new();
    let entity = world.create_entity().finish_entity();
    let nobody = Entity(17);

    assert_eq!(
        world.add_component(&nobody, LOCATION, Part::Location(0, 0)),
        Err(EcsErrors::EntityDoesNotExist(17))
    );
    assert_eq!(world.remove_component(&nobody, LOCATION), Err(EcsErrors::EntityDoesNotExist(17)));
    assert_eq!(
        world.remove_component(&entity, LOCATION),
        Err(EcsErrors::ComponentDoesNotExist(LOCATION))
    );
    assert!(!world.has_component(&nobody, LOCATION));
    assert!(!world.has_component(&entity, LOCATION));
}

#[test]
fn a_thirty_third_kind_of_component_is_refused() {
    let mut world = TestWorld::new();
    let entity = world.create_entity().finish_entity();
    for kind in 0..32u64 {
        assert_eq!(world.add_component(&entity, kind, Part::Size(kind as i32)), Ok(()));
    }
    assert_eq!(
        world.add_component(&entity, 32, Part::Size(32)),
        Err(EcsErrors::ComponentLimitReached)
    );
    assert!(!world.has_component(&entity, 32));
    let masks = world.get_component_signatures();
    assert_eq!(masks.len(), 32);
    assert_eq!(masks[&0], 1);
    assert_eq!(masks[&5], 1 << 5);
    assert_eq!(masks[&31], 1 << 31);
    for kind in 0..32u64 {
        assert!(world.has_component(&entity, kind));
    }
    assert_eq!(world.add_component(&entity, 31, Part::Size(0)), Ok(()));
}

#[test]
fn systems_see_an_entity_only_after_update() {
    let mut world = TestWorld::new();
    let seed = world
        .create_entity()
        .with_component(LOCATION, Part::Location(0, 0))
        .with_component(SIZE, Part::Size(1))
        .finish_entity();
    world.update();

    let located = system_for(&world, "located", &[LOCATION]);
    let sized_and_located = system_for(&world, "both", &[LOCATION, SIZE]);
    world.add_system(SWEEPER, located, false);
    world.add_system(WATCHER, sized_and_located, false);
    assert_eq!(listed(&world, SWEEPER), Vec::<usize>::new());

    let entity = world
        .create_entity()
        .with_component(LOCATION, Part::Location(3, 4))
        .finish_entity();
    assert_eq!(listed(&world, SWEEPER), Vec::<usize>::new());
    assert_eq!(listed(&world, WATCHER), Vec::<usize>::new());

    world.update();
    assert_eq!(listed(&world, SWEEPER), vec![entity.0]);
    assert_eq!(listed(&world, WATCHER), Vec::<usize>::new());

    world.add_component(&entity, SIZE, Part::Size(9)).unwrap();
    assert_eq!(listed(&world, WATCHER), Vec::<usize>::new());
    world.update();
    assert_eq!(listed(&world, WATCHER), vec![entity.0]);

    world.remove_component(&entity, LOCATION).unwrap();
    world.update();
    assert_eq!(listed(&world, SWEEPER), Vec::<usize>::new());
    assert_eq!(listed(&world, WATCHER), Vec::<usize>::new());
    assert!(world.has_component(&seed, SIZE));
}

#[test]
fn a_system_can_be_filled_with_the_entities_that_are_there() {
    let mut world = TestWorld::new();
    let first = world
        .create_entity()
        .with_component(LOCATION, Part::Location(0, 0))
        .finish_entity();
    let _second = world.create_entity().with_component(SIZE, Part::Size(2)).finish_entity();
    let third = world
        .create_entity()
        .with_component(LOCATION, Part::Location(5, 5))
        .finish_entity();
    world.update();
    let waiting = world
        .create_entity()
        .with_component(LOCATION, Part::Location(7, 7))
        .finish_entity();

    let located = system_for(&world, "located", &[LOCATION]);
    assert_eq!(located.signature, 1);
    assert_eq!(located.name, "located");
    world.add_system(SWEEPER, located, true);
    assert!(world.has_system(SWEEPER));
    assert!(!world.has_system(WATCHER));
    assert_eq!(listed(&world, SWEEPER), vec![first.0, third.0, waiting.0]);

    world.update();
    assert_eq!(listed(&world, SWEEPER), vec![first.0, third.0, waiting.0]);

    let mut stale = system_for(&world, "stale", &[SIZE]);
    stale.add_entity(Entity(99));
    stale.add_entity(first);
    world.add_system(WATCHER, stale, false);
    assert_eq!(listed(&world, WATCHER), Vec::<usize>::new());
    let again = system_for(&world, "again", &[SIZE]);
    world.add_system(WATCHER, again, true);
    assert_eq!(listed(&world, WATCHER), vec![1]);
    assert_eq!(world.get_system(WATCHER).name(), "again");
    world.remove_system(WATCHER);

    world.remove_system(SWEEPER);
    assert!(!world.has_system(SWEEPER));
}

#[test]
fn commands_are_carried_out_in_the_order_they_were_queued() {
    let mut world = TestWorld::new();
    let entity = world
        .create_entity()
        .with_component(LOCATION, Part::Location(1, 1))
        .finish_entity();
    world.update();

    let mut buffer = CommandBuffer::new();
    buffer.remove_entity(&entity);
    buffer.remove_component(&entity, LOCATION);
    let kinds: Vec<u8> = buffer
        .iterate()
        .map(|command| match command {
            WorldCommand::RemoveEntity(_) => 0,
            WorldCommand::RemoveComponent(_, _) => 1,
            WorldCommand::CreateEntity(_) => 2,
            WorldCommand::AddComponent(_, _, _) => 3,
        })
        .collect();
    assert_eq!(kinds, vec![0, 1]);

    world.handle_commands(buffer);
    assert!(!world.has_component(&entity, LOCATION));
    assert_eq!(world.query().entities().get(), vec![entity]);
    world.update();
    assert_eq!(world.query().entities().get(), Vec::<Entity>::new());
}

#[test]
fn the_later_of_two_commands_on_one_slot_wins() {
    let mut world = TestWorld::new();
    let entity = world.create_entity().finish_entity();
    world.update();

    let mut buffer = CommandBuffer::new();
    buffer.add_component(&entity, SIZE, Part::Size(1));
    buffer.remove_component(&entity, SIZE);
    buffer.add_component(&entity, SIZE, Part::Size(2));
    world.handle_commands(buffer);
    assert_eq!(world.query().components().get(SIZE).get(entity.0).unwrap(), &Part::Size(2));

    let mut buffer = CommandBuffer::new();
    buffer.add_component(&entity, SIZE, Part::Size(3));
    buffer.remove_component(&entity, SIZE);
    world.handle_commands(buffer);
    assert!(!world.has_component(&entity, SIZE));
}

#[test]
fn a_command_can_create_an_entity_with_components() {
    let mut world = TestWorld::new();
    let first = world.create_entity().finish_entity();
    world.update();

    let mut buffer = CommandBuffer::new();
    buffer.create_component(vec![(LOCATION, Part::Location(2, 3)), (SIZE, Part::Size(4))]);
    world.handle_commands(buffer);
    world.update();

    let made = Entity(first.0 + 1);
    assert_eq!(world.query().entities().with_component(LOCATION).get(), vec![made]);
    assert_eq!(world.query().components().get(SIZE).get(made.0).unwrap(), &Part::Size(4));
}

#[test]
fn a_system_pass_queues_and_the_world_carries_out() {
    let mut world = TestWorld::new();
    let kept = world.create_entity().with_component(SIZE, Part::Size(1)).finish_entity();
    let swept = world
        .create_entity()
        .with_component(LOCATION, Part::Location(1, 1))
        .finish_entity();
    world.update();
    let located = system_for(&world, "located", &[LOCATION]);
    world.add_system(SWEEPER, located, true);

    world.update_system(WATCHER);
    world.update_system(SWEEPER);
    assert_eq!(world.query().entities().get(), vec![kept, swept]);
    world.update();
    assert_eq!(world.query().entities().get(), vec![kept]);
    assert_eq!(listed(&world, SWEEPER), Vec::<usize>::new());
    assert_eq!(world.get_system(SWEEPER).name(), "located");
    assert_eq!(world.get_system(SWEEPER).signature(), 1 << 1);

    world.get_system_mut(SWEEPER).add_entity(kept);
    assert_eq!(listed(&world, SWEEPER), vec![kept.0]);
}

#[test]
fn resources_are_one_per_kind() {
    let mut world = TestWorld::new();
    world.add_resource(FPS, Fps(30));
    assert_eq!(world.query().resource(FPS).get().0, 30);
    world.add_resource(FPS, Fps(60));
    assert_eq!(world.query().resource(FPS).get().0, 60);
    assert!(world.query().resources.contains(FPS));
    world.delete_resource(FPS);
    assert!(!world.query().resources.contains(FPS));
}

#[test]
fn components_and_resources_can_be_changed_in_place() {
    let mut world = TestWorld::new();
    let entity = world.create_entity().with_component(SIZE, Part::Size(1)).finish_entity();

    *world.component_mut(&entity, SIZE).unwrap() = Part::Size(2);
    assert_eq!(world.query().components().get(SIZE).get(entity.0).unwrap(), &Part::Size(2));
    assert!(world.has_component(&entity, SIZE));
    assert!(world.component_mut(&entity, LOCATION).is_none());
    assert!(world.component_mut(&Entity(9), SIZE).is_none());

    world.add_resource(FPS, Fps(30));
    world.resource_mut(FPS).get_mut().0 += 1;
    assert_eq!(world.query().resource(FPS).get().0, 31);
}

#[test]
fn registering_again_replaces_the_system_in_its_place() {
    let mut world = TestWorld::new();
    let entity = world.create_entity().with_component(SIZE, Part::Size(1)).finish_entity();
    world.update();
    world.add_system(SWEEPER, system_for(&world, "first", &[SIZE]), true);
    world.add_system(WATCHER, system_for(&world, "second", &[SIZE]), false);
    world.add_system(SWEEPER, system_for(&world, "third", &[]), false);
    assert_eq!(world.get_system(SWEEPER).name(), "third");
    assert_eq!(world.get_system(SWEEPER).signature(), 0);
    assert_eq!(listed(&world, SWEEPER), Vec::<usize>::new());
    assert_eq!(world.get_system(WATCHER).name(), "second");

    world.add_component(&entity, SIZE, Part::Size(2)).unwrap();
    world.update();
    assert_eq!(listed(&world, SWEEPER), vec![entity.0]);
    assert_eq!(listed(&world, WATCHER), vec![entity.0]);
    world.remove_system(SWEEPER);
    assert!(!world.has_system(SWEEPER));
    assert!(world.has_system(WATCHER));
    world.update_system(WATCHER);
    world.update();
    assert_eq!(listed(&world, WATCHER), Vec::<usize>::new());
}
