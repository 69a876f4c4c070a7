use ecs_runtime::components::comp_pool::{CompPool, GenericCompPool};
use ecs_runtime::components::component_manager::ComponentManager;
use ecs_runtime::components::Component;
use ecs_runtime::entities::entity_manager::{EntityIdGenerator, EntityManager};
use ecs_runtime::entities::waiting::WaitingEntities;
use ecs_runtime::entities::Entity;
use ecs_runtime::errors::EcsErrors;
use ecs_runtime::resources::{Resource, Resources};
use ecs_runtime::signature::{mask_for_bit, signature_satisfies};

#[derive(Debug, Clone, PartialEq)]
struct Hp(u32);

impl Component for Hp {}

#[test]
fn fresh_ids_count_up() {
    let mut ids = EntityIdGenerator::new();
    assert_eq!(ids.get_id(), 0);
    assert_eq!(ids.get_id(), 1);
    assert_eq!(ids.get_id(), 2);
    assert_eq!(ids.issued(), 3);
}

#[test]
fn an_id_is_live_from_issue_to_free() {
    let mut ids = EntityIdGenerator::new();
    assert!(!ids.is_id_used(0));
    let id = ids.get_id();
    assert!(ids.is_id_used(id));
    assert!(!ids.is_id_used(1));
    ids.free_id(id);
    assert!(!ids.is_id_used(id));
    assert_eq!(ids.get_id(), id);
    assert!(ids.is_id_used(id));
}

#[test]
fn freeing_twice_queues_once() {
    let mut ids = EntityIdGenerator::new();
    let a = ids.get_id();
    let b = ids.get_id();
    ids.free_id(b);
    ids.free_id(b);
    ids.free_id(9);
    ids.free_id(a);
    assert_eq!(ids.get_id(), b);
    assert_eq!(ids.get_id(), a);
    assert_eq!(ids.get_id(), 2);
}

#[test]
fn a_pool_refuses_what_it_does_not_cover() {
    let mut pool: CompPool<Hp> = CompPool::new(2);
    assert_eq!(pool.get_size(), 2);
    assert!(!pool.is_empty());
    assert_eq!(pool.set(2, Hp(1)), Err(EcsErrors::EntityDoesNotExist(2)));
    assert_eq!(pool.remove(2), Err(EcsErrors::EntityDoesNotExist(2)));
    assert_eq!(pool.get(5), Err(EcsErrors::EntityDoesNotExist(5)));
    assert_eq!(pool.get_mut(5), Err(EcsErrors::EntityDoesNotExist(5)));

    assert_eq!(pool.set(1, Hp(7)), Ok(()));
    assert_eq!(pool.get(1), Ok(&Hp(7)));
    pool.get_mut(1).unwrap().0 = 8;
    assert_eq!(pool.get(1), Ok(&Hp(8)));
    assert_eq!(pool.remove(1), Ok(()));
    assert_eq!(pool.remove(1), Ok(()));
    assert_eq!(pool.data, vec![None, None]);
}

#[test]
fn a_pool_grows_shrinks_and_clears() {
    let mut pool: CompPool<Hp> = CompPool::new(0);
    assert!(pool.is_empty());
    pool.add(Hp(1));
    pool.add(Hp(2));
    pool.resize(4);
    assert_eq!(pool.data, vec![Some(Hp(1)), Some(Hp(2)), None, None]);
    pool.remove_any(&Entity(0));
    pool.remove_any(&Entity(40));
    assert_eq!(pool.iter().filter(|slot| slot.is_some()).count(), 1);
    for slot in pool.iter_mut() {
        *slot = Some(Hp(9));
    }
    pool.resize(1);
    assert_eq!(pool.data, vec![Some(Hp(9))]);
    pool.clear();
    assert_eq!(pool.get_size(), 0);
}

#[test]
fn kinds_get_their_bits_in_the_order_they_are_first_used() {
    let mut manager: ComponentManager<Hp> = ComponentManager::new();
    assert_eq!(manager.get_mask(40), Err(EcsErrors::ComponentDoesNotExist(40)));
    assert_eq!(manager.add_component(&Entity(0), 40, Hp(1)), Ok(1));
    assert_eq!(manager.add_component(&Entity(3), 50, Hp(2)), Ok(2));
    assert_eq!(manager.add_component(&Entity(64), 40, Hp(3)), Ok(1));
    assert_eq!(manager.get_mask(50), Ok(&2));
    assert_eq!(manager.get_mask_for_id(&40), Ok(&1));

    let pool = manager.get_components(40).unwrap();
    assert_eq!(pool.get_size(), 65);
    assert_eq!(pool.get(64), Ok(&Hp(3)));
    assert_eq!(manager.get_components(50).unwrap().get_size(), 30);
    assert!(manager.get_components(60).is_err());

    assert_eq!(manager.remove(&Entity(0), 60), Err(EcsErrors::ComponentDoesNotExist(60)));
    assert_eq!(manager.remove_with_id(&Entity(0), &40), Ok(()));
    assert_eq!(manager.remove(&Entity(1000), 40), Ok(()));
    manager.get_components_mut(50).unwrap().get_mut(3).unwrap().0 = 20;
    manager.remove_all(&Entity(64));
    assert!(manager.get_components(40).unwrap().data[64].is_none());
    assert_eq!(manager.get_components(50).unwrap().get(3), Ok(&Hp(20)));
    assert_eq!(
        manager.add_component(&Entity(usize::MAX), 40, Hp(0)),
        Err(EcsErrors::EntityDoesNotExist(usize::MAX))
    );
}

#[test]
fn signatures_follow_the_pools() {
    let mut manager: EntityManager<Hp> = EntityManager::new();
    let first = manager.create_entity();
    let second = manager.create_entity();
    assert_eq!(manager.entity_component_signatures().len(), 10);
    assert_eq!(manager.get_signature(&first), Ok(&0));
    assert_eq!(manager.get_signature(&Entity(2)), Err(EcsErrors::EntityDoesNotExist(2)));

    assert_eq!(manager.add_component(&first, 5, Hp(1)), Ok(()));
    assert_eq!(manager.add_component(&second, 6, Hp(2)), Ok(()));
    assert_eq!(manager.add_component(&second, 5, Hp(3)), Ok(()));
    assert_eq!(manager.get_signature(&first), Ok(&0b01));
    assert_eq!(manager.get_signature(&second), Ok(&0b11));
    assert_eq!(manager.has_component(&first, 6), Ok(false));
    assert_eq!(manager.has_component(&second, 6), Ok(true));
    assert_eq!(manager.has_component(&first, 9), Err(EcsErrors::ComponentDoesNotExist(9)));
    assert_eq!(manager.has_component(&Entity(5), 5), Err(EcsErrors::EntityDoesNotExist(5)));
    assert_eq!(manager.entities_with(0b01), vec![first, second]);
    assert_eq!(manager.entities_with(0b10), vec![second]);

    assert_eq!(manager.remove_component_for_id(&second, &5), Ok(()));
    assert_eq!(manager.get_signature(&second), Ok(&0b10));
    assert_eq!(manager.remove_component(&second, 9), Err(EcsErrors::ComponentDoesNotExist(9)));

    manager.component_mut(&second, 6).unwrap().0 = 7;
    assert_eq!(manager.component_manager().get_components(6).unwrap().get(1), Ok(&Hp(7)));
    assert!(manager.component_mut(&second, 5).is_none());
    assert!(manager.component_mut(&first, 9).is_none());
    assert_eq!(manager.get_signature(&second), Ok(&0b10));

    manager.remove_entity(&second);
    assert!(!manager.is_live(&second));
    assert!(manager.is_live(&first));
    assert_eq!(manager.add_component(&second, 5, Hp(1)), Err(EcsErrors::EntityDoesNotExist(1)));
    assert!(manager.component_manager().get_components(6).unwrap().data[1].is_none());
    manager.remove_entity(&second);
    assert_eq!(manager.create_entity(), second);
    assert_eq!(manager.get_signature(&second), Ok(&0));
    assert_eq!(manager.get_component_signatures().len(), 2);
    assert!(manager.can_create());
}

#[test]
fn masks_and_signatures() {
    assert_eq!(mask_for_bit(0), 1);
    assert_eq!(mask_for_bit(31), 0x8000_0000);
    assert!(signature_satisfies(0b1011, 0b0011));
    assert!(!signature_satisfies(0b1001, 0b0011));
    assert!(signature_satisfies(0, 0));
    assert_eq!(
        EcsErrors::component_does_not_exist(12),
        EcsErrors::ComponentDoesNotExist(12)
    );
}

#[test]
fn a_resource_is_replaced_by_the_next_of_its_kind() {
    let mut resources: Resources<String> = Resources::new();
    assert!(!resources.contains(1));
    resources.add(1, "one".to_string());
    resources.add(2, "two".to_string());
    resources.add(1, "uno".to_string());
    assert_eq!(resources.get(1).get(), "uno");
    assert_eq!(resources.get(2).get(), "two");
    resources.delete(1);
    resources.delete(1);
    assert!(!resources.contains(1));
    assert!(resources.contains(2));

    resources.get_mut(2).get_mut().push('!');
    assert_eq!(resources.get(2).get(), "two!");

    let mut resource = Resource::new(5u32);
    *resource.get_mut() += 1;
    assert_eq!(*resource.get(), 6);
}

#[test]
fn waiting_entities_leave_in_the_order_they_came() {
    let mut waiting = WaitingEntities::new();
    waiting.insert(Entity(4));
    waiting.insert(Entity(2));
    waiting.insert(Entity(4));
    waiting.insert(Entity(9));
    assert!(waiting.contains(&Entity(2)));
    waiting.remove(&Entity(2));
    waiting.remove(&Entity(7));
    assert!(!waiting.contains(&Entity(2)));
    assert_eq!(waiting.take_all(), vec![Entity(4), Entity(9)]);
    assert!(!waiting.contains(&Entity(4)));
    assert_eq!(waiting.take_all(), Vec::<Entity>::new());
}
