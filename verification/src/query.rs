use crate::components::comp_pool::CompPool;
use crate::components::component_manager::{ComponentManager, ComponentManagerView};
use crate::components::Component;
use crate::entities::entity_manager::{EntityManager, EntityManagerView};
use crate::entities::Entity;
use crate::resources::{Resource, Resources};
use crate::TypeKey;
use vstd::prelude::*;

verus! {

/// A read view over the store, made anew for each pass: it hands out pools,
/// entity lists and resources, and changes nothing.
pub struct Query<'a, C: Component, R> {
    component_manager: &'a ComponentManager<C>,
    entity_manager: &'a EntityManager<C>,
    pub resources: &'a Resources<R>,
}

/// The part of a query that hands out component pools.
pub struct ComponentQuery<'a, C: Component> {
    component_manager: &'a ComponentManager<C>,
}

/// The part of a query that lists entities by the kinds of component they
/// hold. It starts out asking for nothing and gathers one kind per call of
/// `with_component`.
pub struct EntityQuery<'a, C: Component> {
    signature: u32,
    component_manager: &'a ComponentManager<C>,
    entity_manager: &'a EntityManager<C>,
}

impl<'a, C: Component, R> Query<'a, C, R> {
    /// What the component manager under this query holds.
    pub closed spec fn components_view(&self) -> ComponentManagerView<C> {
        self.component_manager@
    }

    /// What the entity manager under this query holds.
    pub closed spec fn entities_view(&self) -> EntityManagerView<C> {
        self.entity_manager@
    }

    /// The resources under this query.
    pub closed spec fn resources_view(&self) -> Map<TypeKey, R> {
        self.resources@
    }

    /// Both managers under the query keep their invariants.
    pub closed spec fn wf(&self) -> bool {
        self.component_manager.wf() && self.entity_manager.wf()
    }

    /// What a query holds is well formed.
    pub proof fn lemma_wf(&self)
        requires
            self.wf(),
        ensures
            self.components_view().wf(),
            self.entities_view().wf(),
    {
    }

    /// A query over the given parts of a store.
    pub fn new(
        entity_manager: &'a EntityManager<C>,
        component_manager: &'a ComponentManager<C>,
        resources: &'a Resources<R>,
    ) -> (query: Self)
        requires
            entity_manager.wf(),
            component_manager.wf(),
        ensures
            query.wf(),
            query.entities_view() == entity_manager@,
            query.components_view() == component_manager@,
            query.resources_view() == resources@,
    {
        Self { entity_manager, component_manager, resources }
    }

    /// The part that hands out component pools.
    pub fn components(&self) -> (part: ComponentQuery<'a, C>)
        ensures
            part.components_view() == self.components_view(),
            self.wf() ==> part.wf(),
    {
        ComponentQuery { component_manager: self.component_manager }
    }

    /// The part that lists entities; it starts out asking for nothing.
    pub fn entities(&self) -> (part: EntityQuery<'a, C>)
        ensures
            part.components_view() == self.components_view(),
            part.entities_view() == self.entities_view(),
            part.required() == 0,
            self.wf() ==> part.wf(),
    {
        EntityQuery {
            signature: 0,
            entity_manager: self.entity_manager,
            component_manager: self.component_manager,
        }
    }

    /// The stored resource of kind `key`.
    pub fn resource(&self, key: TypeKey) -> (resource: &'a Resource<R>)
        requires
            self.resources_view().contains_key(key),
        ensures
            resource@ == self.resources_view()[key],
    {
        self.resources.get(key)
    }
}

impl<'a, C: Component> ComponentQuery<'a, C> {
    /// What the component manager under this query holds.
    pub closed spec fn components_view(&self) -> ComponentManagerView<C> {
        self.component_manager@
    }

    /// The component manager under the query keeps its invariant.
    pub closed spec fn wf(&self) -> bool {
        self.component_manager.wf()
    }

    /// The pool of kind `key`, for reading.
    pub fn get(self, key: TypeKey) -> (pool: &'a CompPool<C>)
        requires
            self.wf(),
            self.components_view().is_registered(key),
        ensures
            pool@ == self.components_view().pools[self.components_view().bit_of(key)],
    {
        match self.component_manager.get_components(key) {
            Ok(pool) => pool,
            Err(_) => vstd::pervasive::unreached(),
        }
    }
}

impl<'a, C: Component> EntityQuery<'a, C> {
    /// What the component manager under this query holds.
    pub closed spec fn components_view(&self) -> ComponentManagerView<C> {
        self.component_manager@
    }

    /// What the entity manager under this query holds.
    pub closed spec fn entities_view(&self) -> EntityManagerView<C> {
        self.entity_manager@
    }

    /// The signature gathered so far: the masks of all kinds asked for.
    pub closed spec fn required(&self) -> u32 {
        self.signature
    }

    /// Both managers under the query keep their invariants.
    pub closed spec fn wf(&self) -> bool {
        self.component_manager.wf() && self.entity_manager.wf()
    }

    /// Asks, in addition, for a component of kind `key`.
    pub fn with_component(self, key: TypeKey) -> (query: Self)
        requires
            self.wf(),
            self.components_view().is_registered(key),
        ensures
            query.wf(),
            query.components_view() == self.components_view(),
            query.entities_view() == self.entities_view(),
            query.required() == self.required() | self.components_view().mask_of(key),
    {
        let mut query = self;
        match query.component_manager.get_mask(key) {
            Ok(mask) => {
                query.signature = query.signature | *mask;
            },
            Err(_) => vstd::pervasive::unreached(),
        }
        query
    }

    /// The live entities that hold a component of every kind asked for, in
    /// ascending order of their index.
    pub fn get(self) -> (entities: Vec<Entity>)
        requires
            self.wf(),
        ensures
            entities@ == self.entities_view().matching(self.required()),
    {
        self.entity_manager.entities_with(self.signature)
    }
}

} // verus!
