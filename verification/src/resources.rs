use crate::TypeKey;
use std::collections::hash_map::Entry;
use std::collections::HashMap;
use vstd::prelude::*;

verus! {

/// One stored resource.
pub struct Resource<R> {
    data: R,
}

impl<R> View for Resource<R> {
    type V = R;

    closed spec fn view(&self) -> R {
        self.data
    }
}

impl<R> Resource<R> {
    /// Wraps `data`.
    pub fn new(data: R) -> (resource: Self)
        ensures
            resource@ == data,
    {
        Self { data }
    }

    /// The stored value.
    pub fn get(&self) -> (data: &R)
        ensures
            *data == self@,
    {
        &self.data
    }

    /// Exclusive access to the stored value: what is written through the
    /// reference is what the resource then holds.
    pub fn get_mut(&mut self) -> (data: &mut R)
        ensures
            *data == old(self)@,
            final(self)@ == *final(data),
    {
        &mut self.data
    }
}

/// A store of shared values that belong to no entity, at most one per kind.
pub struct Resources<R> {
    data: HashMap<TypeKey, Resource<R>>,
}

impl<R> View for Resources<R> {
    type V = Map<TypeKey, R>;

    closed spec fn view(&self) -> Map<TypeKey, R> {
        Map::new(|key: TypeKey| self.data@.contains_key(key), |key: TypeKey| self.data@[key]@)
    }
}

impl<R> Resources<R> {
    /// An empty store.
    pub fn new() -> (resources: Self)
        ensures
            resources@ == Map::<TypeKey, R>::empty(),
    {
        let resources = Self { data: HashMap::new() };
        assert(resources@ =~= Map::<TypeKey, R>::empty());
        resources
    }

    /// Stores `resource` as the value of kind `key`, in place of an earlier
    /// one of that kind.
    pub fn add(&mut self, key: TypeKey, resource: R)
        ensures
            final(self)@ == old(self)@.insert(key, resource),
    {
        broadcast use vstd::std_specs::hash::group_hash_axioms;

        self.data.insert(key, Resource::new(resource));
        assert(self@ =~= old(self)@.insert(key, resource));
    }

    /// Whether a value of kind `key` is stored.
    pub fn contains(&self, key: TypeKey) -> (r: bool)
        ensures
            r == self@.contains_key(key),
    {
        broadcast use vstd::std_specs::hash::group_hash_axioms;

        self.data.contains_key(&key)
    }

    /// The stored value of kind `key`.
    pub fn get(&self, key: TypeKey) -> (resource: &Resource<R>)
        requires
            self@.contains_key(key),
        ensures
            resource@ == self@[key],
    {
        broadcast use vstd::std_specs::hash::group_hash_axioms;

        self.data.get(&key).unwrap()
    }

    /// Exclusive access to the stored value of kind `key`. What the resource
    /// is changed to through the reference is what the store then holds for
    /// that kind; nothing else changes.
    pub fn get_mut(&mut self, key: TypeKey) -> (resource: &mut Resource<R>)
        requires
            old(self)@.contains_key(key),
        ensures
            resource@ == old(self)@[key],
            final(self)@ =~= old(self)@.insert(key, final(resource)@),
    {
        broadcast use vstd::std_specs::hash::group_hash_axioms;

        match self.data.entry(key) {
            Entry::Occupied(entry) => entry.into_mut(),
            Entry::Vacant(_) => vstd::pervasive::unreached(),
        }
    }

    /// Drops the value of kind `key`, if one is stored.
    pub fn delete(&mut self, key: TypeKey)
        ensures
            final(self)@ == old(self)@.remove(key),
    {
        broadcast use vstd::std_specs::hash::group_hash_axioms;

        self.data.remove(&key);
        assert(self@ =~= old(self)@.remove(key));
    }
}

} // verus!
