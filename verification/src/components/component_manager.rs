use super::comp_pool::{cleared, resized, CompPool, GenericCompPool};
use super::Component;
use crate::entities::Entity;
use crate::errors::EcsErrors;
use crate::signature::{bit_mask, lemma_masks_distinct, mask_for_bit, MAX_COMPONENT_TYPES};
use crate::TypeKey;
use std::collections::hash_map::Entry;
use std::collections::HashMap;
use vstd::prelude::*;

verus! {

/// The number of slots a pool starts with.
pub const INITIAL_POOL_SIZE: usize = 30;

/// What a component manager holds: the registered kinds in the order of their
/// registration, and one pool of slots for each.
///
/// The kind at position `b` of `keys` owns signature bit `b` and the pool at
/// position `b` of `pools`.
#[verifier::ext_equal]
pub struct ComponentManagerView<C> {
    pub keys: Seq<TypeKey>,
    pub pools: Seq<Seq<Option<C>>>,
}

impl<C> ComponentManagerView<C> {
    /// No kind is registered twice, each has its pool, and there are no more
    /// kinds than signature bits.
    pub open spec fn wf(self) -> bool {
        &&& self.keys.len() == self.pools.len()
        &&& self.keys.len() <= MAX_COMPONENT_TYPES
        &&& self.keys.no_duplicates()
    }

    /// The manager with nothing registered.
    pub open spec fn empty() -> Self {
        ComponentManagerView { keys: Seq::empty(), pools: Seq::empty() }
    }

    pub open spec fn is_registered(self, key: TypeKey) -> bool {
        self.keys.contains(key)
    }

    /// The signature bit of a registered kind.
    pub open spec fn bit_of(self, key: TypeKey) -> int {
        self.keys.index_of(key)
    }

    /// The signature mask of a registered kind.
    pub open spec fn mask_of(self, key: TypeKey) -> u32 {
        bit_mask(self.bit_of(key))
    }

    /// Whether the pool of bit `bit` holds a value for entity index `index`.
    pub open spec fn occupied(self, bit: int, index: int) -> bool {
        &&& 0 <= bit < self.pools.len()
        &&& 0 <= index < self.pools[bit].len()
        &&& self.pools[bit][index].is_some()
    }

    /// Whether entity index `index` holds a component of kind `key`.
    pub open spec fn holds(self, key: TypeKey, index: int) -> bool {
        self.is_registered(key) && self.occupied(self.bit_of(key), index)
    }

    /// The manager after `key` is registered, if it was not before.
    pub open spec fn register(self, key: TypeKey) -> Self {
        if self.is_registered(key) {
            self
        } else {
            ComponentManagerView {
                keys: self.keys.push(key),
                pools: self.pools.push(Seq::new(INITIAL_POOL_SIZE as nat, |i: int| None::<C>)),
            }
        }
    }

    /// Why `add_component` is refused for these arguments, if it is.
    pub open spec fn add_error(self, index: int, key: TypeKey) -> Option<EcsErrors> {
        if index >= usize::MAX {
            Some(EcsErrors::EntityDoesNotExist(index as usize))
        } else if !self.is_registered(key) && self.keys.len() >= MAX_COMPONENT_TYPES {
            Some(EcsErrors::ComponentLimitReached)
        } else {
            None
        }
    }

    /// The manager after `component` of kind `key` is stored for entity index
    /// `index`: the kind is registered if need be, its pool grown to cover the
    /// index, and the slot overwritten.
    pub open spec fn add_component(self, index: int, key: TypeKey, component: C) -> Self {
        let registered = self.register(key);
        let bit = registered.bit_of(key);
        let pool = registered.pools[bit];
        let grown = if pool.len() <= index {
            resized(pool, (index + 1) as nat, None)
        } else {
            pool
        };
        ComponentManagerView {
            keys: registered.keys,
            pools: registered.pools.update(bit, grown.update(index, Some(component))),
        }
    }

    /// The manager after the slot of entity index `index` in the pool of
    /// `key` is emptied. An unknown kind, or an index its pool does not cover,
    /// changes nothing.
    pub open spec fn remove(self, index: int, key: TypeKey) -> Self {
        if self.is_registered(key) {
            let bit = self.bit_of(key);
            ComponentManagerView {
                keys: self.keys,
                pools: self.pools.update(bit, cleared(self.pools[bit], index, None)),
            }
        } else {
            self
        }
    }

    /// The manager after the slot of entity index `index` is emptied in every
    /// pool.
    pub open spec fn remove_all(self, index: int) -> Self {
        ComponentManagerView {
            keys: self.keys,
            pools: Seq::new(self.pools.len(), |bit: int| cleared(self.pools[bit], index, None)),
        }
    }

    /// The signature mask of every registered kind.
    pub open spec fn signature_map(self) -> Map<TypeKey, u32> {
        Map::new(|key: TypeKey| self.is_registered(key), |key: TypeKey| self.mask_of(key))
    }

    /// The manager in which the pool of `key` has the slots `pool`.
    pub open spec fn with_pool(self, key: TypeKey, pool: Seq<Option<C>>) -> Self {
        ComponentManagerView { keys: self.keys, pools: self.pools.update(self.bit_of(key), pool) }
    }

    /// A registered kind sits at exactly one position.
    pub proof fn lemma_bit_of(self, key: TypeKey, bit: int)
        requires
            self.keys.no_duplicates(),
            0 <= bit < self.keys.len(),
            self.keys[bit] == key,
        ensures
            self.is_registered(key),
            self.bit_of(key) == bit,
    {
        self.keys.index_of_first_ensures(key);
        assert(self.keys.contains(key));
        let found = self.keys.index_of(key);
        assert(0 <= found < self.keys.len() && self.keys[found] == key);
    }

    /// Two different registered kinds have different masks.
    pub proof fn lemma_masks_differ(self, one: TypeKey, other: TypeKey)
        requires
            self.wf(),
            self.is_registered(one),
            self.is_registered(other),
            one != other,
        ensures
            self.mask_of(one) != self.mask_of(other),
    {
        let a = self.keys.index_of(one);
        let b = self.keys.index_of(other);
        assert(0 <= a < self.keys.len() && self.keys[a] == one);
        assert(0 <= b < self.keys.len() && self.keys[b] == other);
        lemma_masks_distinct(a, b);
    }

    /// Registering keeps the manager well formed while bits are left, keeps
    /// every earlier kind on its bit, and puts a new kind on the next free bit.
    pub proof fn lemma_register(self, key: TypeKey)
        requires
            self.wf(),
            self.is_registered(key) || self.keys.len() < MAX_COMPONENT_TYPES,
        ensures
            self.register(key).wf(),
            self.register(key).is_registered(key),
            !self.is_registered(key) ==> self.register(key).bit_of(key) == self.keys.len(),
            forall|other: TypeKey|
                self.is_registered(other) ==> #[trigger] self.register(key).is_registered(other)
                    && self.register(key).bit_of(other) == self.bit_of(other),
            0 <= self.register(key).bit_of(key) < self.register(key).keys.len(),
    {
        let after = self.register(key);
        if self.is_registered(key) {
            let bit = self.keys.index_of(key);
            assert(0 <= bit < self.keys.len());
        } else {
            assert(after.keys.no_duplicates()) by {
                assert forall|i: int, j: int|
                    0 <= i < after.keys.len() && 0 <= j < after.keys.len() && i != j implies after.keys[i]
                    != after.keys[j] by {
                    if i < self.keys.len() {
                        assert(self.keys.contains(self.keys[i]));
                    }
                    if j < self.keys.len() {
                        assert(self.keys.contains(self.keys[j]));
                    }
                }
            }
            after.lemma_bit_of(key, self.keys.len() as int);
            assert forall|other: TypeKey| self.is_registered(other) implies #[trigger] after.is_registered(
                other,
            ) && after.bit_of(other) == self.bit_of(other) by {
                let bit = self.keys.index_of(other);
                after.lemma_bit_of(other, bit);
            }
        }
    }
}

/// Owns the pool of every registered kind of component and gives each kind
/// its bit in the signature mask.
pub struct ComponentManager<C: Component> {
    /// The pool of each registered kind.
    component_pools: HashMap<TypeKey, CompPool<C>>,
    /// The signature mask of each registered kind.
    component_bit_masks: HashMap<TypeKey, u32>,
    /// The registered kinds in the order of their registration: the kind at
    /// position `b` owns bit `b`. This is the order in which the pools are
    /// walked.
    component_keys: Vec<TypeKey>,
}

impl<C: Component> View for ComponentManager<C> {
    type V = ComponentManagerView<C>;

    closed spec fn view(&self) -> ComponentManagerView<C> {
        ComponentManagerView {
            keys: self.component_keys@,
            pools: Seq::new(
                self.component_keys@.len(),
                |bit: int| self.component_pools@[self.component_keys@[bit]]@,
            ),
        }
    }
}

impl<C: Component> ComponentManager<C> {
    /// The two maps hold exactly the registered kinds, and each kind's mask
    /// is the mask of its bit.
    pub closed spec fn aligned(&self) -> bool {
        &&& forall|bit: int|
            0 <= bit < self.component_keys@.len() ==> {
                let key = #[trigger] self.component_keys@[bit];
                &&& self.component_pools@.contains_key(key)
                &&& self.component_bit_masks@.contains_key(key)
                &&& self.component_bit_masks@[key] == bit_mask(bit)
            }
        &&& forall|key: TypeKey| #[trigger]
            self.component_pools@.contains_key(key) ==> self.component_keys@.contains(key)
        &&& forall|key: TypeKey| #[trigger]
            self.component_bit_masks@.contains_key(key) ==> self.component_keys@.contains(key)
    }

    /// The invariant every manager keeps.
    pub open spec fn wf(&self) -> bool {
        self@.wf() && self.aligned()
    }

    /// What the maps hold for `key` is what the view says of it.
    proof fn lemma_lookup(&self, key: TypeKey)
        requires
            self.wf(),
        ensures
            self.component_bit_masks@.contains_key(key) == self@.is_registered(key),
            self.component_pools@.contains_key(key) == self@.is_registered(key),
            self@.is_registered(key) ==> {
                &&& 0 <= self@.bit_of(key) < self.component_keys@.len()
                &&& self.component_keys@[self@.bit_of(key)] == key
                &&& self.component_bit_masks@[key] == self@.mask_of(key)
                &&& self.component_pools@[key]@ == self@.pools[self@.bit_of(key)]
            },
    {
        if self@.is_registered(key) {
            let bit = self@.bit_of(key);
            assert(0 <= bit < self.component_keys@.len() && self.component_keys@[bit] == key);
        }
    }

    /// A manager with nothing registered.
    pub fn new() -> (manager: Self)
        ensures
            manager.wf(),
            manager@ == ComponentManagerView::<C>::empty(),
    {
        let manager = Self {
            component_pools: HashMap::new(),
            component_bit_masks: HashMap::new(),
            component_keys: Vec::new(),
        };
        assert(manager@.pools =~= Seq::empty());
        manager
    }

    /// Registers `key` on the next free bit, with a pool of its own.
    fn register(&mut self, key: TypeKey)
        requires
            old(self).wf(),
            !old(self)@.is_registered(key),
            old(self)@.keys.len() < MAX_COMPONENT_TYPES,
        ensures
            final(self).wf(),
            final(self)@ == old(self)@.register(key),
    {
        broadcast use vstd::std_specs::hash::group_hash_axioms;

        proof {
            old(self)@.lemma_register(key);
            old(self).lemma_lookup(key);
        }
        let mask = mask_for_bit(self.component_keys.len());
        self.component_keys.push(key);
        self.component_bit_masks.insert(key, mask);
        self.component_pools.insert(key, CompPool::new(INITIAL_POOL_SIZE));
        proof {
            let expected = old(self)@.register(key);
            assert forall|bit: int| 0 <= bit < expected.pools.len() implies self@.pools[bit]
                == expected.pools[bit] by {
                if bit < old(self)@.keys.len() {
                    assert(old(self).component_keys@.contains(old(self).component_keys@[bit]));
                }
            }
            assert(self@ =~~= expected);
            assert forall|bit: int| 0 <= bit < self.component_keys@.len() implies {
                let other = #[trigger] self.component_keys@[bit];
                &&& self.component_pools@.contains_key(other)
                &&& self.component_bit_masks@.contains_key(other)
                &&& self.component_bit_masks@[other] == bit_mask(bit)
            } by {
                if bit < old(self)@.keys.len() {
                    assert(old(self).component_keys@.contains(old(self).component_keys@[bit]));
                }
            }
            assert forall|other: TypeKey| #[trigger]
                self.component_pools@.contains_key(other) implies self.component_keys@.contains(
                other,
            ) by {
                if other == key {
                    assert(self.component_keys@[old(self)@.keys.len() as int] == key);
                } else {
                    assert(old(self).component_pools@.contains_key(other));
                    let bit = choose|bit: int|
                        0 <= bit < old(self).component_keys@.len() && old(
                            self,
                        ).component_keys@[bit] == other;
                    assert(self.component_keys@[bit] == other);
                }
            }
            assert forall|other: TypeKey| #[trigger]
                self.component_bit_masks@.contains_key(
                    other,
                ) implies self.component_keys@.contains(other) by {
                if other == key {
                    assert(self.component_keys@[old(self)@.keys.len() as int] == key);
                } else {
                    assert(old(self).component_bit_masks@.contains_key(other));
                    let bit = choose|bit: int|
                        0 <= bit < old(self).component_keys@.len() && old(
                            self,
                        ).component_keys@[bit] == other;
                    assert(self.component_keys@[bit] == other);
                }
            }
        }
    }

    /// Exclusive access to the pool of a registered kind. Whatever the pool
    /// is changed to through the reference is what the manager then holds
    /// for that kind; nothing else changes.
    fn pool_mut(&mut self, key: TypeKey) -> (pool: &mut CompPool<C>)
        requires
            old(self).wf(),
            old(self)@.is_registered(key),
        ensures
            pool@ == old(self)@.pools[old(self)@.bit_of(key)],
            final(self)@ =~~= old(self)@.with_pool(key, final(pool)@),
            final(self).aligned(),
    {
        broadcast use vstd::std_specs::hash::group_hash_axioms;

        proof {
            old(self).lemma_lookup(key);
            assert forall|bit: int| 0 <= bit < self.component_keys@.len() implies (
            #[trigger] self.component_keys@[bit] == key) == (bit == old(self)@.bit_of(key)) by {}
        }
        match self.component_pools.entry(key) {
            Entry::Occupied(entry) => entry.into_mut(),
            Entry::Vacant(_) => vstd::pervasive::unreached(),
        }
    }

    /// Stores `component` as the component of kind `key` of `entity` and
    /// returns the signature mask of that kind.
    ///
    /// A kind seen for the first time is registered on the next free bit; when
    /// all bits are taken it is refused, and nothing changes.
    pub fn add_component(&mut self, entity: &Entity, key: TypeKey, component: C) -> (r: Result<
        u32,
        EcsErrors,
    >)
        requires
            old(self).wf(),
        ensures
            final(self).wf(),
            match old(self)@.add_error(entity.0 as int, key) {
                Some(e) => r == Err::<u32, EcsErrors>(e) && final(self)@ == old(self)@,
                None => final(self)@ == old(self)@.add_component(entity.0 as int, key, component)
                    && r == Ok::<u32, EcsErrors>(final(self)@.mask_of(key)),
            },
    {
        broadcast use vstd::std_specs::hash::group_hash_axioms;

        if entity.0 == usize::MAX {
            return Err(EcsErrors::EntityDoesNotExist(entity.0));
        }
        proof {
            old(self).lemma_lookup(key);
        }
        if !self.component_bit_masks.contains_key(&key) {
            if self.component_keys.len() >= MAX_COMPONENT_TYPES {
                return Err(EcsErrors::ComponentLimitReached);
            }
            self.register(key);
        }
        let ghost registered = self@;
        proof {
            old(self)@.lemma_register(key);
            self.lemma_lookup(key);
        }
        let mask = *self.component_bit_masks.get(&key).unwrap();
        let pool = self.pool_mut(key);
        if pool.get_size() <= entity.0 {
            pool.resize(entity.0 + 1);
        }
        let _ = pool.set(entity.0, component);
        proof {
            let expected = old(self)@.add_component(entity.0 as int, key, component);
            assert(self@.pools =~~= expected.pools);
            assert(self@.keys == expected.keys);
        }
        Ok(mask)
    }

    /// Empties the slot of `entity` in the pool of `key`. Removing what was
    /// never there succeeds; a kind that was never registered is refused.
    pub fn remove(&mut self, entity: &Entity, key: TypeKey) -> (r: Result<(), EcsErrors>)
        requires
            old(self).wf(),
        ensures
            final(self).wf(),
            final(self)@ == old(self)@.remove(entity.0 as int, key),
            r == if old(self)@.is_registered(key) {
                Ok::<(), EcsErrors>(())
            } else {
                Err::<(), EcsErrors>(EcsErrors::ComponentDoesNotExist(key))
            },
    {
        broadcast use vstd::std_specs::hash::group_hash_axioms;

        proof {
            old(self).lemma_lookup(key);
        }
        if self.component_pools.contains_key(&key) {
            let pool = self.pool_mut(key);
            pool.remove_any(entity);
            proof {
                assert(self@.pools =~~= old(self)@.remove(entity.0 as int, key).pools);
            }
            Ok(())
        } else {
            Err(EcsErrors::component_does_not_exist(key))
        }
    }

    /// The same as `remove`, for a kind named by a borrowed key.
    pub fn remove_with_id(&mut self, entity: &Entity, comp_id: &TypeKey) -> (r: Result<
        (),
        EcsErrors,
    >)
        requires
            old(self).wf(),
        ensures
            final(self).wf(),
            final(self)@ == old(self)@.remove(entity.0 as int, *comp_id),
            r == if old(self)@.is_registered(*comp_id) {
                Ok::<(), EcsErrors>(())
            } else {
                Err::<(), EcsErrors>(EcsErrors::ComponentDoesNotExist(*comp_id))
            },
    {
        self.remove(entity, *comp_id)
    }

    /// Empties the slot of `entity` in every pool.
    pub fn remove_all(&mut self, entity: &Entity)
        requires
            old(self).wf(),
        ensures
            final(self).wf(),
            final(self)@ == old(self)@.remove_all(entity.0 as int),
    {
        let mut bit: usize = 0;
        while bit < self.component_keys.len()
            invariant
                self.wf(),
                bit <= self@.keys.len(),
                self@.keys == old(self)@.keys,
                forall|i: int|
                    0 <= i < bit ==> #[trigger] self@.pools[i] == cleared(
                        old(self)@.pools[i],
                        entity.0 as int,
                        None,
                    ),
                forall|i: int| bit <= i < self@.keys.len() ==> #[trigger] self@.pools[i] == old(
                    self,
                )@.pools[i],
            decreases self@.keys.len() - bit,
        {
            let key = self.component_keys[bit];
            let ghost before = self@;
            proof {
                self@.lemma_bit_of(key, bit as int);
            }
            let pool = self.pool_mut(key);
            pool.remove_any(entity);
            proof {
                assert(self@.keys == before.keys);
                assert forall|i: int| 0 <= i < self@.keys.len() && i != bit implies self@.pools[i]
                    == before.pools[i] by {}
            }
            bit += 1;
        }
        proof {
            assert(self@.pools =~~= old(self)@.remove_all(entity.0 as int).pools);
        }
    }

    /// Shared access to the pool of `key`.
    pub fn get_components(&self, key: TypeKey) -> (r: Result<&CompPool<C>, EcsErrors>)
        requires
            self.wf(),
        ensures
            match r {
                Ok(pool) => self@.is_registered(key) && pool@ == self@.pools[self@.bit_of(key)],
                Err(e) => !self@.is_registered(key) && e == EcsErrors::ComponentDoesNotExist(key),
            },
    {
        broadcast use vstd::std_specs::hash::group_hash_axioms;

        proof {
            self.lemma_lookup(key);
        }
        match self.component_pools.get(&key) {
            Some(pool) => Ok(pool),
            None => Err(EcsErrors::component_does_not_exist(key)),
        }
    }

    /// Exclusive access to the pool of `key`. Whatever the pool is changed to
    /// through the reference is what the manager then holds for that kind;
    /// nothing else changes.
    pub fn get_components_mut(&mut self, key: TypeKey) -> (r: Result<&mut CompPool<C>, EcsErrors>)
        requires
            old(self).wf(),
        ensures
            match r {
                Ok(pool) => old(self)@.is_registered(key) && pool@ == old(self)@.pools[old(
                    self,
                )@.bit_of(key)] && final(self)@ =~~= old(self)@.with_pool(key, final(pool)@),
                Err(e) => !old(self)@.is_registered(key) && e == EcsErrors::ComponentDoesNotExist(
                    key,
                ) && final(self)@ == old(self)@,
            },
            final(self).wf(),
    {
        broadcast use vstd::std_specs::hash::group_hash_axioms;

        proof {
            old(self).lemma_lookup(key);
        }
        if self.component_pools.contains_key(&key) {
            Ok(self.pool_mut(key))
        } else {
            Err(EcsErrors::component_does_not_exist(key))
        }
    }

    /// The signature mask of every registered kind, by key.
    pub fn component_bit_masks(&self) -> (masks: HashMap<TypeKey, u32>)
        requires
            self.wf(),
        ensures
            masks@ == self@.signature_map(),
    {
        let masks = self.component_bit_masks.clone();
        proof {
            assert forall|key: TypeKey| masks@.contains_key(key) == self@.is_registered(
                key,
            ) && (self@.is_registered(key) ==> masks@[key] == self@.mask_of(key)) by {
                self.lemma_lookup(key);
            }
            assert(masks@ =~= self@.signature_map());
        }
        masks
    }

    /// The signature mask of `key`.
    pub fn get_mask(&self, key: TypeKey) -> (r: Result<&u32, EcsErrors>)
        requires
            self.wf(),
        ensures
            r == if self@.is_registered(key) {
                Ok::<&u32, EcsErrors>(&self@.mask_of(key))
            } else {
                Err::<&u32, EcsErrors>(EcsErrors::ComponentDoesNotExist(key))
            },
    {
        broadcast use vstd::std_specs::hash::group_hash_axioms;

        proof {
            self.lemma_lookup(key);
        }
        match self.component_bit_masks.get(&key) {
            Some(mask) => Ok(mask),
            None => Err(EcsErrors::component_does_not_exist(key)),
        }
    }

    /// The same as `get_mask`, for a kind named by a borrowed key.
    pub fn get_mask_for_id(&self, comp_id: &TypeKey) -> (r: Result<&u32, EcsErrors>)
        requires
            self.wf(),
        ensures
            r == if self@.is_registered(*comp_id) {
                Ok::<&u32, EcsErrors>(&self@.mask_of(*comp_id))
            } else {
                Err::<&u32, EcsErrors>(EcsErrors::ComponentDoesNotExist(*comp_id))
            },
    {
        self.get_mask(*comp_id)
    }
}

} // verus!
