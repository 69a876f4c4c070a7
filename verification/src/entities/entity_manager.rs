use super::Entity;
use crate::components::component_manager::{ComponentManager, ComponentManagerView};
use crate::components::Component;
use crate::errors::EcsErrors;
use crate::signature::{
    has_bit, lemma_clear_bit, lemma_empty_signature, lemma_satisfies_empty, lemma_satisfies_union,
    lemma_set_bit, satisfies, signature_satisfies,
};
use crate::TypeKey;
use std::collections::HashMap;
use std::collections::VecDeque;
use vstd::prelude::*;

verus! {

/// What an id generator holds: `next`, the smallest id never issued, and the
/// queue of ids that were handed back, oldest first.
pub struct IdGeneratorView {
    pub next: nat,
    pub freed: Seq<usize>,
}

impl IdGeneratorView {
    /// Every queued id was issued before, and none is queued twice.
    pub open spec fn wf(self) -> bool {
        &&& self.next <= usize::MAX
        &&& self.freed.no_duplicates()
        &&& forall|i: int| 0 <= i < self.freed.len() ==> self.freed[i] < self.next
    }

    /// The generator that has issued nothing.
    pub open spec fn empty() -> Self {
        IdGeneratorView { next: 0, freed: Seq::empty() }
    }

    /// `id` was issued and has not been handed back since.
    pub open spec fn is_live(self, id: int) -> bool {
        0 <= id < self.next && !self.freed.contains(id as usize)
    }

    /// Whether an id can be issued: one is queued for reuse, or the next fresh
    /// id still fits the machine word.
    pub open spec fn can_allocate(self) -> bool {
        self.freed.len() > 0 || self.next < usize::MAX
    }

    /// The id that the next allocation returns: the one handed back longest
    /// ago, or a fresh one when none waits.
    pub open spec fn next_id(self) -> usize {
        if self.freed.len() > 0 {
            self.freed[0]
        } else {
            self.next as usize
        }
    }

    /// The generator after one allocation.
    pub open spec fn allocate(self) -> Self {
        if self.freed.len() > 0 {
            IdGeneratorView { next: self.next, freed: self.freed.drop_first() }
        } else {
            IdGeneratorView { next: self.next + 1, freed: self.freed }
        }
    }

    /// The generator after `id` is handed back. An id that is not live is
    /// ignored.
    pub open spec fn free(self, id: usize) -> Self {
        if self.is_live(id as int) {
            IdGeneratorView { next: self.next, freed: self.freed.push(id) }
        } else {
            self
        }
    }

    /// The generator after the ids of `ids` are handed back one by one.
    pub open spec fn free_all(self, ids: Seq<usize>) -> Self
        decreases ids.len(),
    {
        if ids.len() == 0 {
            self
        } else {
            self.free_all(ids.drop_last()).free(ids.last())
        }
    }

    /// The generator after `count` allocations.
    pub open spec fn allocate_many(self, count: nat) -> Self
        decreases count,
    {
        if count == 0 {
            self
        } else {
            self.allocate_many((count - 1) as nat).allocate()
        }
    }

    /// An allocation issues an id that was not live, makes it live, and leaves
    /// every other id as it was.
    pub proof fn lemma_allocate(self)
        requires
            self.wf(),
            self.can_allocate(),
        ensures
            self.allocate().wf(),
            !self.is_live(self.next_id() as int),
            self.allocate().is_live(self.next_id() as int),
            forall|id: int|
                id != self.next_id() ==> #[trigger] self.allocate().is_live(id) == self.is_live(id),
    {
        let after = self.allocate();
        if self.freed.len() > 0 {
            let id = self.freed[0];
            assert(self.freed.contains(id));
            assert forall|other: usize| after.freed.contains(other) == (self.freed.contains(other)
                && other != id) by {
                if after.freed.contains(other) {
                    let i = choose|i: int| 0 <= i < after.freed.len() && after.freed[i] == other;
                    assert(self.freed[i + 1] == other);
                }
                if self.freed.contains(other) && other != id {
                    let i = choose|i: int| 0 <= i < self.freed.len() && self.freed[i] == other;
                    assert(after.freed[i - 1] == other);
                }
            }
            assert forall|id2: int| id2 != self.next_id() implies #[trigger] after.is_live(id2)
                == self.is_live(id2) by {
                if 0 <= id2 < self.next {
                    assert(after.freed.contains(id2 as usize) == (self.freed.contains(id2 as usize)
                        && id2 as usize != id));
                }
            }
        } else {
            assert forall|id2: int| id2 != self.next_id() implies #[trigger] after.is_live(id2)
                == self.is_live(id2) by {}
        }
    }

    /// Handing an id back keeps the generator well formed, ends the life of
    /// that id and of no other.
    pub proof fn lemma_free(self, id: usize)
        requires
            self.wf(),
        ensures
            self.free(id).wf(),
            !self.free(id).is_live(id as int),
            forall|other: int| other != id ==> #[trigger] self.free(id).is_live(other) == self.is_live(other),
    {
        let after = self.free(id);
        if self.is_live(id as int) {
            assert(after.freed.last() == id);
            assert(after.freed.contains(id));
            assert forall|other: usize| after.freed.contains(other) == (self.freed.contains(other)
                || other == id) by {
                if self.freed.contains(other) {
                    let i = choose|i: int| 0 <= i < self.freed.len() && self.freed[i] == other;
                    assert(after.freed[i] == other);
                }
            }
            assert forall|other: int| other != id implies #[trigger] after.is_live(other)
                == self.is_live(other) by {
                if 0 <= other < self.next {
                    assert(after.freed.contains(other as usize) == (self.freed.contains(
                        other as usize,
                    ) || other as usize == id));
                }
            }
        }
    }

    /// While no id waits for reuse, the id issued next is the smallest id not
    /// in use.
    pub proof fn lemma_fresh_id_is_smallest(self)
        requires
            self.wf(),
            self.freed.len() == 0,
        ensures
            !self.is_live(self.next_id() as int),
            forall|id: int| 0 <= id < self.next_id() ==> self.is_live(id),
    {
    }

    /// Handing back distinct live ids, starting with an empty queue, queues
    /// them in that order.
    pub proof fn lemma_free_all(self, ids: Seq<usize>)
        requires
            self.wf(),
            self.freed.len() == 0,
            ids.no_duplicates(),
            forall|i: int| 0 <= i < ids.len() ==> self.is_live(ids[i] as int),
        ensures
            self.free_all(ids).wf(),
            self.free_all(ids).next == self.next,
            self.free_all(ids).freed == ids,
        decreases ids.len(),
    {
        if ids.len() > 0 {
            let front = ids.drop_last();
            self.lemma_free_all(front);
            let before = self.free_all(front);
            before.lemma_free(ids.last());
            assert(!front.contains(ids.last())) by {
                if front.contains(ids.last()) {
                    let i = choose|i: int| 0 <= i < front.len() && front[i] == ids.last();
                    assert(ids[i] == ids[ids.len() - 1]);
                }
            }
            assert(before.is_live(ids.last() as int));
            assert(front.push(ids.last()) =~= ids);
        } else {
            assert(self.freed =~= ids);
        }
    }

    /// Allocating from a queue takes its ids from the front.
    pub proof fn lemma_allocate_many(self, count: nat)
        requires
            self.wf(),
            count <= self.freed.len(),
        ensures
            self.allocate_many(count).wf(),
            self.allocate_many(count).next == self.next,
            self.allocate_many(count).freed == self.freed.skip(count as int),
        decreases count,
    {
        if count > 0 {
            self.lemma_allocate_many((count - 1) as nat);
            let before = self.allocate_many((count - 1) as nat);
            before.lemma_allocate();
            assert(before.freed.drop_first() =~= self.freed.skip(count as int));
        } else {
            assert(self.freed.skip(0) =~= self.freed);
        }
    }

    /// Ids are recycled first in, first out: after distinct live ids are
    /// handed back in the order of `ids`, the allocation number `turn` returns
    /// `ids[turn]`.
    pub proof fn lemma_recycling_is_fifo(self, ids: Seq<usize>, turn: int)
        requires
            self.wf(),
            self.freed.len() == 0,
            ids.no_duplicates(),
            forall|i: int| 0 <= i < ids.len() ==> self.is_live(ids[i] as int),
            0 <= turn < ids.len(),
        ensures
            self.free_all(ids).allocate_many(turn as nat).next_id() == ids[turn],
    {
        self.lemma_free_all(ids);
        self.free_all(ids).lemma_allocate_many(turn as nat);
    }
}

/// Issues entity ids and takes them back for reuse.
pub struct EntityIdGenerator {
    current_free_id: usize,
    freed_entities: VecDeque<usize>,
}

impl View for EntityIdGenerator {
    type V = IdGeneratorView;

    closed spec fn view(&self) -> IdGeneratorView {
        IdGeneratorView { next: self.current_free_id as nat, freed: self.freed_entities@ }
    }
}

impl EntityIdGenerator {
    /// The invariant every generator keeps.
    pub open spec fn wf(&self) -> bool {
        self@.wf()
    }

    /// A generator that has issued nothing.
    pub fn new() -> (generator: Self)
        ensures
            generator.wf(),
            generator@ == IdGeneratorView::empty(),
    {
        Self { current_free_id: 0, freed_entities: VecDeque::new() }
    }

    /// Issues an id: the one handed back longest ago, or else a fresh one.
    pub fn get_id(&mut self) -> (id: usize)
        requires
            old(self).wf(),
            old(self)@.can_allocate(),
        ensures
            final(self).wf(),
            id == old(self)@.next_id(),
            final(self)@ == old(self)@.allocate(),
    {
        proof {
            old(self)@.lemma_allocate();
        }
        match self.freed_entities.pop_front() {
            Some(id) => {
                assert(self.freed_entities@ =~= old(self).freed_entities@.drop_first());
                id
            },
            None => {
                let id = self.current_free_id;
                self.current_free_id += 1;
                id
            },
        }
    }

    /// The smallest id never issued.
    pub fn issued(&self) -> (next: usize)
        ensures
            next == self@.next,
    {
        self.current_free_id
    }

    /// Hands `id` back for reuse. An id that is not live is ignored.
    pub fn free_id(&mut self, id: usize)
        requires
            old(self).wf(),
        ensures
            final(self).wf(),
            final(self)@ == old(self)@.free(id),
    {
        proof {
            old(self)@.lemma_free(id);
        }
        if self.is_id_used(id) {
            self.freed_entities.push_back(id);
        }
    }

    /// Whether `id` was issued and has not been handed back since.
    pub fn is_id_used(&self, id: usize) -> (used: bool)
        requires
            self.wf(),
        ensures
            used == self@.is_live(id as int),
    {
        if id >= self.current_free_id {
            return false;
        }
        let mut i: usize = 0;
        while i < self.freed_entities.len()
            invariant
                i <= self.freed_entities@.len(),
                forall|j: int| 0 <= j < i ==> self.freed_entities@[j] != id,
            decreases self.freed_entities@.len() - i,
        {
            if self.freed_entities[i] == id {
                return false;
            }
            i += 1;
        }
        true
    }
}

/// How many signature slots beyond the new id are added when the signature
/// array has to grow.
pub const SIGNATURE_HEADROOM: usize = 10;

/// What an entity manager holds: the id generator, one signature per entity
/// index, and the component pools.
#[verifier::ext_equal]
pub struct EntityManagerView<C> {
    pub ids: IdGeneratorView,
    pub signatures: Seq<u32>,
    pub components: ComponentManagerView<C>,
}

impl<C> EntityManagerView<C> {
    /// The manager with no entity and no kind of component.
    pub open spec fn empty() -> Self {
        EntityManagerView {
            ids: IdGeneratorView::empty(),
            signatures: Seq::empty(),
            components: ComponentManagerView::empty(),
        }
    }

    /// The signature of entity index `index`; an index without a slot has the
    /// empty signature.
    pub open spec fn signature_of(self, index: int) -> u32 {
        if 0 <= index < self.signatures.len() {
            self.signatures[index]
        } else {
            0
        }
    }

    pub open spec fn is_live(self, entity: Entity) -> bool {
        self.ids.is_live(entity.0 as int)
    }

    /// Whether `entity` holds a component of kind `key`, read from the pools.
    pub open spec fn has_component(self, entity: Entity, key: TypeKey) -> bool {
        self.components.holds(key, entity.0 as int)
    }

    /// Signatures and pools agree: bit `bit` of the signature of an entity
    /// index is set exactly when the pool of that bit holds a value for it.
    pub open spec fn consistent(self) -> bool {
        forall|index: int, bit: int|
            #![trigger self.components.occupied(bit, index)]
            #![trigger has_bit(self.signature_of(index), bit)]
            0 <= bit < 32 ==> has_bit(self.signature_of(index), bit) == self.components.occupied(
                bit,
                index,
            )
    }

    /// The invariant every entity manager keeps: its parts are well formed,
    /// every issued id has a signature slot, signatures and pools agree, and
    /// an index that is not live has the empty signature.
    pub open spec fn wf(self) -> bool {
        &&& self.ids.wf()
        &&& self.components.wf()
        &&& self.ids.next <= self.signatures.len() <= usize::MAX
        &&& self.consistent()
        &&& forall|index: int|
            !self.ids.is_live(index) ==> #[trigger] self.signature_of(index) == 0
    }

    /// `entity` is live and its signature holds every bit of `required`.
    pub open spec fn matches(self, entity: Entity, required: u32) -> bool {
        self.is_live(entity) && satisfies(self.signature_of(entity.0 as int), required)
    }

    /// One handle for each of the first `count` entity indices, in ascending
    /// order.
    pub open spec fn handles(count: int) -> Seq<Entity> {
        Seq::new(count as nat, |i: int| Entity(i as usize))
    }

    /// The live entities whose signature holds every bit of `required`, in
    /// ascending order of their index.
    pub open spec fn matching(self, required: u32) -> Seq<Entity> {
        Self::handles(self.signatures.len() as int).filter(
            |entity: Entity| self.matches(entity, required),
        )
    }

    /// What `matching` holds after the first `count` indices are looked at.
    proof fn lemma_matching_prefix(self, required: u32, count: int)
        requires
            0 <= count <= self.signatures.len() <= usize::MAX,
        ensures
            ({
                let found = Self::handles(self.signatures.len() as int).take(count).filter(
                    |entity: Entity| self.matches(entity, required),
                );
                &&& forall|k: int|
                    0 <= k < found.len() ==> (#[trigger] found[k]).0 < count && self.matches(
                        found[k],
                        required,
                    )
                &&& forall|j: int, k: int|
                    0 <= j < k < found.len() ==> (#[trigger] found[j]).0 < (#[trigger] found[k]).0
                &&& forall|i: int|
                    0 <= i < count && self.matches(Entity(i as usize), required)
                        ==> #[trigger] found.contains(Entity(i as usize))
            }),
        decreases count,
    {
        reveal(Seq::filter);
        let all = Self::handles(self.signatures.len() as int);
        let pred = |entity: Entity| self.matches(entity, required);
        let found = all.take(count).filter(pred);
        if count > 0 {
            self.lemma_matching_prefix(required, count - 1);
            let before = all.take(count - 1).filter(pred);
            let last = all[count - 1];
            assert(all.take(count).drop_last() =~= all.take(count - 1));
            assert(all.take(count).last() == last);
            assert(last == Entity((count - 1) as usize));
            if pred(last) {
                assert(found == before.push(last));
                assert forall|i: int|
                    0 <= i < count && self.matches(
                        Entity(i as usize),
                        required,
                    ) implies #[trigger] found.contains(Entity(i as usize)) by {
                    if i < count - 1 {
                        assert(before.contains(Entity(i as usize)));
                        let k = choose|k: int| 0 <= k < before.len() && before[k] == Entity(i as usize);
                        assert(found[k] == Entity(i as usize));
                    } else {
                        assert(found[found.len() - 1] == last);
                    }
                }
            } else {
                assert(found == before);
            }
        }
    }

    /// `matching` holds exactly the live entities whose signature holds every
    /// bit of `required`, each once, in ascending order of their index.
    pub proof fn lemma_matching(self, required: u32)
        requires
            self.wf(),
        ensures
            forall|entity: Entity| #[trigger]
                self.matching(required).contains(entity) <==> self.matches(entity, required),
            forall|j: int, k: int|
                0 <= j < k < self.matching(required).len() ==> (#[trigger] self.matching(
                    required,
                )[j]).0 < (#[trigger] self.matching(required)[k]).0,
    {
        let count = self.signatures.len() as int;
        let all = Self::handles(count);
        self.lemma_matching_prefix(required, count);
        assert(all.take(count) =~= all);
        let found = self.matching(required);
        assert forall|entity: Entity| #[trigger]
            found.contains(entity) <==> self.matches(entity, required) by {
            if found.contains(entity) {
                let k = choose|k: int| 0 <= k < found.len() && found[k] == entity;
                assert(self.matches(found[k], required));
            }
            if self.matches(entity, required) {
                assert(entity.0 < self.ids.next);
                assert(entity == Entity(entity.0 as int as usize));
                assert(found.contains(Entity(entity.0 as int as usize)));
            }
        }
    }

    /// Asking for two sets of kinds at once is asking for each of them.
    pub proof fn lemma_matches_both(self, entity: Entity, one: u32, other: u32)
        ensures
            self.matches(entity, one | other) == (self.matches(entity, one) && self.matches(
                entity,
                other,
            )),
    {
        lemma_satisfies_union(self.signature_of(entity.0 as int), one, other);
    }

    /// Asking for nothing is asking for the live entities.
    pub proof fn lemma_matches_nothing_asked(self, entity: Entity)
        ensures
            self.matches(entity, 0) == self.is_live(entity),
    {
        lemma_satisfies_empty(self.signature_of(entity.0 as int));
    }

    /// Asking for one registered kind is asking for the entities that hold
    /// a component of that kind.
    pub proof fn lemma_matches_kind(self, entity: Entity, key: TypeKey)
        requires
            self.wf(),
            self.components.is_registered(key),
        ensures
            self.matches(entity, self.components.mask_of(key)) == self.has_component(entity, key),
    {
        self.lemma_signature_matches_pool(entity, key);
        if !self.is_live(entity) {
            self.lemma_dead_entity_holds_nothing(entity, key);
        }
    }

    /// Whether an entity can be created without leaving the machine word.
    pub open spec fn can_create(self) -> bool {
        self.ids.next + SIGNATURE_HEADROOM <= usize::MAX
    }

    /// The entity that the next creation returns.
    pub open spec fn next_entity(self) -> Entity {
        Entity(self.ids.next_id())
    }

    /// The manager after one entity is created: its id is issued and its
    /// signature slot is empty, the array grown with headroom where it had no
    /// slot for the id.
    pub open spec fn create_entity(self) -> Self {
        let id = self.ids.next_id() as int;
        EntityManagerView {
            ids: self.ids.allocate(),
            signatures: if id >= self.signatures.len() {
                self.signatures + Seq::new(
                    (id + SIGNATURE_HEADROOM - self.signatures.len()) as nat,
                    |i: int| 0u32,
                )
            } else {
                self.signatures.update(id, 0u32)
            },
            components: self.components,
        }
    }

    /// The manager after `entity` is removed: its signature emptied, its slot
    /// emptied in every pool, its id handed back. An entity that is not live
    /// changes nothing.
    pub open spec fn remove_entity(self, entity: Entity) -> Self {
        if self.is_live(entity) {
            EntityManagerView {
                ids: self.ids.free(entity.0),
                signatures: self.signatures.update(entity.0 as int, 0u32),
                components: self.components.remove_all(entity.0 as int),
            }
        } else {
            self
        }
    }

    /// Why `add_component` is refused for these arguments, if it is.
    pub open spec fn add_error(self, entity: Entity, key: TypeKey) -> Option<EcsErrors> {
        if !self.is_live(entity) {
            Some(EcsErrors::EntityDoesNotExist(entity.0))
        } else {
            self.components.add_error(entity.0 as int, key)
        }
    }

    /// The manager after `component` of kind `key` is attached to `entity`;
    /// unchanged where that is refused.
    pub open spec fn add_component(self, entity: Entity, key: TypeKey, component: C) -> Self {
        if self.add_error(entity, key).is_some() {
            self
        } else {
            let components = self.components.add_component(entity.0 as int, key, component);
            EntityManagerView {
                ids: self.ids,
                signatures: self.signatures.update(
                    entity.0 as int,
                    self.signatures[entity.0 as int] | components.mask_of(key),
                ),
                components,
            }
        }
    }

    /// Why `remove_component` is refused for these arguments, if it is.
    pub open spec fn remove_error(self, entity: Entity, key: TypeKey) -> Option<EcsErrors> {
        if !self.is_live(entity) {
            Some(EcsErrors::EntityDoesNotExist(entity.0))
        } else if !self.components.is_registered(key) {
            Some(EcsErrors::ComponentDoesNotExist(key))
        } else {
            None
        }
    }

    /// The manager after the component of kind `key` is taken from `entity`;
    /// unchanged where that is refused.
    pub open spec fn remove_component(self, entity: Entity, key: TypeKey) -> Self {
        if self.remove_error(entity, key).is_some() {
            self
        } else {
            EntityManagerView {
                ids: self.ids,
                signatures: self.signatures.update(
                    entity.0 as int,
                    self.signatures[entity.0 as int] & !self.components.mask_of(key),
                ),
                components: self.components.remove(entity.0 as int, key),
            }
        }
    }

    /// The component of kind `key` that `entity` holds.
    pub open spec fn component(self, entity: Entity, key: TypeKey) -> C {
        self.components.pools[self.components.bit_of(key)][entity.0 as int].unwrap()
    }

    /// The manager in which `entity` holds `component` in place of the
    /// component of kind `key` it held.
    pub open spec fn replace_component(self, entity: Entity, key: TypeKey, component: C) -> Self {
        let bit = self.components.bit_of(key);
        EntityManagerView {
            components: self.components.with_pool(
                key,
                self.components.pools[bit].update(entity.0 as int, Some(component)),
            ),
            ..self
        }
    }

    /// Replacing a component that is held keeps the invariant: nothing
    /// changes about which entity holds which kind.
    pub proof fn lemma_replace_component(self, entity: Entity, key: TypeKey, component: C)
        requires
            self.wf(),
            self.has_component(entity, key),
        ensures
            self.replace_component(entity, key, component).wf(),
            self.replace_component(entity, key, component).component(entity, key) == component,
            forall|bit: int, index: int| #[trigger]
                self.replace_component(entity, key, component).components.occupied(bit, index)
                    == self.components.occupied(bit, index),
    {
        let after = self.replace_component(entity, key, component);
        let place = self.components.bit_of(key);
        assert(0 <= place < self.components.keys.len());
        assert forall|bit: int, index: int| #[trigger]
            after.components.occupied(bit, index) == self.components.occupied(bit, index) by {}
        assert(after.consistent()) by {
            assert forall|index: int, bit: int| 0 <= bit < 32 implies has_bit(
                after.signature_of(index),
                bit,
            ) == after.components.occupied(bit, index) by {
                assert(has_bit(self.signature_of(index), bit) == self.components.occupied(
                    bit,
                    index,
                ));
            }
        }
        assert forall|index: int| !after.ids.is_live(index) implies #[trigger] after.signature_of(
            index,
        ) == 0 by {
            assert(self.signature_of(index) == 0);
        }
    }

    /// The signature of a registered kind's bit tells whether the entity
    /// holds a component of that kind.
    pub proof fn lemma_signature_matches_pool(self, entity: Entity, key: TypeKey)
        requires
            self.wf(),
            self.components.is_registered(key),
        ensures
            0 <= self.components.bit_of(key) < 32,
            has_bit(self.signature_of(entity.0 as int), self.components.bit_of(key))
                == self.has_component(entity, key),
    {
        let bit = self.components.bit_of(key);
        assert(0 <= bit < self.components.keys.len());
        assert(has_bit(self.signature_of(entity.0 as int), bit) == self.components.occupied(
            bit,
            entity.0 as int,
        ));
    }

    /// An entity that is not live holds no component.
    pub proof fn lemma_dead_entity_holds_nothing(self, entity: Entity, key: TypeKey)
        requires
            self.wf(),
            !self.is_live(entity),
        ensures
            !self.has_component(entity, key),
    {
        if self.components.is_registered(key) {
            self.lemma_signature_matches_pool(entity, key);
            assert(self.signature_of(entity.0 as int) == 0);
            lemma_empty_signature(self.components.bit_of(key));
        }
    }

    /// Creating an entity keeps the invariant; the new entity is live, holds
    /// nothing, and every other entity is as it was.
    pub proof fn lemma_create_entity(self)
        requires
            self.wf(),
            self.can_create(),
        ensures
            self.create_entity().wf(),
            !self.is_live(self.next_entity()),
            self.create_entity().is_live(self.next_entity()),
            self.create_entity().signature_of(self.next_entity().0 as int) == 0,
            forall|other: Entity|
                other != self.next_entity() ==> #[trigger] self.create_entity().is_live(other)
                    == self.is_live(other),
            forall|index: int| #[trigger]
                self.create_entity().signature_of(index) == self.signature_of(index),
    {
        let after = self.create_entity();
        let id = self.ids.next_id() as int;
        self.ids.lemma_allocate();
        assert(self.signature_of(id) == 0);
        assert forall|index: int| #[trigger] after.signature_of(index) == self.signature_of(
            index,
        ) by {}
        assert(after.consistent()) by {
            assert forall|index: int, bit: int| 0 <= bit < 32 implies has_bit(
                after.signature_of(index),
                bit,
            ) == after.components.occupied(bit, index) by {
                assert(has_bit(self.signature_of(index), bit) == self.components.occupied(
                    bit,
                    index,
                ));
            }
        }
        assert forall|index: int| !after.ids.is_live(index) implies #[trigger] after.signature_of(
            index,
        ) == 0 by {
            assert(self.signature_of(index) == 0);
        }
        assert forall|other: Entity| other != self.next_entity() implies #[trigger] after.is_live(
            other,
        ) == self.is_live(other) by {
            assert(after.ids.is_live(other.0 as int) == self.ids.is_live(other.0 as int));
        }
    }

    /// Removing an entity keeps the invariant; the entity is no longer live,
    /// and every other entity keeps its life, its signature and its
    /// components.
    pub proof fn lemma_remove_entity(self, entity: Entity)
        requires
            self.wf(),
        ensures
            self.remove_entity(entity).wf(),
            !self.remove_entity(entity).is_live(entity),
            forall|other: Entity|
                other != entity ==> #[trigger] self.remove_entity(entity).is_live(other)
                    == self.is_live(other),
            forall|index: int|
                index != entity.0 ==> #[trigger] self.remove_entity(entity).signature_of(index)
                    == self.signature_of(index),
            self.remove_entity(entity).components.keys == self.components.keys,
    {
        let after = self.remove_entity(entity);
        self.ids.lemma_free(entity.0);
        if self.is_live(entity) {
            let id = entity.0 as int;
            assert(after.consistent()) by {
                assert forall|index: int, bit: int| 0 <= bit < 32 implies has_bit(
                    after.signature_of(index),
                    bit,
                ) == after.components.occupied(bit, index) by {
                    assert(has_bit(self.signature_of(index), bit) == self.components.occupied(
                        bit,
                        index,
                    ));
                    lemma_empty_signature(bit);
                }
            }
            assert forall|index: int| !after.ids.is_live(index) implies #[trigger] after.signature_of(
                index,
            ) == 0 by {
                if index != id {
                    assert(after.ids.is_live(index) == self.ids.is_live(index));
                    assert(self.signature_of(index) == 0);
                }
            }
            assert forall|other: Entity| other != entity implies #[trigger] after.is_live(other)
                == self.is_live(other) by {
                assert(after.ids.is_live(other.0 as int) == self.ids.is_live(other.0 as int));
            }
        }
    }

    /// Attaching a component keeps the invariant. Where it is not refused,
    /// the entity then holds a component of that kind, and nothing else
    /// changes about which entity holds which kind.
    pub proof fn lemma_add_component(self, entity: Entity, key: TypeKey, component: C)
        requires
            self.wf(),
        ensures
            self.add_component(entity, key, component).wf(),
            self.add_error(entity, key).is_none() ==> {
                let after = self.add_component(entity, key, component);
                &&& after.has_component(entity, key)
                &&& after.components.is_registered(key)
                &&& 0 <= after.components.bit_of(key) < 32
                &&& forall|other: TypeKey|
                    self.components.is_registered(other) ==> #[trigger] after.components.is_registered(
                        other,
                    ) && after.components.bit_of(other) == self.components.bit_of(other)
                &&& forall|index: int, bit: int|
                    !(index == entity.0 && bit == after.components.bit_of(key))
                        ==> #[trigger] after.components.occupied(bit, index)
                        == self.components.occupied(bit, index)
            },
    {
        if self.add_error(entity, key).is_none() {
            let after = self.add_component(entity, key, component);
            let id = entity.0 as int;
            let registered = self.components.register(key);
            self.components.lemma_register(key);
            let bit = registered.bit_of(key);
            assert(id < self.ids.next);
            assert forall|index: int, b: int|
                !(index == id && b == bit) implies #[trigger] after.components.occupied(b, index)
                == self.components.occupied(b, index) by {
                if b == bit {
                    if !self.components.is_registered(key) {
                        assert(!self.components.occupied(b, index));
                    }
                }
            }
            assert(after.components.occupied(bit, id));
            assert(after.components.keys == registered.keys);
            assert(after.components.bit_of(key) == bit);
            assert(after.components.is_registered(key)) by {
                assert(registered.is_registered(key));
            }
            assert forall|other: TypeKey| self.components.is_registered(other) implies (
            #[trigger] after.components.is_registered(other)) && after.components.bit_of(other)
                == self.components.bit_of(other) by {
                assert(registered.is_registered(other));
                assert(registered.bit_of(other) == self.components.bit_of(other));
            }
            assert(after.consistent()) by {
                assert forall|index: int, b: int| 0 <= b < 32 implies has_bit(
                    after.signature_of(index),
                    b,
                ) == after.components.occupied(b, index) by {
                    assert(has_bit(self.signature_of(index), b) == self.components.occupied(
                        b,
                        index,
                    ));
                    if index == id {
                        lemma_set_bit(self.signatures[id], bit, b);
                    }
                }
            }
            assert forall|index: int| !after.ids.is_live(index) implies #[trigger] after.signature_of(
                index,
            ) == 0 by {
                assert(self.signature_of(index) == 0);
            }
        }
    }

    /// Taking a component away keeps the invariant. Where it is not refused,
    /// the entity then holds no component of that kind, and nothing else
    /// changes about which entity holds which kind.
    pub proof fn lemma_remove_component(self, entity: Entity, key: TypeKey)
        requires
            self.wf(),
        ensures
            self.remove_component(entity, key).wf(),
            self.remove_component(entity, key).components.keys == self.components.keys,
            self.remove_error(entity, key).is_none() ==> {
                let after = self.remove_component(entity, key);
                &&& !after.has_component(entity, key)
                &&& forall|index: int, bit: int|
                    !(index == entity.0 && bit == self.components.bit_of(key))
                        ==> #[trigger] after.components.occupied(bit, index)
                        == self.components.occupied(bit, index)
            },
    {
        if self.remove_error(entity, key).is_none() {
            let after = self.remove_component(entity, key);
            let id = entity.0 as int;
            let bit = self.components.bit_of(key);
            assert(0 <= bit < self.components.keys.len());
            assert(id < self.ids.next);
            assert(!after.components.occupied(bit, id));
            assert(after.consistent()) by {
                assert forall|index: int, b: int| 0 <= b < 32 implies has_bit(
                    after.signature_of(index),
                    b,
                ) == after.components.occupied(b, index) by {
                    assert(has_bit(self.signature_of(index), b) == self.components.occupied(
                        b,
                        index,
                    ));
                    if index == id {
                        lemma_clear_bit(self.signatures[id], bit, b);
                    }
                }
            }
            assert forall|index: int| !after.ids.is_live(index) implies #[trigger] after.signature_of(
                index,
            ) == 0 by {
                assert(self.signature_of(index) == 0);
            }
        }
    }
}

/// Owns the component pools and one signature per entity index, and keeps
/// the two in step: it alone decides whether an entity holds a component.
pub struct EntityManager<C: Component> {
    id_generator: EntityIdGenerator,
    entity_component_signatures: Vec<u32>,
    component_manager: ComponentManager<C>,
}

impl<C: Component> View for EntityManager<C> {
    type V = EntityManagerView<C>;

    closed spec fn view(&self) -> EntityManagerView<C> {
        EntityManagerView {
            ids: self.id_generator@,
            signatures: self.entity_component_signatures@,
            components: self.component_manager@,
        }
    }
}

impl<C: Component> EntityManager<C> {
    /// The component manager keeps its own invariant.
    pub closed spec fn aligned(&self) -> bool {
        self.component_manager.wf()
    }

    /// The invariant every entity manager keeps.
    pub open spec fn wf(&self) -> bool {
        self@.wf() && self.aligned()
    }

    /// A manager with no entity and no kind of component.
    pub fn new() -> (manager: Self)
        ensures
            manager.wf(),
            manager@ == EntityManagerView::<C>::empty(),
    {
        let manager = Self {
            id_generator: EntityIdGenerator::new(),
            entity_component_signatures: Vec::new(),
            component_manager: ComponentManager::new(),
        };
        proof {
            assert forall|index: int, bit: int| 0 <= bit < 32 implies has_bit(
                manager@.signature_of(index),
                bit,
            ) == manager@.components.occupied(bit, index) by {
                lemma_empty_signature(bit);
            }
        }
        manager
    }

    /// The component manager, for reading.
    pub fn component_manager(&self) -> (manager: &ComponentManager<C>)
        ensures
            manager@ == self@.components,
            self.wf() ==> manager.wf(),
    {
        &self.component_manager
    }

    /// The signatures, by entity index.
    pub fn entity_component_signatures(&self) -> (signatures: &Vec<u32>)
        ensures
            signatures@ == self@.signatures,
    {
        &self.entity_component_signatures
    }

    /// Whether `entity` is live: created and not removed since.
    pub fn is_live(&self, entity: &Entity) -> (live: bool)
        requires
            self.wf(),
        ensures
            live == self@.is_live(*entity),
    {
        self.id_generator.is_id_used(entity.0)
    }

    /// Whether an entity can be created without leaving the machine word.
    pub fn can_create(&self) -> (room: bool)
        ensures
            room == self@.can_create(),
    {
        self.id_generator.issued() <= usize::MAX - SIGNATURE_HEADROOM
    }

    /// The live entities whose signature holds every bit of `signature`, in
    /// ascending order of their index.
    pub fn entities_with(&self, signature: u32) -> (entities: Vec<Entity>)
        requires
            self.wf(),
        ensures
            entities@ == self@.matching(signature),
    {
        let mut entities: Vec<Entity> = Vec::new();
        let mut index: usize = 0;
        let ghost all = EntityManagerView::<C>::handles(self@.signatures.len() as int);
        let ghost pred = |entity: Entity| self@.matches(entity, signature);
        proof {
            reveal(Seq::filter);
            assert(all.take(0) =~= Seq::<Entity>::empty());
        }
        while index < self.entity_component_signatures.len()
            invariant
                self.wf(),
                index <= self.entity_component_signatures@.len(),
                all == EntityManagerView::<C>::handles(self@.signatures.len() as int),
                pred == |entity: Entity| self@.matches(entity, signature),
                entities@ == all.take(index as int).filter(pred),
            decreases self.entity_component_signatures@.len() - index,
        {
            let entity = Entity(index);
            let live = self.id_generator.is_id_used(index);
            let fits = signature_satisfies(self.entity_component_signatures[index], signature);
            proof {
                reveal(Seq::filter);
                assert(all.take(index + 1).drop_last() =~= all.take(index as int));
                assert(all.take(index + 1).last() == entity);
            }
            if live && fits {
                entities.push(entity);
            }
            index += 1;
        }
        proof {
            assert(all.take(index as int) =~= all);
        }
        entities
    }

    /// Creates an entity with the empty signature and returns its handle.
    /// The id of a removed entity is used again before a fresh one.
    pub fn create_entity(&mut self) -> (entity: Entity)
        requires
            old(self).wf(),
            old(self)@.can_create(),
        ensures
            final(self).wf(),
            entity == old(self)@.next_entity(),
            final(self)@ == old(self)@.create_entity(),
    {
        proof {
            old(self)@.lemma_create_entity();
        }
        let entity_id = self.id_generator.get_id();
        if entity_id >= self.entity_component_signatures.len() {
            let size = entity_id + SIGNATURE_HEADROOM;
            while self.entity_component_signatures.len() < size
                invariant
                    self.id_generator@ == old(self)@.ids.allocate(),
                    self.component_manager == old(self).component_manager,
                    old(self).entity_component_signatures@.len()
                        <= self.entity_component_signatures@.len() <= size,
                    self.entity_component_signatures@ =~= old(self).entity_component_signatures@
                        + Seq::new(
                        (self.entity_component_signatures@.len() - old(
                            self,
                        ).entity_component_signatures@.len()) as nat,
                        |i: int| 0u32,
                    ),
                decreases size - self.entity_component_signatures@.len(),
            {
                self.entity_component_signatures.push(0);
            }
        } else {
            self.entity_component_signatures[entity_id] = 0;
        }
        assert(self@ =~~= old(self)@.create_entity());
        Entity(entity_id)
    }

    /// Removes `entity`: empties its signature, clears it from every pool and
    /// hands its id back. An entity that is not live changes nothing.
    pub fn remove_entity(&mut self, entity: &Entity)
        requires
            old(self).wf(),
        ensures
            final(self).wf(),
            final(self)@ == old(self)@.remove_entity(*entity),
    {
        proof {
            old(self)@.lemma_remove_entity(*entity);
        }
        if self.id_generator.is_id_used(entity.0) {
            self.entity_component_signatures[entity.0] = 0;
            self.component_manager.remove_all(entity);
            self.id_generator.free_id(entity.0);
        }
    }

    /// Attaches `component` of kind `key` to `entity`, replacing the one it
    /// held. The pool and the signature change together or not at all.
    pub fn add_component(&mut self, entity: &Entity, key: TypeKey, component: C) -> (r: Result<
        (),
        EcsErrors,
    >)
        requires
            old(self).wf(),
        ensures
            final(self).wf(),
            final(self)@ == old(self)@.add_component(*entity, key, component),
            r == match old(self)@.add_error(*entity, key) {
                Some(e) => Err::<(), EcsErrors>(e),
                None => Ok::<(), EcsErrors>(()),
            },
    {
        proof {
            old(self)@.lemma_add_component(*entity, key, component);
        }
        if !self.id_generator.is_id_used(entity.0) {
            return Err(EcsErrors::EntityDoesNotExist(entity.0));
        }
        match self.component_manager.add_component(entity, key, component) {
            Ok(comp_mask) => {
                let signature = self.entity_component_signatures[entity.0];
                self.entity_component_signatures[entity.0] = signature | comp_mask;
                Ok(())
            },
            Err(e) => Err(e),
        }
    }

    /// Takes the component of kind `key` from `entity`. Taking what the
    /// entity never held succeeds. The pool and the signature change together
    /// or not at all.
    pub fn remove_component(&mut self, entity: &Entity, key: TypeKey) -> (r: Result<(), EcsErrors>)
        requires
            old(self).wf(),
        ensures
            final(self).wf(),
            final(self)@ == old(self)@.remove_component(*entity, key),
            r == match old(self)@.remove_error(*entity, key) {
                Some(e) => Err::<(), EcsErrors>(e),
                None => Ok::<(), EcsErrors>(()),
            },
    {
        proof {
            old(self)@.lemma_remove_component(*entity, key);
        }
        if !self.id_generator.is_id_used(entity.0) {
            return Err(EcsErrors::EntityDoesNotExist(entity.0));
        }
        match self.component_manager.get_mask(key) {
            Ok(comp_mask) => {
                let comp_mask: u32 = *comp_mask;
                let signature = self.entity_component_signatures[entity.0];
                self.entity_component_signatures[entity.0] = signature & !comp_mask;
                let _ = self.component_manager.remove(entity, key);
                Ok(())
            },
            Err(e) => Err(e),
        }
    }

    /// The same as `remove_component`, for a kind named by a borrowed key.
    pub fn remove_component_for_id(&mut self, entity: &Entity, comp_id: &TypeKey) -> (r: Result<
        (),
        EcsErrors,
    >)
        requires
            old(self).wf(),
        ensures
            final(self).wf(),
            final(self)@ == old(self)@.remove_component(*entity, *comp_id),
            r == match old(self)@.remove_error(*entity, *comp_id) {
                Some(e) => Err::<(), EcsErrors>(e),
                None => Ok::<(), EcsErrors>(()),
            },
    {
        self.remove_component(entity, *comp_id)
    }

    /// Whether `entity` holds a component of kind `key`. The answer is read
    /// from the signature and is the same as what the pool of `key` holds.
    pub fn has_component(&self, entity: &Entity, key: TypeKey) -> (r: Result<bool, EcsErrors>)
        requires
            self.wf(),
        ensures
            r == match self@.remove_error(*entity, key) {
                Some(e) => Err::<bool, EcsErrors>(e),
                None => Ok::<bool, EcsErrors>(self@.has_component(*entity, key)),
            },
    {
        if !self.id_generator.is_id_used(entity.0) {
            return Err(EcsErrors::EntityDoesNotExist(entity.0));
        }
        match self.component_manager.get_mask(key) {
            Ok(comp_mask) => {
                let comp_mask: u32 = *comp_mask;
                proof {
                    self@.lemma_signature_matches_pool(*entity, key);
                }
                let signature = self.entity_component_signatures[entity.0];
                Ok((signature & comp_mask) == comp_mask)
            },
            Err(e) => Err(e),
        }
    }

    /// Exclusive access to the component of kind `key` that `entity` holds;
    /// none where it holds none. What is written through the reference is
    /// the component the entity then holds; which entity holds which kind
    /// stays as it is.
    pub fn component_mut(&mut self, entity: &Entity, key: TypeKey) -> (r: Option<&mut C>)
        requires
            old(self).wf(),
        ensures
            match r {
                Some(component) => old(self)@.has_component(*entity, key) && *component == old(
                    self,
                )@.component(*entity, key) && final(self)@ =~~= old(self)@.replace_component(
                    *entity,
                    key,
                    *final(component),
                ),
                None => !old(self)@.has_component(*entity, key) && final(self)@ == old(self)@,
            },
            final(self).wf(),
    {
        proof {
            if old(self)@.has_component(*entity, key) {
                assert forall|component: C|
                    (#[trigger] old(self)@.replace_component(*entity, key, component)).wf() by {
                    old(self)@.lemma_replace_component(*entity, key, component);
                }
            }
            if !old(self)@.is_live(*entity) {
                old(self)@.lemma_dead_entity_holds_nothing(*entity, key);
            }
        }
        match self.has_component(entity, key) {
            Ok(true) => {},
            _ => {
                return None;
            },
        }
        match self.component_manager.get_components_mut(key) {
            Ok(pool) => match pool.get_mut(entity.0) {
                Ok(component) => Some(component),
                Err(_) => vstd::pervasive::unreached(),
            },
            Err(_) => vstd::pervasive::unreached(),
        }
    }

    /// The signature of `entity`.
    pub fn get_signature(&self, entity: &Entity) -> (r: Result<&u32, EcsErrors>)
        requires
            self.wf(),
        ensures
            r == if self@.is_live(*entity) {
                Ok::<&u32, EcsErrors>(&self@.signature_of(entity.0 as int))
            } else {
                Err::<&u32, EcsErrors>(EcsErrors::EntityDoesNotExist(entity.0))
            },
    {
        if !self.id_generator.is_id_used(entity.0) {
            return Err(EcsErrors::EntityDoesNotExist(entity.0));
        }
        Ok(&self.entity_component_signatures[entity.0])
    }

    /// The signature mask of every registered kind of component, by key.
    pub fn get_component_signatures(&self) -> (masks: HashMap<TypeKey, u32>)
        requires
            self.wf(),
        ensures
            masks@ == self@.components.signature_map(),
    {
        self.component_manager.component_bit_masks()
    }
}

} // verus!
