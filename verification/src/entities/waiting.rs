use super::Entity;
use crate::system::{lemma_without, without};
use std::collections::HashSet;
use vstd::prelude::*;

verus! {

/// The list `entities` with `entity` at its end, unless it is in the list
/// already.
pub open spec fn with_entity(entities: Seq<Entity>, entity: Entity) -> Seq<Entity> {
    if entities.contains(entity) {
        entities
    } else {
        entities.push(entity)
    }
}

/// `with_entity` holds the entity and what the list held, keeps the old
/// entries in place, and names nothing twice where the list did not.
pub proof fn lemma_with_entity(entities: Seq<Entity>, entity: Entity)
    ensures
        with_entity(entities, entity).contains(entity),
        forall|other: Entity| #[trigger]
            with_entity(entities, entity).contains(other) <==> other == entity
                || entities.contains(other),
        entities.no_duplicates() ==> with_entity(entities, entity).no_duplicates(),
{
    let after = with_entity(entities, entity);
    if !entities.contains(entity) {
        assert(after.last() == entity);
        assert forall|other: Entity| #[trigger]
            after.contains(other) <==> other == entity || entities.contains(other) by {
            if entities.contains(other) {
                let i = choose|i: int| 0 <= i < entities.len() && entities[i] == other;
                assert(after[i] == other);
            }
            if after.contains(other) && other != entity {
                let i = choose|i: int| 0 <= i < after.len() && after[i] == other;
                assert(entities[i] == other);
            }
        }
        if entities.no_duplicates() {
            assert forall|i: int, j: int|
                0 <= i < after.len() && 0 <= j < after.len() && i != j implies after[i]
                != after[j] by {
                if i < entities.len() {
                    assert(entities.contains(entities[i]));
                }
                if j < entities.len() {
                    assert(entities.contains(entities[j]));
                }
            }
        }
    }
}

/// A set of entities that wait for something, each named once. The set
/// answers whether an entity waits; the entities leave it in the order in
/// which they came.
pub struct WaitingEntities {
    /// The indices of the entities that wait.
    members: HashSet<usize>,
    /// The entities that wait, in the order in which they came to wait.
    order: Vec<Entity>,
}

impl View for WaitingEntities {
    type V = Seq<Entity>;

    /// The entities that wait, in the order in which they came to wait.
    closed spec fn view(&self) -> Seq<Entity> {
        self.order@
    }
}

impl WaitingEntities {
    /// The set and the order name the same entities.
    pub closed spec fn aligned(&self) -> bool {
        forall|id: usize| #[trigger] self.members@.contains(id) <==> self.order@.contains(Entity(id))
    }

    /// The invariant every waiting set keeps: no entity waits twice.
    pub open spec fn wf(&self) -> bool {
        self@.no_duplicates() && self.aligned()
    }

    /// A set in which nothing waits.
    pub fn new() -> (waiting: Self)
        ensures
            waiting.wf(),
            waiting@ == Seq::<Entity>::empty(),
    {
        Self { members: HashSet::new(), order: Vec::new() }
    }

    /// Lets `entity` wait, behind the ones that wait already, unless it
    /// waits already.
    pub fn insert(&mut self, entity: Entity)
        requires
            old(self).wf(),
        ensures
            final(self).wf(),
            final(self)@ == with_entity(old(self)@, entity),
    {
        broadcast use vstd::std_specs::hash::group_hash_axioms;

        proof {
            lemma_with_entity(old(self)@, entity);
            assert(entity == Entity(entity.0));
        }
        if self.members.insert(entity.0) {
            self.order.push(entity);
        }
        proof {
            assert forall|id: usize| #[trigger]
                self.members@.contains(id) <==> self.order@.contains(Entity(id)) by {
                assert(old(self).members@.contains(id) <==> old(self).order@.contains(Entity(id)));
            }
        }
    }

    /// Lets `entity` wait no longer.
    pub fn remove(&mut self, entity: &Entity)
        requires
            old(self).wf(),
        ensures
            final(self).wf(),
            final(self)@ == without(old(self)@, *entity),
    {
        broadcast use vstd::std_specs::hash::group_hash_axioms;

        proof {
            lemma_without(old(self)@, *entity);
            assert(*entity == Entity(entity.0));
        }
        if self.members.remove(&entity.0) {
            let mut kept: Vec<Entity> = Vec::new();
            let mut next: usize = 0;
            proof {
                reveal(Seq::filter);
                assert(self.order@.take(0) =~= Seq::<Entity>::empty());
            }
            while next < self.order.len()
                invariant
                    next <= self.order@.len(),
                    self.order@ == old(self).order@,
                    self.members@ == old(self).members@.remove(entity.0),
                    kept@ == without(self.order@.take(next as int), *entity),
                decreases self.order@.len() - next,
            {
                let other = self.order[next];
                proof {
                    reveal(Seq::filter);
                    assert(self.order@.take(next + 1).drop_last() =~= self.order@.take(
                        next as int,
                    ));
                    assert(self.order@.take(next + 1).last() == other);
                }
                if other.0 != entity.0 {
                    kept.push(other);
                }
                next += 1;
            }
            assert(self.order@.take(next as int) =~= self.order@);
            self.order = kept;
        }
        proof {
            assert forall|id: usize| #[trigger]
                self.members@.contains(id) <==> self.order@.contains(Entity(id)) by {
                assert(old(self).members@.contains(id) <==> old(self).order@.contains(Entity(id)));
                assert(Entity(id) == *entity <==> id == entity.0);
            }
        }
    }

    /// Whether `entity` waits.
    pub fn contains(&self, entity: &Entity) -> (found: bool)
        requires
            self.wf(),
        ensures
            found == self@.contains(*entity),
    {
        broadcast use vstd::std_specs::hash::group_hash_axioms;

        proof {
            assert(*entity == Entity(entity.0));
        }
        self.members.contains(&entity.0)
    }

    /// Takes out every entity that waits, in the order in which they came
    /// to wait. Nothing waits afterwards.
    pub fn take_all(&mut self) -> (entities: Vec<Entity>)
        requires
            old(self).wf(),
        ensures
            final(self).wf(),
            entities@ == old(self)@,
            final(self)@ == Seq::<Entity>::empty(),
    {
        let mut entities: Vec<Entity> = Vec::new();
        std::mem::swap(&mut self.order, &mut entities);
        self.members.clear();
        entities
    }
}

} // verus!
