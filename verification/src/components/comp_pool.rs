use super::Component;
use crate::entities::Entity;
use crate::errors::EcsErrors;
use vstd::prelude::*;
use vstd::std_specs::iter::IteratorSpec;

verus! {

/// The slots after a pool of `slots` is brought to `size` slots: cut at the
/// end, or filled up with `fill`.
pub open spec fn resized<T>(slots: Seq<T>, size: nat, fill: T) -> Seq<T> {
    if size <= slots.len() {
        slots.take(size as int)
    } else {
        slots + Seq::new((size - slots.len()) as nat, |i: int| fill)
    }
}

/// The slots after slot `index` is overwritten with `empty`; an index outside
/// the slots changes nothing.
pub open spec fn cleared<T>(slots: Seq<T>, index: int, empty: T) -> Seq<T> {
    if 0 <= index < slots.len() {
        slots.update(index, empty)
    } else {
        slots
    }
}

/// Which slots of a pool hold a value.
pub open spec fn occupancy_of<T>(slots: Seq<Option<T>>) -> Seq<bool> {
    Seq::new(slots.len(), |i: int| slots[i].is_some())
}

/// What every component pool can do without knowing the type of its values.
pub trait GenericCompPool {
    /// Which slots hold a value, by index.
    spec fn occupancy(&self) -> Seq<bool>;

    /// Whether the pool has no slot at all.
    fn is_empty(&self) -> (r: bool)
        ensures
            r == (self.occupancy().len() == 0),
    ;

    /// The number of slots.
    fn get_size(&self) -> (r: usize)
        ensures
            r == self.occupancy().len(),
    ;

    /// Brings the pool to `size` slots; new slots are empty.
    fn resize(&mut self, size: usize)
        ensures
            final(self).occupancy() == resized(old(self).occupancy(), size as nat, false),
    ;

    /// Drops every slot.
    fn clear(&mut self)
        ensures
            final(self).occupancy() == Seq::<bool>::empty(),
    ;

    /// Empties the slot of `entity`, if the pool has one for it.
    fn remove_any(&mut self, entity: &Entity)
        ensures
            final(self).occupancy() == cleared(old(self).occupancy(), entity.0 as int, false),
    ;
}

/// The values of one kind of component: slot `i` belongs to the entity with
/// index `i`.
pub struct CompPool<T: Component> {
    pub data: Vec<Option<T>>,
}

impl<T: Component> View for CompPool<T> {
    type V = Seq<Option<T>>;

    open spec fn view(&self) -> Seq<Option<T>> {
        self.data@
    }
}

impl<T: Component> GenericCompPool for CompPool<T> {
    open spec fn occupancy(&self) -> Seq<bool> {
        occupancy_of(self@)
    }

    fn is_empty(&self) -> (r: bool) {
        self.data.len() == 0
    }

    fn get_size(&self) -> (r: usize) {
        self.data.len()
    }

    fn resize(&mut self, size: usize)
        ensures
            final(self)@ == resized(old(self)@, size as nat, None),
    {
        if size <= self.data.len() {
            self.data.truncate(size);
        } else {
            while self.data.len() < size
                invariant
                    old(self)@.len() <= self.data@.len() <= size,
                    self.data@ =~= old(self)@ + Seq::new(
                        (self.data@.len() - old(self)@.len()) as nat,
                        |i: int| None::<T>,
                    ),
                decreases size - self.data.len(),
            {
                self.data.push(None);
            }
        }
    }

    fn clear(&mut self)
        ensures
            final(self)@ == Seq::<Option<T>>::empty(),
    {
        self.data.clear();
    }

    fn remove_any(&mut self, entity: &Entity)
        ensures
            final(self)@ == cleared(old(self)@, entity.0 as int, None),
    {
        if entity.0 < self.data.len() {
            self.data[entity.0] = None;
        }
    }
}

impl<T: Component> CompPool<T> {
    /// A pool of `size` empty slots.
    pub fn new(size: usize) -> (pool: Self)
        ensures
            pool@ == Seq::new(size as nat, |i: int| None::<T>),
    {
        let mut pool = Self { data: Vec::with_capacity(size) };
        pool.resize(size);
        pool
    }

    /// Appends a slot that holds `comp`.
    pub fn add(&mut self, comp: T)
        ensures
            final(self)@ == old(self)@.push(Some(comp)),
    {
        self.data.push(Some(comp));
    }

    /// Empties slot `index`. Emptying an empty slot succeeds; an index outside
    /// the pool is refused and changes nothing.
    pub fn remove(&mut self, index: usize) -> (r: Result<(), EcsErrors>)
        ensures
            index < old(self)@.len() ==> r == Ok::<(), EcsErrors>(()) && final(self)@ == old(
                self,
            )@.update(index as int, None),
            index >= old(self)@.len() ==> r == Err::<(), EcsErrors>(
                EcsErrors::EntityDoesNotExist(index),
            ) && final(self)@ == old(self)@,
    {
        if index >= self.data.len() {
            return Err(EcsErrors::EntityDoesNotExist(index));
        }
        self.data[index] = None;
        Ok(())
    }

    /// Stores `comp` in slot `index`. The pool is never grown here: an index
    /// outside the pool is refused and changes nothing.
    pub fn set(&mut self, index: usize, comp: T) -> (r: Result<(), EcsErrors>)
        ensures
            index < old(self)@.len() ==> r == Ok::<(), EcsErrors>(()) && final(self)@ == old(
                self,
            )@.update(index as int, Some(comp)),
            index >= old(self)@.len() ==> r == Err::<(), EcsErrors>(
                EcsErrors::EntityDoesNotExist(index),
            ) && final(self)@ == old(self)@,
    {
        if index >= self.data.len() {
            return Err(EcsErrors::EntityDoesNotExist(index));
        }
        self.data[index] = Some(comp);
        Ok(())
    }

    /// The value in slot `index`; an index outside the pool is refused.
    pub fn get(&self, index: usize) -> (r: Result<&T, EcsErrors>)
        requires
            index < self@.len() ==> self@[index as int].is_some(),
        ensures
            index < self@.len() ==> r == Ok::<&T, EcsErrors>(&self@[index as int].unwrap()),
            index >= self@.len() ==> r == Err::<&T, EcsErrors>(
                EcsErrors::EntityDoesNotExist(index),
            ),
    {
        if index < self.data.len() {
            Ok(self.data[index].as_ref().unwrap())
        } else {
            Err(EcsErrors::EntityDoesNotExist(index))
        }
    }

    /// Exclusive access to the value in slot `index`; an index outside the
    /// pool is refused. Whatever is written through the reference ends up in
    /// that slot, and no other slot changes.
    pub fn get_mut(&mut self, index: usize) -> (r: Result<&mut T, EcsErrors>)
        requires
            index < old(self)@.len() ==> old(self)@[index as int].is_some(),
        ensures
            index < old(self)@.len() <==> r.is_ok(),
            match r {
                Ok(comp) => *comp == old(self)@[index as int].unwrap() && final(self)@ == old(
                    self,
                )@.update(index as int, Some(*final(comp))),
                Err(e) => e == EcsErrors::EntityDoesNotExist(index) && final(self)@ == old(self)@,
            },
    {
        if index < self.data.len() {
            match &mut self.data[index] {
                Some(comp) => Ok(comp),
                None => Err(EcsErrors::EntityDoesNotExist(index)),
            }
        } else {
            Err(EcsErrors::EntityDoesNotExist(index))
        }
    }

    /// Walks the slots in index order.
    pub fn iter(&self) -> (it: core::slice::Iter<'_, Option<T>>)
        ensures
            it.remaining() == self@.as_ref(),
    {
        self.data.iter()
    }

    /// The slots in index order, each open to change.
    pub fn iter_mut(&mut self) -> (slots: &mut [Option<T>])
        ensures
            slots@ == old(self)@,
            final(self)@ == final(slots)@,
    {
        self.data.as_mut_slice()
    }
}

} // verus!
