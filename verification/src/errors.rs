use crate::TypeKey;
use vstd::prelude::*;

verus! {

/// The ways an operation on the store can be refused.
#[derive(Clone, Copy, Debug, PartialEq, Eq, Structural)]
pub enum EcsErrors {
    /// The entity index is not live, or lies outside a pool's current bounds.
    EntityDoesNotExist(usize),
    /// No component of this kind was ever registered.
    ComponentDoesNotExist(TypeKey),
    /// All signature bits are taken, so a new kind of component cannot be
    /// registered.
    ComponentLimitReached,
}

impl EcsErrors {
    /// The error for a component kind that was never registered.
    pub fn component_does_not_exist(key: TypeKey) -> (e: Self)
        ensures
            e == EcsErrors::ComponentDoesNotExist(key),
    {
        EcsErrors::ComponentDoesNotExist(key)
    }
}

} // verus!
