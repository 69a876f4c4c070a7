use vstd::prelude::*;

pub mod entity_manager;
pub mod waiting;

verus! {

/// An opaque, recyclable handle that names one row across the component pools.
#[derive(Clone, Copy, Debug, PartialEq, Eq, Hash, Structural)]
pub struct Entity(pub usize);

} // verus!
