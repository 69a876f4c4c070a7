use vstd::prelude::*;

pub mod comp_pool;
pub mod component_manager;

verus! {

/// Marks a value type as storable in a component pool.
pub trait Component {

}

} // verus!
