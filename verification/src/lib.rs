//! An in-process entity-component-system runtime.
//!
//! Entities are recyclable integer handles. Components are values attached
//! to entities, one pool per kind of component; each kind owns one bit of a
//! 32-bit signature, and an entity's signature says which kinds it holds.
//! Systems ask for a signature and are handed the entities that satisfy it.
//! Systems and event handlers read the store through a `Query` and ask for
//! changes through a `CommandBuffer`, which the `World` carries out after
//! the pass, in the order in which the commands were queued.
//!
//! Every kind of component, resource, event and system is named by a
//! `TypeKey`. What a type holds is described by its view (`@`), and every
//! operation says what it does to that view.

use vstd::prelude::*;

pub mod command_buffer;
pub mod components;
pub mod entities;
pub mod errors;
pub mod events;
pub mod query;
pub mod resources;
pub mod signature;
pub mod system;
pub mod world;

verus! {

/// The stable key that names one kind of component, resource, event or system.
///
/// Every kind the host program stores is told apart by such a key; two values
/// belong to the same kind exactly when their keys are equal.
pub type TypeKey = u64;

} // verus!
