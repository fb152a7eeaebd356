//! Deterministic capture and restore of world state for rollback netcode: tracked entities
//! and registered resources are captured into a snapshot with an order-insensitive checksum,
//! written back with identity remapping, and encoded as text.
use vstd::prelude::*;

pub mod entity;
pub mod value;
pub mod registry;
pub mod world;
pub mod snapshot;
pub mod restore;
pub mod codec;
pub mod laws;

verus! {

} // verus!
