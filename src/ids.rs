use vstd::prelude::*;

verus! {

/// A globally unique 128-bit identifier.
pub type Id = u128;

/// Identifies one connected client.
pub type ClientId = Id;

/// Identifies one entity of the world.
pub type EntityId = Id;

/// Identifies a kind of handler or module; also used as the routing key of
/// remotely callable functions.
pub type TypeId = Id;

/// Relies on uuid::Uuid::new_v4: a random version-4 identifier, taken as its
/// 128-bit value. Nothing is promised of the value.
#[verifier::external_body]
pub(crate) fn fresh_id() -> (r: Id) {
    uuid::Uuid::new_v4().as_u128()
}

} // verus!
