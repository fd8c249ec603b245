//! Networked RPC and entity-component core: a binary wire codec, packet
//! framing for the reliable channel, transport decisions for both delivery
//! modes, an entity/module store and the `Messenger` RPC layer, with the
//! client-side routing of the server's messages.

pub mod ids;
pub mod codec;
pub mod packets;
pub mod framing;
pub mod transport;
pub mod messaging;
pub mod ecs;
pub mod client;
pub mod chunk;
pub mod error;
pub mod matrix;
pub mod render;
