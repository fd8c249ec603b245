//! The client side of messaging: which entities the client holds a handle
//! for, how the server's messages about handles and calls are routed, and
//! how the client calls a function of an entity on the server.
use std::collections::HashMap;
use vstd::prelude::*;
use crate::codec::{Wire, encode};
use crate::ids::{ClientId, EntityId, Id, TypeId, fresh_id};
use crate::messaging::Message;
use crate::packets::{ClientMessage, ClientMessageModel, ClientPacket, ClientPacketModel, ServerMessage};
use crate::transport::{Outgoing, SendError, SendMode, encode_for_send, outgoing_spec};

verus! {

broadcast use vstd::std_specs::hash::group_hash_axioms;

/// What the client does with a message from the server.
#[derive(Debug)]
pub enum ClientEvent {
    /// Create the local handle, of the given type, for the entity.
    CreateHandle(EntityId, TypeId),
    /// Drop the local handle of the entity.
    RemoveHandle(EntityId),
    /// Call the function of the entity's handle with the encoded argument.
    Call(EntityId, TypeId, Vec<u8>),
    /// A message about a handle that the client does not hold, or that it
    /// holds already; it is dropped.
    Ignored,
    /// A message that is not about handles, for the session to handle.
    Other(ServerMessage),
}

/// The client's handles: for each entity it holds a handle for, the type of
/// that handle.
pub struct ClientMessenger {
    handles: HashMap<EntityId, TypeId>,
}

impl ClientMessenger {
    pub closed spec fn handles(&self) -> Map<EntityId, TypeId> {
        self.handles@
    }

    /// A client that holds no handles.
    pub fn new() -> (r: ClientMessenger)
        ensures
            r.handles() == Map::<EntityId, TypeId>::empty(),
    {
        ClientMessenger { handles: HashMap::new() }
    }

    /// The type of the handle held for `entity`.
    pub fn handle_type(&self, entity: &EntityId) -> (r: Option<TypeId>)
        ensures
            r == (if self.handles().contains_key(*entity) {
                Some(self.handles()[*entity])
            } else {
                None
            }),
    {
        match self.handles.get(entity) {
            Some(t) => Some(*t),
            None => None,
        }
    }

    /// Routes a message from the server. `AddClientHandle` creates a handle
    /// for an entity that has none, `RemoveClientHandle` drops an existing
    /// one, and `ModMessage` becomes a call when the entity has a handle;
    /// anything else about handles is ignored, and the other messages are
    /// passed on unchanged.
    pub fn receive(&mut self, message: ServerMessage) -> (r: ClientEvent)
        ensures
            match message {
                ServerMessage::AddClientHandle(e, t) => if old(self).handles().contains_key(e) {
                    r is Ignored && final(self).handles() == old(self).handles()
                } else {
                    r == ClientEvent::CreateHandle(e, t) && final(self).handles() == old(self).handles().insert(e, t)
                },
                ServerMessage::RemoveClientHandle(e) => if old(self).handles().contains_key(e) {
                    r == ClientEvent::RemoveHandle(e) && final(self).handles() == old(self).handles().remove(e)
                } else {
                    r is Ignored && final(self).handles() == old(self).handles()
                },
                ServerMessage::ModMessage(e, f, d) => final(self).handles() == old(self).handles() && if old(
                    self,
                ).handles().contains_key(e) {
                    r matches ClientEvent::Call(e2, f2, d2) && e2 == e && f2 == f && d2@ == d@
                } else {
                    r is Ignored
                },
                _ => r == ClientEvent::Other(message) && final(self).handles() == old(self).handles(),
            },
    {
        match message {
            ServerMessage::AddClientHandle(e, t) => {
                if self.handles.contains_key(&e) {
                    ClientEvent::Ignored
                } else {
                    self.handles.insert(e, t);
                    ClientEvent::CreateHandle(e, t)
                }
            },
            ServerMessage::RemoveClientHandle(e) => {
                if self.handles.contains_key(&e) {
                    self.handles.remove(&e);
                    ClientEvent::RemoveHandle(e)
                } else {
                    ClientEvent::Ignored
                }
            },
            ServerMessage::ModMessage(e, f, d) => {
                if self.handles.contains_key(&e) {
                    ClientEvent::Call(e, f, d)
                } else {
                    ClientEvent::Ignored
                }
            },
            other => ClientEvent::Other(other),
        }
    }

    /// Calls the function `function_id` of the entity `entity` on the server,
    /// with `message` as its argument, as the client `client_id`: the packet's
    /// fresh conversation id and the bytes for the channel.
    pub fn call_server_fn<M: Message>(
        &self,
        client_id: ClientId,
        entity: EntityId,
        function_id: TypeId,
        message: &M,
        mode: SendMode,
    ) -> (r: (Id, Result<Outgoing, SendError>))
        ensures
            outgoing_spec(
                ClientPacket::wire(
                    ClientPacketModel {
                        client_id,
                        conv_id: r.0,
                        message: ClientMessageModel::ModMessage(entity, function_id, M::wire(message.deep_view())),
                    },
                ),
                mode,
                r.1,
            ),
    {
        let conv_id = fresh_id();
        let packet = ClientPacket {
            client_id,
            conv_id,
            message: ClientMessage::ModMessage(entity, function_id, encode(message)),
        };
        (conv_id, encode_for_send(&packet, mode))
    }
}

} // verus!
