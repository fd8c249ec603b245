//! The `Messenger`: the module through which the server side of an entity
//! calls functions of the entity's handles on clients, and through which
//! clients call the entity's registered receivers. Functions are named by
//! explicit identifiers that both ends agree on.
use std::collections::HashMap;
use vstd::prelude::*;
use crate::codec::{Wire, decoded, encode, lemma_round_trip};
use vstd::slice::slice_to_vec;
use crate::ids::{ClientId, EntityId, Id, TypeId, fresh_id};
use crate::packets::{ServerMessage, ServerMessageModel, ServerPacket, ServerPacketModel};
use crate::transport::{NetworkServer, Outgoing, SendError, SendMode, send_spec, ClientRecord};

verus! {

broadcast use vstd::std_specs::hash::group_hash_axioms;

/// A value that can be the argument of a remote call.
pub trait Message: Wire {

}

impl<T: Wire> Message for T {

}

/// Why an incoming call reaches no receiver. The call is dropped; later
/// packets are not affected.
#[derive(Debug, Clone, Copy, PartialEq, Eq, Structural)]
pub enum RoutingError {
    /// The packet is not a call.
    NotACall,
    /// No entity has this id.
    UnknownEntity(EntityId),
    /// The entity has no messenger.
    NoMessenger(EntityId),
    /// The messenger has no receiver registered under this function id.
    UnknownFunction(TypeId),
}

/// One packet handed to the transport for one client: the conversation id
/// that the packet carries, and what the server's `send` made of it.
#[derive(Debug)]
pub struct Delivery<A> {
    pub client: ClientId,
    pub conv_id: Id,
    pub result: Result<(A, Outgoing), SendError>,
}

/// `d` is the delivery of `message` to `to` in `mode` by a server that knows
/// the clients `clients`.
pub open spec fn delivers<A>(
    clients: Map<ClientId, ClientRecord<A>>,
    d: Delivery<A>,
    to: ClientId,
    message: ServerMessageModel,
    mode: SendMode,
) -> bool {
    &&& d.client == to
    &&& send_spec(clients, to, ServerPacketModel { conv_id: d.conv_id, message }, mode, d.result)
}

/// `after` is `before` with `k` more items at its end.
pub open spec fn extends<T>(before: Seq<T>, after: Seq<T>, k: int) -> bool {
    &&& after.len() == before.len() + k
    &&& after.take(before.len() as int) == before
}

/// The subscribers after `add_client(id)`, when `known` says whether the
/// transport knows the client.
pub open spec fn subscribed_after_add(receivers: Seq<ClientId>, known: bool, id: ClientId) -> Seq<ClientId> {
    if !receivers.contains(id) && known {
        receivers.push(id)
    } else {
        receivers
    }
}

/// Whether `add_client(id)` changes the subscribers, and so notifies.
pub open spec fn add_changes(receivers: Seq<ClientId>, known: bool, id: ClientId) -> bool {
    !receivers.contains(id) && known
}

/// What looking up `function_id` among `functions` gives.
pub open spec fn route_spec<H>(functions: Map<TypeId, H>, function_id: TypeId) -> Result<H, RoutingError> {
    if functions.contains_key(function_id) {
        Ok(functions[function_id])
    } else {
        Err(RoutingError::UnknownFunction(function_id))
    }
}

/// Subscribing the same client twice in a row: the second call changes
/// nothing and sends nothing, so at most one notification goes out, and
/// exactly one when the client was known and not yet subscribed. The client
/// then stands once among the subscribers.
pub proof fn lemma_add_client_idempotent(receivers: Seq<ClientId>, known: bool, id: ClientId)
    requires
        receivers.no_duplicates(),
    ensures
        ({
            let once = subscribed_after_add(receivers, known, id);
            &&& subscribed_after_add(once, known, id) == once
            &&& !add_changes(once, known, id)
            &&& add_changes(receivers, known, id) <==> (known && !receivers.contains(id))
            &&& once.no_duplicates()
            &&& known ==> once.contains(id)
        }),
{
    let once = subscribed_after_add(receivers, known, id);
    if known && !receivers.contains(id) {
        assert(once[receivers.len() as int] == id);
        assert forall|i: int, j: int| 0 <= i < j < once.len() implies once[i] != once[j] by {
            if j == receivers.len() {
                assert(once[i] == receivers[i]);
            }
        }
    }
}

/// A call whose function id has a registered receiver reaches that receiver,
/// and its payload, the encoding of the caller's argument, decodes to that
/// argument.
pub proof fn lemma_dispatch_correct<M: Message, H>(
    functions: Map<TypeId, H>,
    function_id: TypeId,
    handler: H,
    arg: M::V,
)
    requires
        M::wire(arg).len() <= u64::MAX,
    ensures
        route_spec(functions.insert(function_id, handler), function_id) == Ok::<H, RoutingError>(handler),
        decoded::<M>(M::wire(arg)) == Some(arg),
{
    lemma_round_trip::<M>(arg);
}

/// A call whose function id has no receiver is refused with
/// `UnknownFunction`.
pub proof fn lemma_unknown_route<H>(functions: Map<TypeId, H>, function_id: TypeId)
    requires
        !functions.contains_key(function_id),
    ensures
        route_spec(functions, function_id) == Err::<H, RoutingError>(RoutingError::UnknownFunction(function_id)),
{
}

/// The messaging module of one entity. `H` is the type of a receiver of
/// calls from clients.
pub struct Messenger<H> {
    handle_type: TypeId,
    entity_id: EntityId,
    receivers: Vec<ClientId>,
    receiver_functions: HashMap<TypeId, H>,
}

impl<H> Messenger<H> {
    /// The type of the handle that a subscribed client creates.
    pub closed spec fn handle_type_spec(&self) -> TypeId {
        self.handle_type
    }

    /// The entity that the messenger belongs to.
    pub closed spec fn entity_id_spec(&self) -> EntityId {
        self.entity_id
    }

    /// The subscribed clients, in the order they subscribed.
    pub closed spec fn receivers(&self) -> Seq<ClientId> {
        self.receivers@
    }

    /// The registered receivers, by function id.
    pub closed spec fn functions(&self) -> Map<TypeId, H> {
        self.receiver_functions@
    }

    pub open spec fn wf(&self) -> bool {
        self.receivers().no_duplicates()
    }

    /// A messenger whose clients create handles of type `handle_type`, with
    /// no subscribers and no receivers. It belongs to no entity until
    /// `start`.
    pub fn new(handle_type: TypeId) -> (r: Messenger<H>)
        ensures
            r.wf(),
            r.handle_type_spec() == handle_type,
            r.receivers() == Seq::<ClientId>::empty(),
            r.functions() == Map::<TypeId, H>::empty(),
    {
        Messenger {
            handle_type,
            entity_id: fresh_id(),
            receivers: Vec::new(),
            receiver_functions: HashMap::new(),
        }
    }

    /// Attaches the messenger to its entity.
    pub fn start(&mut self, entity_id: EntityId)
        ensures
            final(self).entity_id_spec() == entity_id,
            final(self).handle_type_spec() == old(self).handle_type_spec(),
            final(self).receivers() == old(self).receivers(),
            final(self).functions() == old(self).functions(),
    {
        self.entity_id = entity_id;
    }

    pub fn entity_id(&self) -> (r: EntityId)
        ensures
            r == self.entity_id_spec(),
    {
        self.entity_id
    }

    pub fn handle_type(&self) -> (r: TypeId)
        ensures
            r == self.handle_type_spec(),
    {
        self.handle_type
    }

    /// Registers `handler` as the receiver of calls of `function_id`,
    /// in place of any earlier one.
    pub fn register_receiver(&mut self, function_id: TypeId, handler: H)
        ensures
            final(self).functions() == old(self).functions().insert(function_id, handler),
            final(self).receivers() == old(self).receivers(),
            final(self).entity_id_spec() == old(self).entity_id_spec(),
            final(self).handle_type_spec() == old(self).handle_type_spec(),
    {
        self.receiver_functions.insert(function_id, handler);
    }

    /// Removes the receiver of `function_id`, if any.
    pub fn unregister_receiver(&mut self, function_id: TypeId)
        ensures
            final(self).functions() == old(self).functions().remove(function_id),
            final(self).receivers() == old(self).receivers(),
            final(self).entity_id_spec() == old(self).entity_id_spec(),
            final(self).handle_type_spec() == old(self).handle_type_spec(),
    {
        self.receiver_functions.remove(&function_id);
    }

    /// The receiver of calls of `function_id`.
    pub fn receiver(&self, function_id: TypeId) -> (r: Result<&H, RoutingError>)
        ensures
            match r {
                Ok(h) => route_spec(self.functions(), function_id) == Ok::<H, RoutingError>(*h),
                Err(e) => route_spec(self.functions(), function_id) == Err::<H, RoutingError>(e),
            },
    {
        match self.receiver_functions.get(&function_id) {
            Some(h) => Ok(h),
            None => Err(RoutingError::UnknownFunction(function_id)),
        }
    }

    /// The subscribed clients, in the order they subscribed.
    pub fn clients(&self) -> (r: Vec<ClientId>)
        ensures
            r@ == self.receivers(),
    {
        let mut out: Vec<ClientId> = Vec::new();
        let mut i: usize = 0;
        while i < self.receivers.len()
            invariant
                i <= self.receivers@.len(),
                out@ == self.receivers@.take(i as int),
            decreases self.receivers@.len() - i,
        {
            out.push(self.receivers[i]);
            assert(out@ =~= self.receivers@.take(i + 1));
            i = i + 1;
        }
        assert(self.receivers@.take(i as int) =~= self.receivers@);
        out
    }

    /// Whether `id` is subscribed.
    pub fn has_client(&self, id: &ClientId) -> (r: bool)
        ensures
            r == self.receivers().contains(*id),
    {
        let mut i: usize = 0;
        while i < self.receivers.len()
            invariant
                i <= self.receivers@.len(),
                forall|j: int| 0 <= j < i ==> self.receivers@[j] != *id,
            decreases self.receivers@.len() - i,
        {
            if self.receivers[i] == *id {
                return true;
            }
            i = i + 1;
        }
        false
    }

    /// Hands `message`, in a packet of a fresh conversation, to the
    /// server's `send` for the client `to`.
    fn deliver<A: Copy>(ns: &NetworkServer<A>, to: ClientId, message: ServerMessage, mode: SendMode) -> (r:
        Delivery<A>)
        ensures
            delivers(ns.clients(), r, to, message.deep_view(), mode),
    {
        let conv_id = fresh_id();
        let packet = ServerPacket { conv_id, message };
        let result = ns.send(&to, &packet, mode);
        Delivery { client: to, conv_id, result }
    }

    /// Subscribes the client `id`, if the server knows it and it is not
    /// subscribed yet, and then asks it, on the reliable channel, to create
    /// its handle for this entity. Returns whether the subscribers changed.
    pub fn add_client<A: Copy>(&mut self, ns: &NetworkServer<A>, id: ClientId, outbox: &mut Vec<Delivery<A>>) -> (r:
        bool)
        requires
            old(self).wf(),
        ensures
            final(self).wf(),
            r == add_changes(old(self).receivers(), ns.clients().contains_key(id), id),
            final(self).receivers() == subscribed_after_add(
                old(self).receivers(),
                ns.clients().contains_key(id),
                id,
            ),
            final(self).functions() == old(self).functions(),
            final(self).entity_id_spec() == old(self).entity_id_spec(),
            final(self).handle_type_spec() == old(self).handle_type_spec(),
            extends(old(outbox)@, final(outbox)@, if r { 1 } else { 0 }),
            r ==> delivers(
                ns.clients(),
                final(outbox)@.last(),
                id,
                ServerMessageModel::AddClientHandle(old(self).entity_id_spec(), old(self).handle_type_spec()),
                SendMode::Safe,
            ),
    {
        if !self.has_client(&id) && ns.has_client(&id) {
            self.receivers.push(id);
            let d = Self::deliver(ns, id, ServerMessage::AddClientHandle(self.entity_id, self.handle_type), SendMode::Safe);
            outbox.push(d);
            proof {
                assert(final(outbox)@.take(old(outbox)@.len() as int) =~= old(outbox)@);
                assert forall|i: int, j: int| 0 <= i < j < self.receivers@.len() implies self.receivers@[i]
                    != self.receivers@[j] by {
                    if j == self.receivers@.len() - 1 {
                        assert(old(self).receivers()[i] == self.receivers@[i]);
                    }
                }
            }
            true
        } else {
            assert(final(outbox)@.take(old(outbox)@.len() as int) =~= old(outbox)@);
            false
        }
    }

    /// Unsubscribes the client `id`, if it is subscribed, and then asks it,
    /// on the reliable channel, to drop its handle for this entity. Returns
    /// whether the subscribers changed.
    pub fn remove_client<A: Copy>(&mut self, ns: &NetworkServer<A>, id: &ClientId, outbox: &mut Vec<Delivery<A>>)
        -> (r: bool)
        requires
            old(self).wf(),
        ensures
            final(self).wf(),
            r == old(self).receivers().contains(*id),
            final(self).receivers() == (if r {
                old(self).receivers().remove(old(self).receivers().index_of(*id))
            } else {
                old(self).receivers()
            }),
            final(self).functions() == old(self).functions(),
            final(self).entity_id_spec() == old(self).entity_id_spec(),
            final(self).handle_type_spec() == old(self).handle_type_spec(),
            extends(old(outbox)@, final(outbox)@, if r { 1 } else { 0 }),
            r ==> delivers(
                ns.clients(),
                final(outbox)@.last(),
                *id,
                ServerMessageModel::RemoveClientHandle(old(self).entity_id_spec()),
                SendMode::Safe,
            ),
    {
        let mut i: usize = 0;
        while i < self.receivers.len()
            invariant
                self.receivers@ == old(self).receivers(),
                self.receiver_functions@ == old(self).functions(),
                self.entity_id == old(self).entity_id_spec(),
                self.handle_type == old(self).handle_type_spec(),
                outbox@ == old(outbox)@,
                old(self).wf(),
                i <= self.receivers@.len(),
                forall|j: int| 0 <= j < i ==> self.receivers@[j] != *id,
            decreases self.receivers@.len() - i,
        {
            if self.receivers[i] == *id {
                proof {
                    let k = self.receivers@.index_of(*id);
                    assert(self.receivers@[i as int] == *id);
                    assert(self.receivers@[k] == *id);
                }
                self.receivers.remove(i);
                let d = Self::deliver(ns, *id, ServerMessage::RemoveClientHandle(self.entity_id), SendMode::Safe);
                outbox.push(d);
                proof {
                    assert(final(outbox)@.take(old(outbox)@.len() as int) =~= old(outbox)@);
                    let k = old(self).receivers().index_of(*id);
                    assert(k == i);
                }
                return true;
            }
            i = i + 1;
        }
        assert(final(outbox)@.take(old(outbox)@.len() as int) =~= old(outbox)@);
        false
    }

    /// Calls the function `function_id` of this entity's handle on every
    /// subscribed client, with `message` as its argument: one delivery per
    /// subscriber, in the order they subscribed, all with the same payload.
    /// With no subscribers nothing is sent.
    pub fn call_client_fn<A: Copy, M: Message>(
        &self,
        ns: &NetworkServer<A>,
        function_id: TypeId,
        message: &M,
        mode: SendMode,
        outbox: &mut Vec<Delivery<A>>,
    )
        ensures
            extends(old(outbox)@, final(outbox)@, self.receivers().len() as int),
            forall|i: int|
                0 <= i < self.receivers().len() ==> delivers(
                    ns.clients(),
                    #[trigger] final(outbox)@[old(outbox)@.len() + i],
                    self.receivers()[i],
                    ServerMessageModel::ModMessage(
                        self.entity_id_spec(),
                        function_id,
                        M::wire(message.deep_view()),
                    ),
                    mode,
                ),
    {
        let payload = encode(message);
        let ghost n = old(outbox)@.len();
        let ghost msg = ServerMessageModel::ModMessage(self.entity_id, function_id, M::wire(message.deep_view()));
        let mut i: usize = 0;
        assert(outbox@.take(n as int) =~= old(outbox)@);
        while i < self.receivers.len()
            invariant
                i <= self.receivers@.len(),
                payload@ == M::wire(message.deep_view()),
                msg == ServerMessageModel::ModMessage(self.entity_id, function_id, M::wire(message.deep_view())),
                n == old(outbox)@.len(),
                extends(old(outbox)@, outbox@, i as int),
                forall|j: int|
                    0 <= j < i ==> delivers(ns.clients(), #[trigger] outbox@[n + j], self.receivers@[j], msg, mode),
            decreases self.receivers@.len() - i,
        {
            let data = slice_to_vec(payload.as_slice());
            assert(data@ == payload@);
            let to = self.receivers[i];
            let d = Self::deliver(ns, to, ServerMessage::ModMessage(self.entity_id, function_id, data), mode);

            let ghost before = outbox@;
            outbox.push(d);
            proof {
                assert(outbox@.take(n as int) =~= before.take(n as int));
                assert(outbox@[n + i] == d);
                assert forall|j: int| 0 <= j < i + 1 implies delivers(ns.clients(), #[trigger] outbox@[n + j], self.receivers@[j], msg, mode) by {
                    if j < i {
                        assert(outbox@[n + j] == before[n + j]);
                    }
                }
            }
            i = i + 1;
        }
    }

    /// Calls the function `function_id` of this entity's handle on the client
    /// `client` alone, subscribed or not, with `message` as its argument.
    pub fn call_client_fn_for<A: Copy, M: Message>(
        &self,
        ns: &NetworkServer<A>,
        function_id: TypeId,
        client: &ClientId,
        message: &M,
        mode: SendMode,
        outbox: &mut Vec<Delivery<A>>,
    )
        ensures
            extends(old(outbox)@, final(outbox)@, 1),
            delivers(
                ns.clients(),
                final(outbox)@.last(),
                *client,
                ServerMessageModel::ModMessage(self.entity_id_spec(), function_id, M::wire(message.deep_view())),
                mode,
            ),
    {
        let payload = encode(message);
        let d = Self::deliver(ns, *client, ServerMessage::ModMessage(self.entity_id, function_id, payload), mode);
        outbox.push(d);
        assert(final(outbox)@.take(old(outbox)@.len() as int) =~= old(outbox)@);
    }
}

} // verus!
