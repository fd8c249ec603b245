//! The transport's decisions: what bytes go out on which channel, which
//! received bytes become packets, and which clients the server knows. The
//! sockets and threads that carry the bytes stay with the caller.
use std::collections::HashMap;
use vstd::prelude::*;
use crate::codec::{DecodeError, Wire, decode, decoded, encode, lemma_round_trip};
use crate::framing::{FrameReader, concat_chunks, feed_all, frame, frame_wire, lemma_framing, split_frames, stream_of};
use crate::ids::ClientId;
use crate::packets::{ClientMessage, ClientPacket, ServerPacket, ServerPacketModel};

verus! {

broadcast use vstd::std_specs::hash::group_hash_axioms;

/// The largest payload, in bytes, that the unreliable channel carries.
pub const MAX_PACKET_SIZE: usize = 1024;

/// The channel that a message travels on.
#[derive(Debug, Clone, Copy, PartialEq, Eq, Structural)]
pub enum SendMode {
    /// The unreliable channel: one datagram, which may be lost, repeated or
    /// reordered.
    Quick,
    /// The reliable channel: one frame on the ordered stream.
    Safe,
}

/// Bytes ready to be written to one of the two channels.
#[derive(Debug, PartialEq, Eq)]
pub enum Outgoing {
    /// One datagram for the unreliable channel.
    Datagram(Vec<u8>),
    /// One frame for the reliable stream, length prefix included.
    Stream(Vec<u8>),
}

/// Why a message was not sent. Neither is fatal to the connection.
#[derive(Debug, Clone, Copy, PartialEq, Eq, Structural)]
pub enum SendError {
    /// The encoded message, of the given size, is larger than its channel
    /// carries.
    TooLarge(usize),
    /// The server knows no client with this id.
    UnknownClient(ClientId),
}

/// What is sent for the encoded message `data` in `mode`.
pub open spec fn outgoing_spec(data: Seq<u8>, mode: SendMode, r: Result<Outgoing, SendError>) -> bool {
    match mode {
        SendMode::Quick => if data.len() > MAX_PACKET_SIZE {
            r == Err::<Outgoing, SendError>(SendError::TooLarge(data.len() as usize))
        } else {
            r matches Ok(Outgoing::Datagram(d)) && d@ == data
        },
        SendMode::Safe => if data.len() > u32::MAX {
            r == Err::<Outgoing, SendError>(SendError::TooLarge(data.len() as usize))
        } else {
            r matches Ok(Outgoing::Stream(s)) && s@ == frame_wire(data)
        },
    }
}

/// On the unreliable channel, a message larger than `MAX_PACKET_SIZE` (one
/// byte larger, or more) is refused with `TooLarge` and its size, so that no
/// bytes are handed out for writing.
pub proof fn lemma_oversize_rejected(data: Seq<u8>, r: Result<Outgoing, SendError>)
    requires
        data.len() > MAX_PACKET_SIZE,
        outgoing_spec(data, SendMode::Quick, r),
    ensures
        r == Err::<Outgoing, SendError>(SendError::TooLarge(data.len() as usize)),
        !(r is Ok),
{
}

/// Prepares the encoded message `data` for its channel. On the unreliable
/// channel a message larger than `MAX_PACKET_SIZE` is refused before any
/// write; on the reliable one it is framed.
pub fn prepare_send(data: Vec<u8>, mode: SendMode) -> (r: Result<Outgoing, SendError>)
    ensures
        outgoing_spec(data@, mode, r),
{
    match mode {
        SendMode::Quick => {
            if data.len() > MAX_PACKET_SIZE {
                Err(SendError::TooLarge(data.len()))
            } else {
                Ok(Outgoing::Datagram(data))
            }
        },
        SendMode::Safe => {
            if data.len() > u32::MAX as usize {
                Err(SendError::TooLarge(data.len()))
            } else {
                Ok(Outgoing::Stream(frame(data.as_slice())))
            }
        },
    }
}

/// Encodes `packet` and prepares it for its channel.
pub fn encode_for_send<T: Wire>(packet: &T, mode: SendMode) -> (r: Result<Outgoing, SendError>)
    ensures
        outgoing_spec(T::wire(packet.deep_view()), mode, r),
{
    prepare_send(encode(packet), mode)
}

/// Packets received and not yet taken by the game loop, oldest first.
pub struct Inbox<T> {
    queue: Vec<T>,
}

impl<T> Inbox<T> {
    pub closed spec fn view(&self) -> Seq<T> {
        self.queue@
    }

    pub fn new() -> (r: Inbox<T>)
        ensures
            r.view() == Seq::<T>::empty(),
    {
        Inbox { queue: Vec::new() }
    }

    /// Queues one packet behind the others.
    pub fn push(&mut self, item: T)
        ensures
            final(self).view() == old(self).view().push(item),
    {
        self.queue.push(item);
    }

    /// Takes everything queued, in the order it came, and leaves the inbox
    /// empty.
    pub fn drain(&mut self) -> (r: Vec<T>)
        ensures
            r@ == old(self).view(),
            final(self).view() == Seq::<T>::empty(),
    {
        let mut taken: Vec<T> = Vec::new();
        std::mem::swap(&mut taken, &mut self.queue);
        taken
    }

    pub fn len(&self) -> (r: usize)
        ensures
            r == self.view().len(),
    {
        self.queue.len()
    }
}

/// A reliable stream that carries the frames of the encodings of `packets`,
/// cut into chunks of any sizes, gives a fresh reader exactly those frames,
/// in order, each of which decodes to its packet.
pub proof fn lemma_stream_of_packets<T: Wire>(packets: Seq<T::V>, chunks: Seq<Seq<u8>>)
    requires
        forall|i: int| 0 <= i < packets.len() ==> (#[trigger] T::wire(packets[i])).len() <= u32::MAX,
        concat_chunks(chunks) == stream_of(packets.map_values(|v: T::V| T::wire(v))),
    ensures
        feed_all(Seq::empty(), chunks).1 == Seq::<u8>::empty(),
        feed_all(Seq::empty(), chunks).0.len() == packets.len(),
        forall|i: int|
            0 <= i < packets.len() ==> decoded::<T>(#[trigger] feed_all(Seq::empty(), chunks).0[i]) == Some(
                packets[i],
            ),
{
    let frames = packets.map_values(|v: T::V| T::wire(v));
    assert forall|i: int| 0 <= i < frames.len() implies #[trigger] frames[i].len() <= u32::MAX by {
        assert(frames[i] == T::wire(packets[i]));
    }
    lemma_framing(frames, chunks);
    assert forall|i: int| 0 <= i < packets.len() implies decoded::<T>(
        #[trigger] feed_all(Seq::empty(), chunks).0[i],
    ) == Some(packets[i]) by {
        assert(frames[i] == T::wire(packets[i]));
        assert(T::wire(packets[i]).len() <= u32::MAX);
        lemma_round_trip::<T>(packets[i]);
    }
}

/// Decodes one datagram and queues the packet. A datagram that is not the
/// encoding of a packet is refused and nothing is queued.
pub fn receive_datagram<T: Wire>(datagram: &[u8], inbox: &mut Inbox<T>) -> (r: Result<(), DecodeError>)
    ensures
        r is Ok <==> exists|v: T::V| #[trigger] T::wire(v) == datagram@,
        r is Ok ==> final(inbox).view().len() == old(inbox).view().len() + 1 && final(inbox).view().take(
            old(inbox).view().len() as int,
        ) == old(inbox).view() && T::wire(final(inbox).view().last().deep_view()) == datagram@
            && decoded::<T>(datagram@) == Some(final(inbox).view().last().deep_view()),
        r is Err ==> final(inbox).view() == old(inbox).view(),
{
    match decode::<T>(datagram) {
        Ok(p) => {
            inbox.push(p);
            assert(final(inbox).view().take(old(inbox).view().len() as int) =~= old(inbox).view());
            Ok(())
        },
        Err(e) => Err(e),
    }
}

/// Takes the next chunk of the reliable stream, decodes the frames it
/// completes and queues their packets in order. A frame that is not the
/// encoding of a packet ends the work with an error, which the caller takes
/// as the failure of the connection; the packets before it are queued.
pub fn receive_stream<T: Wire>(reader: &mut FrameReader, chunk: &[u8], inbox: &mut Inbox<T>) -> (r:
    Result<(), DecodeError>)
    requires
        old(reader).wf(),
    ensures
        final(reader).wf(),
        final(reader).pending() == split_frames(old(reader).pending() + chunk@).1,
        ({
            let frames = split_frames(old(reader).pending() + chunk@).0;
            let n = old(inbox).view().len();
            let added = (final(inbox).view().len() - n) as int;
            &&& n <= final(inbox).view().len()
            &&& final(inbox).view().take(n as int) == old(inbox).view()
            &&& added <= frames.len()
            &&& forall|i: int|
                0 <= i < added ==> T::wire(#[trigger] final(inbox).view()[n + i].deep_view()) == frames[i]
                    && decoded::<T>(frames[i]) == Some(final(inbox).view()[n + i].deep_view())
            &&& (r is Ok <==> added == frames.len())
            &&& (r is Err ==> forall|v: T::V| #[trigger] T::wire(v) != frames[added])
        }),
{
    let frames = reader.feed(chunk);
    let ghost n = inbox.view().len();
    let ghost old_inbox = inbox.view();
    let mut i: usize = 0;
    while i < frames.len()
        invariant
            frames.deep_view() == split_frames(old(reader).pending() + chunk@).0,
            reader.wf(),
            reader.pending() == split_frames(old(reader).pending() + chunk@).1,
            i <= frames.len(),
            inbox.view().len() == n + i,
            inbox.view().take(n as int) == old_inbox,
            old_inbox == old(inbox).view(),
            n == old(inbox).view().len(),
            forall|j: int|
                0 <= j < i ==> T::wire(#[trigger] inbox.view()[n + j].deep_view()) == frames.deep_view()[j]
                    && decoded::<T>(frames.deep_view()[j]) == Some(inbox.view()[n + j].deep_view()),
        decreases frames.len() - i,
    {
        assert(frames[i as int].deep_view() =~= frames[i as int]@);
        match decode::<T>(frames[i].as_slice()) {
            Ok(p) => {
                let ghost before = inbox.view();
                inbox.push(p);
                assert(inbox.view().take(n as int) =~= before.take(n as int));
                assert(inbox.view()[n + i] == p);
            },
            Err(e) => {
                proof {
                    assert forall|v: T::V| #[trigger] T::wire(v) != frames.deep_view()[i as int] by {
                        if T::wire(v) == frames.deep_view()[i as int] {
                            assert(T::wire(v) == frames[i as int]@);
                        }
                    }
                }
                return Err(e);
            },
        }
        i = i + 1;
    }
    Ok(())
}

/// What the server knows of a connected client: where its datagrams come
/// from and when it was last heard of.
#[derive(Debug, Clone, Copy, PartialEq, Eq)]
pub struct ClientRecord<A> {
    pub client_addr: A,
    pub last_seen: u64,
}

/// The server's table of connected clients, keyed by client id. `A` is the
/// type of a network address.
pub struct NetworkServer<A> {
    clients: HashMap<ClientId, ClientRecord<A>>,
}

impl<A: Copy> NetworkServer<A> {
    pub closed spec fn clients(&self) -> Map<ClientId, ClientRecord<A>> {
        self.clients@
    }

    /// A server with no clients.
    pub fn new() -> (r: NetworkServer<A>)
        ensures
            r.clients() == Map::<ClientId, ClientRecord<A>>::empty(),
    {
        NetworkServer { clients: HashMap::new() }
    }

    /// Whether the client is connected.
    pub fn has_client(&self, id: &ClientId) -> (r: bool)
        ensures
            r == self.clients().contains_key(*id),
    {
        self.clients.contains_key(id)
    }

    /// The record of a connected client.
    pub fn client(&self, id: &ClientId) -> (r: Option<ClientRecord<A>>)
        ensures
            r == (if self.clients().contains_key(*id) {
                Some(self.clients()[*id])
            } else {
                None
            }),
    {
        match self.clients.get(id) {
            Some(c) => Some(*c),
            None => None,
        }
    }

    /// Takes a packet that came from `addr` at time `now`. `Login` records
    /// the client, `Logout` forgets it, and any other packet from a known
    /// client renews its last-seen time.
    pub fn receive(&mut self, addr: A, packet: &ClientPacket, now: u64)
        ensures
            final(self).clients() == match packet.message {
                ClientMessage::Login => old(self).clients().insert(
                    packet.client_id,
                    ClientRecord { client_addr: addr, last_seen: now },
                ),
                ClientMessage::Logout => old(self).clients().remove(packet.client_id),
                _ => if old(self).clients().contains_key(packet.client_id) {
                    old(self).clients().insert(
                        packet.client_id,
                        ClientRecord { client_addr: old(self).clients()[packet.client_id].client_addr, last_seen: now },
                    )
                } else {
                    old(self).clients()
                },
            },
    {
        let id = packet.client_id;
        match packet.message {
            ClientMessage::Login => {
                self.clients.insert(id, ClientRecord { client_addr: addr, last_seen: now });
            },
            ClientMessage::Logout => {
                self.clients.remove(&id);
            },
            _ => {
                match self.clients.get(&id) {
                    Some(c) => {
                        let client_addr = c.client_addr;
                        self.clients.insert(id, ClientRecord { client_addr, last_seen: now });
                    },
                    None => {},
                }
            },
        }
    }

    /// Forgets a client, as on a kick or a timeout. Returns whether it was
    /// known.
    pub fn remove_client(&mut self, id: &ClientId) -> (r: bool)
        ensures
            r == old(self).clients().contains_key(*id),
            final(self).clients() == old(self).clients().remove(*id),
    {
        self.clients.remove(id).is_some()
    }

    /// Prepares `packet` for the client `id` in `mode`: the client's address
    /// and the bytes for the channel.
    pub fn send(&self, id: &ClientId, packet: &ServerPacket, mode: SendMode) -> (r: Result<
        (A, Outgoing),
        SendError,
    >)
        ensures
            send_spec(self.clients(), *id, packet.deep_view(), mode, r),
    {
        match self.clients.get(id) {
            Some(c) => {
                let addr = c.client_addr;
                match encode_for_send(packet, mode) {
                    Ok(out) => Ok((addr, out)),
                    Err(e) => Err(e),
                }
            },
            None => Err(SendError::UnknownClient(*id)),
        }
    }
}

/// What the server's `send` of `packet` to `id` in `mode` gives, when it
/// knows the clients `clients`: an unknown client is refused; otherwise the
/// client's address with the bytes for the channel, or the channel's refusal.
pub open spec fn send_spec<A>(
    clients: Map<ClientId, ClientRecord<A>>,
    id: ClientId,
    packet: ServerPacketModel,
    mode: SendMode,
    r: Result<(A, Outgoing), SendError>,
) -> bool {
    if !clients.contains_key(id) {
        r == Err::<(A, Outgoing), SendError>(SendError::UnknownClient(id))
    } else {
        match r {
            Ok((addr, out)) => addr == clients[id].client_addr && outgoing_spec(
                ServerPacket::wire(packet),
                mode,
                Ok(out),
            ),
            Err(e) => outgoing_spec(ServerPacket::wire(packet), mode, Err(e)),
        }
    }
}

} // verus!
