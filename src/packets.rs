//! The packets that one client and the server exchange, with their models
//! and wire encodings. A variant is written as its two-byte tag followed by
//! its fields in order.
use vstd::prelude::*;
use crate::codec::{
    DecodeError, Wire, lemma_bytes_unique, lemma_str_unique, lemma_u16_unique, lemma_u128_unique, get_bytes, get_str, get_u16, get_u128, holds_at, lemma_holds_at_split, lemma_wire_ints, put_bytes, put_str,
    put_u16, put_u128, wire_bytes, wire_str, wire_u16, wire_u128,
};
use crate::ids::{ClientId, EntityId, Id, TypeId};
use crate::codec::{decoded, lemma_round_trip};

verus! {

/// A message that a client sends to the server.
#[derive(Debug, Clone, PartialEq, Eq)]
pub enum ClientMessage {
    Login,
    Logout,
    Ping(String),
    Pong(String),
    RawData(Vec<u8>),
    /// A call of the function `function_id` of the messenger of `entity_id`,
    /// with its encoded argument.
    ModMessage(EntityId, TypeId, Vec<u8>),
}

/// The model of a `ClientMessage`.
pub enum ClientMessageModel {
    Login,
    Logout,
    Ping(Seq<char>),
    Pong(Seq<char>),
    RawData(Seq<u8>),
    ModMessage(EntityId, TypeId, Seq<u8>),
}

impl DeepView for ClientMessage {
    type V = ClientMessageModel;

    open spec fn deep_view(&self) -> ClientMessageModel {
        match self {
            ClientMessage::Login => ClientMessageModel::Login,
            ClientMessage::Logout => ClientMessageModel::Logout,
            ClientMessage::Ping(s) => ClientMessageModel::Ping(s@),
            ClientMessage::Pong(s) => ClientMessageModel::Pong(s@),
            ClientMessage::RawData(b) => ClientMessageModel::RawData(b@),
            ClientMessage::ModMessage(e, f, b) => ClientMessageModel::ModMessage(*e, *f, b@),
        }
    }
}

pub open spec fn client_message_tag(m: ClientMessageModel) -> u16 {
    match m {
        ClientMessageModel::Login => 0,
        ClientMessageModel::Logout => 1,
        ClientMessageModel::Ping(_) => 2,
        ClientMessageModel::Pong(_) => 3,
        ClientMessageModel::RawData(_) => 4,
        ClientMessageModel::ModMessage(..) => 5,
    }
}

pub open spec fn client_message_fields(m: ClientMessageModel) -> Seq<u8> {
    match m {
        ClientMessageModel::Login => Seq::empty(),
        ClientMessageModel::Logout => Seq::empty(),
        ClientMessageModel::Ping(s) => wire_str(s),
        ClientMessageModel::Pong(s) => wire_str(s),
        ClientMessageModel::RawData(b) => wire_bytes(b),
        ClientMessageModel::ModMessage(e, f, b) => wire_u128(e) + wire_u128(f) + wire_bytes(b),
    }
}

pub proof fn lemma_id_str_unique(b: Seq<u8>, pos: int, i1: u128, s1: Seq<char>, i2: u128, s2: Seq<char>)
    requires
        b.len() <= u64::MAX,
        holds_at(b, pos, wire_u128(i1) + wire_str(s1)),
        holds_at(b, pos, wire_u128(i2) + wire_str(s2)),
    ensures
        i1 == i2 && s1 == s2,
{
    lemma_wire_ints();
    lemma_holds_at_split(b, pos, wire_u128(i1), wire_str(s1));
    lemma_holds_at_split(b, pos, wire_u128(i2), wire_str(s2));
    lemma_u128_unique(b, pos, i1, i2);
    lemma_str_unique(b, pos + 16, s1, s2);
}

pub proof fn lemma_two_ids_unique(b: Seq<u8>, pos: int, i1: u128, j1: u128, i2: u128, j2: u128)
    requires
        holds_at(b, pos, wire_u128(i1) + wire_u128(j1)),
        holds_at(b, pos, wire_u128(i2) + wire_u128(j2)),
    ensures
        i1 == i2 && j1 == j2,
{
    lemma_wire_ints();
    lemma_holds_at_split(b, pos, wire_u128(i1), wire_u128(j1));
    lemma_holds_at_split(b, pos, wire_u128(i2), wire_u128(j2));
    lemma_u128_unique(b, pos, i1, i2);
    lemma_u128_unique(b, pos + 16, j1, j2);
}

pub proof fn lemma_mod_message_unique(
    b: Seq<u8>,
    pos: int,
    e1: u128,
    f1: u128,
    d1: Seq<u8>,
    e2: u128,
    f2: u128,
    d2: Seq<u8>,
)
    requires
        b.len() <= u64::MAX,
        holds_at(b, pos, wire_u128(e1) + wire_u128(f1) + wire_bytes(d1)),
        holds_at(b, pos, wire_u128(e2) + wire_u128(f2) + wire_bytes(d2)),
    ensures
        e1 == e2 && f1 == f2 && d1 == d2,
{
    lemma_wire_ints();
    lemma_holds_at_split(b, pos, wire_u128(e1) + wire_u128(f1), wire_bytes(d1));
    lemma_holds_at_split(b, pos, wire_u128(e2) + wire_u128(f2), wire_bytes(d2));
    lemma_two_ids_unique(b, pos, e1, f1, e2, f2);
    lemma_bytes_unique(b, pos + 32, d1, d2);
}

/// Reads the fields of a `ModMessage` at `pos`.
fn get_mod_message(b: &[u8], pos: usize) -> (r: Result<(EntityId, TypeId, Vec<u8>, usize), DecodeError>)
    ensures
        match r {
            Ok((e, f, d, end)) => holds_at(b@, pos as int, wire_u128(e) + wire_u128(f) + wire_bytes(d@))
                && end == pos + (wire_u128(e) + wire_u128(f) + wire_bytes(d@)).len(),
            Err(_) => forall|e: u128, f: u128, d: Seq<u8>|
                !#[trigger] holds_at(b@, pos as int, wire_u128(e) + wire_u128(f) + wire_bytes(d)),
        },
        forall|e: u128, f: u128, d: Seq<u8>| #[trigger]
            holds_at(b@, pos as int, wire_u128(e) + wire_u128(f) + wire_bytes(d)) ==> (r matches Ok(
                (x, y, z, _),
            ) && x == e && y == f && z@ == d),
{
    proof {
        lemma_wire_ints();
        assert forall|e: u128, f: u128, d: Seq<u8>| #[trigger]
            holds_at(b@, pos as int, wire_u128(e) + wire_u128(f) + wire_bytes(d)) <==> {
                &&& holds_at(b@, pos as int, wire_u128(e))
                &&& holds_at(b@, pos + 16, wire_u128(f))
                &&& holds_at(b@, pos + 32, wire_bytes(d))
            } by {
            lemma_holds_at_split(b@, pos as int, wire_u128(e) + wire_u128(f), wire_bytes(d));
            lemma_holds_at_split(b@, pos as int, wire_u128(e), wire_u128(f));
        }
    }
    let (e, pos1) = match get_u128(b, pos) {
        Ok(x) => x,
        Err(err) => {
            return Err(err);
        },
    };
    let (f, pos2) = match get_u128(b, pos1) {
        Ok(x) => x,
        Err(err) => {
            return Err(err);
        },
    };
    let (d, pos3) = match get_bytes(b, pos2) {
        Ok(x) => x,
        Err(err) => {
            return Err(err);
        },
    };
    Ok((e, f, d, pos3))
}

impl Wire for ClientMessage {
    open spec fn wire(v: ClientMessageModel) -> Seq<u8> {
        wire_u16(client_message_tag(v)) + client_message_fields(v)
    }

    proof fn lemma_wire_nonempty(v: ClientMessageModel) {
        lemma_wire_ints();
    }

    proof fn lemma_wire_unique(b: Seq<u8>, pos: int, v1: ClientMessageModel, v2: ClientMessageModel) {
        lemma_wire_ints();
        lemma_holds_at_split(b, pos, wire_u16(client_message_tag(v1)), client_message_fields(v1));
        lemma_holds_at_split(b, pos, wire_u16(client_message_tag(v2)), client_message_fields(v2));
        lemma_u16_unique(b, pos, client_message_tag(v1), client_message_tag(v2));
        match (v1, v2) {
            (ClientMessageModel::Ping(x), ClientMessageModel::Ping(y)) => lemma_str_unique(b, pos + 2, x, y),
            (ClientMessageModel::Pong(x), ClientMessageModel::Pong(y)) => lemma_str_unique(b, pos + 2, x, y),
            (ClientMessageModel::RawData(x), ClientMessageModel::RawData(y)) => lemma_bytes_unique(b, pos + 2, x, y),
            (ClientMessageModel::ModMessage(e1, f1, d1), ClientMessageModel::ModMessage(e2, f2, d2)) =>
                lemma_mod_message_unique(b, pos + 2, e1, f1, d1, e2, f2, d2),
            _ => {},
        }
    }

    fn put(&self, out: &mut Vec<u8>) {
        proof {
            lemma_wire_ints();
        }
        match self {
            ClientMessage::Login => {
                put_u16(out, 0);
            },
            ClientMessage::Logout => {
                put_u16(out, 1);
            },
            ClientMessage::Ping(s) => {
                put_u16(out, 2);
                put_str(out, s.as_str());
            },
            ClientMessage::Pong(s) => {
                put_u16(out, 3);
                put_str(out, s.as_str());
            },
            ClientMessage::RawData(d) => {
                put_u16(out, 4);
                put_bytes(out, d.as_slice());
            },
            ClientMessage::ModMessage(e, f, d) => {
                put_u16(out, 5);
                put_u128(out, *e);
                put_u128(out, *f);
                put_bytes(out, d.as_slice());
            },
        }
        assert(final(out)@ =~= old(out)@ + Self::wire(self.deep_view()));
    }

    fn get(b: &[u8], pos: usize) -> (r: Result<(ClientMessage, usize), DecodeError>) {
        proof {
            lemma_wire_ints();
        }
        let (tag, start) = match get_u16(b, pos) {
            Ok(x) => x,
            Err(e) => {
                proof {
                    assert forall|v: ClientMessageModel| !#[trigger] holds_at(b@, pos as int, Self::wire(v)) by {
                        lemma_holds_at_split(b@, pos as int, wire_u16(client_message_tag(v)), client_message_fields(v));
                    }
                }
                return Err(e);
            },
        };
        proof {
            assert forall|v: ClientMessageModel| #[trigger] holds_at(b@, pos as int, Self::wire(v)) implies
                client_message_tag(v) == tag && holds_at(b@, start as int, client_message_fields(v)) by {
                lemma_holds_at_split(b@, pos as int, wire_u16(client_message_tag(v)), client_message_fields(v));
            }
            assert forall|v: ClientMessageModel| holds_at(b@, start as int, #[trigger] client_message_fields(v))
                && client_message_tag(v) == tag implies holds_at(b@, pos as int, Self::wire(v)) by {
                lemma_holds_at_split(b@, pos as int, wire_u16(client_message_tag(v)), client_message_fields(v));
            }
            assert(b@.subrange(start as int, start as int) =~= Seq::<u8>::empty());
        }
        if tag == 0 {
            assert(holds_at(b@, pos as int, Self::wire(ClientMessageModel::Login)));
            Ok((ClientMessage::Login, start))
        } else if tag == 1 {
            assert(holds_at(b@, pos as int, Self::wire(ClientMessageModel::Logout)));
            Ok((ClientMessage::Logout, start))
        } else if tag == 2 || tag == 3 {
            match get_str(b, start) {
                Ok((s, end)) => {
                    if tag == 2 {
                        assert(holds_at(b@, pos as int, Self::wire(ClientMessageModel::Ping(s@))));
                        Ok((ClientMessage::Ping(s), end))
                    } else {
                        assert(holds_at(b@, pos as int, Self::wire(ClientMessageModel::Pong(s@))));
                        Ok((ClientMessage::Pong(s), end))
                    }
                },
                Err(e) => Err(e),
            }
        } else if tag == 4 {
            match get_bytes(b, start) {
                Ok((d, end)) => {
                    assert(holds_at(b@, pos as int, Self::wire(ClientMessageModel::RawData(d@))));
                    Ok((ClientMessage::RawData(d), end))
                },
                Err(e) => Err(e),
            }
        } else if tag == 5 {
            match get_mod_message(b, start) {
                Ok((e, f, d, end)) => {
                    assert(holds_at(b@, pos as int, Self::wire(ClientMessageModel::ModMessage(e, f, d@))));
                    Ok((ClientMessage::ModMessage(e, f, d), end))
                },
                Err(err) => Err(err),
            }
        } else {
            Err(DecodeError::InvalidTag(tag))
        }
    }
}

/// A client's packet: who sends it, the conversation it belongs to, and the
/// message.
#[derive(Debug, Clone, PartialEq, Eq)]
pub struct ClientPacket {
    pub client_id: ClientId,
    pub conv_id: Id,
    pub message: ClientMessage,
}

/// The model of a `ClientPacket`.
pub struct ClientPacketModel {
    pub client_id: ClientId,
    pub conv_id: Id,
    pub message: ClientMessageModel,
}

impl DeepView for ClientPacket {
    type V = ClientPacketModel;

    open spec fn deep_view(&self) -> ClientPacketModel {
        ClientPacketModel {
            client_id: self.client_id,
            conv_id: self.conv_id,
            message: self.message.deep_view(),
        }
    }
}

impl Wire for ClientPacket {
    open spec fn wire(v: ClientPacketModel) -> Seq<u8> {
        wire_u128(v.client_id) + wire_u128(v.conv_id) + ClientMessage::wire(v.message)
    }

    proof fn lemma_wire_nonempty(v: ClientPacketModel) {
        lemma_wire_ints();
    }

    proof fn lemma_wire_unique(b: Seq<u8>, pos: int, v1: ClientPacketModel, v2: ClientPacketModel) {
        lemma_wire_ints();
        lemma_holds_at_split(b, pos, wire_u128(v1.client_id) + wire_u128(v1.conv_id), ClientMessage::wire(v1.message));
        lemma_holds_at_split(b, pos, wire_u128(v2.client_id) + wire_u128(v2.conv_id), ClientMessage::wire(v2.message));
        lemma_two_ids_unique(b, pos, v1.client_id, v1.conv_id, v2.client_id, v2.conv_id);
        ClientMessage::lemma_wire_unique(b, pos + 32, v1.message, v2.message);
    }

    fn put(&self, out: &mut Vec<u8>) {
        put_u128(out, self.client_id);
        put_u128(out, self.conv_id);
        self.message.put(out);
        assert(final(out)@ =~= old(out)@ + Self::wire(self.deep_view()));
    }

    fn get(b: &[u8], pos: usize) -> (r: Result<(ClientPacket, usize), DecodeError>) {
        proof {
            lemma_wire_ints();
            assert forall|v: ClientPacketModel| #[trigger] holds_at(b@, pos as int, Self::wire(v)) <==> {
                &&& holds_at(b@, pos as int, wire_u128(v.client_id))
                &&& holds_at(b@, pos + 16, wire_u128(v.conv_id))
                &&& holds_at(b@, pos + 32, ClientMessage::wire(v.message))
            } by {
                lemma_holds_at_split(b@, pos as int, wire_u128(v.client_id) + wire_u128(v.conv_id), ClientMessage::wire(v.message));
                lemma_holds_at_split(b@, pos as int, wire_u128(v.client_id), wire_u128(v.conv_id));
            }
        }
        let (client_id, pos1) = match get_u128(b, pos) {
            Ok(x) => x,
            Err(e) => {
                return Err(e);
            },
        };
        let (conv_id, pos2) = match get_u128(b, pos1) {
            Ok(x) => x,
            Err(e) => {
                return Err(e);
            },
        };
        let (message, pos3) = match ClientMessage::get(b, pos2) {
            Ok(x) => x,
            Err(e) => {
                return Err(e);
            },
        };
        Ok((ClientPacket { client_id, conv_id, message }, pos3))
    }
}

/// What a server tells a client about itself when it accepts a login. Each
/// entry of `mods` is a mod's name, its flags, the hash of its archive and
/// the archive's size.
#[derive(Debug, Clone, PartialEq, Eq)]
pub struct ServerInfo {
    pub server_version: String,
    pub mod_profile: String,
    pub mod_version: String,
    pub mods: Vec<(String, Vec<String>, String, u64)>,
}

/// The model of a `ServerInfo`.
pub struct ServerInfoModel {
    pub server_version: Seq<char>,
    pub mod_profile: Seq<char>,
    pub mod_version: Seq<char>,
    pub mods: Seq<(Seq<char>, Seq<Seq<char>>, Seq<char>, u64)>,
}

impl DeepView for ServerInfo {
    type V = ServerInfoModel;

    open spec fn deep_view(&self) -> ServerInfoModel {
        ServerInfoModel {
            server_version: self.server_version@,
            mod_profile: self.mod_profile@,
            mod_version: self.mod_version@,
            mods: self.mods.deep_view(),
        }
    }
}

/// Encoding of the mod list of a `ServerInfo`.
pub open spec fn wire_mods(m: Seq<(Seq<char>, Seq<Seq<char>>, Seq<char>, u64)>) -> Seq<u8> {
    <Vec<(String, Vec<String>, String, u64)> as Wire>::wire(m)
}

impl Wire for ServerInfo {
    open spec fn wire(v: ServerInfoModel) -> Seq<u8> {
        wire_str(v.server_version) + wire_str(v.mod_profile) + wire_str(v.mod_version) + wire_mods(
            v.mods,
        )
    }

    proof fn lemma_wire_nonempty(v: ServerInfoModel) {
        lemma_wire_ints();
    }

    proof fn lemma_wire_unique(b: Seq<u8>, pos: int, v1: ServerInfoModel, v2: ServerInfoModel) {
        let (a1, b1, c1) = (wire_str(v1.server_version), wire_str(v1.mod_profile), wire_str(v1.mod_version));
        let (a2, b2, c2) = (wire_str(v2.server_version), wire_str(v2.mod_profile), wire_str(v2.mod_version));
        lemma_holds_at_split(b, pos, a1 + b1 + c1, wire_mods(v1.mods));
        lemma_holds_at_split(b, pos, a1 + b1, c1);
        lemma_holds_at_split(b, pos, a1, b1);
        lemma_holds_at_split(b, pos, a2 + b2 + c2, wire_mods(v2.mods));
        lemma_holds_at_split(b, pos, a2 + b2, c2);
        lemma_holds_at_split(b, pos, a2, b2);
        lemma_str_unique(b, pos, v1.server_version, v2.server_version);
        lemma_str_unique(b, pos + a1.len(), v1.mod_profile, v2.mod_profile);
        lemma_str_unique(b, pos + a1.len() + b1.len(), v1.mod_version, v2.mod_version);
        <Vec<(String, Vec<String>, String, u64)> as Wire>::lemma_wire_unique(
            b,
            pos + a1.len() + b1.len() + c1.len(),
            v1.mods,
            v2.mods,
        );
    }

    fn put(&self, out: &mut Vec<u8>) {
        put_str(out, self.server_version.as_str());
        put_str(out, self.mod_profile.as_str());
        put_str(out, self.mod_version.as_str());
        self.mods.put(out);
        assert(final(out)@ =~= old(out)@ + Self::wire(self.deep_view()));
    }

    fn get(b: &[u8], pos: usize) -> (r: Result<(ServerInfo, usize), DecodeError>) {
        proof {
            assert forall|v: ServerInfoModel| #[trigger] holds_at(b@, pos as int, Self::wire(v)) <==> {
                &&& holds_at(b@, pos as int, wire_str(v.server_version))
                &&& holds_at(b@, pos + wire_str(v.server_version).len(), wire_str(v.mod_profile))
                &&& holds_at(
                    b@,
                    pos + wire_str(v.server_version).len() + wire_str(v.mod_profile).len(),
                    wire_str(v.mod_version),
                )
                &&& holds_at(
                    b@,
                    pos + wire_str(v.server_version).len() + wire_str(v.mod_profile).len()
                        + wire_str(v.mod_version).len(),
                    wire_mods(v.mods),
                )
            } by {
                let (wa, wb, wc) = (wire_str(v.server_version), wire_str(v.mod_profile), wire_str(v.mod_version));
                lemma_holds_at_split(b@, pos as int, wa + wb + wc, wire_mods(v.mods));
                lemma_holds_at_split(b@, pos as int, wa + wb, wc);
                lemma_holds_at_split(b@, pos as int, wa, wb);
            }
        }
        let (server_version, pos1) = match get_str(b, pos) {
            Ok(x) => x,
            Err(e) => {
                return Err(e);
            },
        };
        let (mod_profile, pos2) = match get_str(b, pos1) {
            Ok(x) => x,
            Err(e) => {
                return Err(e);
            },
        };
        let (mod_version, pos3) = match get_str(b, pos2) {
            Ok(x) => x,
            Err(e) => {
                return Err(e);
            },
        };
        let (mods, pos4) = match <Vec<(String, Vec<String>, String, u64)> as Wire>::get(b, pos3) {
            Ok(x) => x,
            Err(e) => {
                return Err(e);
            },
        };
        Ok((ServerInfo { server_version, mod_profile, mod_version, mods }, pos4))
    }
}

/// A message that the server sends to a client.
#[derive(Debug, PartialEq, Eq)]
pub enum ServerMessage {
    KeepAlive,
    Acknowledge(Id),
    Unregister(String),
    /// The answer to a login: the server's description, or why it refused.
    RegisterResponse(Result<ServerInfo, String>),
    Kick(String),
    Login(ClientId, String),
    Logout(ClientId, String),
    Ping(String),
    Pong(String),
    RawData(Vec<u8>),
    /// A call of the function `function_id` of the handle of `entity_id`,
    /// with its encoded argument.
    ModMessage(EntityId, TypeId, Vec<u8>),
    /// Asks the client to create its local handle, of the given type, for
    /// an entity.
    AddClientHandle(EntityId, TypeId),
    /// Asks the client to drop its local handle for an entity.
    RemoveClientHandle(EntityId),
}

/// The model of a `ServerMessage`.
pub enum ServerMessageModel {
    KeepAlive,
    Acknowledge(Id),
    Unregister(Seq<char>),
    RegisterResponse(Result<ServerInfoModel, Seq<char>>),
    Kick(Seq<char>),
    Login(ClientId, Seq<char>),
    Logout(ClientId, Seq<char>),
    Ping(Seq<char>),
    Pong(Seq<char>),
    RawData(Seq<u8>),
    ModMessage(EntityId, TypeId, Seq<u8>),
    AddClientHandle(EntityId, TypeId),
    RemoveClientHandle(EntityId),
}

impl DeepView for ServerMessage {
    type V = ServerMessageModel;

    open spec fn deep_view(&self) -> ServerMessageModel {
        match self {
            ServerMessage::KeepAlive => ServerMessageModel::KeepAlive,
            ServerMessage::Acknowledge(i) => ServerMessageModel::Acknowledge(*i),
            ServerMessage::Unregister(s) => ServerMessageModel::Unregister(s@),
            ServerMessage::RegisterResponse(r) => ServerMessageModel::RegisterResponse(
                match r {
                    Ok(info) => Ok(info.deep_view()),
                    Err(s) => Err(s@),
                },
            ),
            ServerMessage::Kick(s) => ServerMessageModel::Kick(s@),
            ServerMessage::Login(c, s) => ServerMessageModel::Login(*c, s@),
            ServerMessage::Logout(c, s) => ServerMessageModel::Logout(*c, s@),
            ServerMessage::Ping(s) => ServerMessageModel::Ping(s@),
            ServerMessage::Pong(s) => ServerMessageModel::Pong(s@),
            ServerMessage::RawData(b) => ServerMessageModel::RawData(b@),
            ServerMessage::ModMessage(e, f, b) => ServerMessageModel::ModMessage(*e, *f, b@),
            ServerMessage::AddClientHandle(e, t) => ServerMessageModel::AddClientHandle(*e, *t),
            ServerMessage::RemoveClientHandle(e) => ServerMessageModel::RemoveClientHandle(*e),
        }
    }
}

/// Encoding of the answer to a login: tag 0 and the server's description, or
/// tag 1 and the reason of the refusal.
pub open spec fn wire_response(r: Result<ServerInfoModel, Seq<char>>) -> Seq<u8> {
    match r {
        Ok(info) => wire_u16(0) + ServerInfo::wire(info),
        Err(s) => wire_u16(1) + wire_str(s),
    }
}

pub open spec fn server_message_tag(m: ServerMessageModel) -> u16 {
    match m {
        ServerMessageModel::KeepAlive => 0,
        ServerMessageModel::Acknowledge(_) => 1,
        ServerMessageModel::Unregister(_) => 2,
        ServerMessageModel::RegisterResponse(_) => 3,
        ServerMessageModel::Kick(_) => 4,
        ServerMessageModel::Login(..) => 5,
        ServerMessageModel::Logout(..) => 6,
        ServerMessageModel::Ping(_) => 7,
        ServerMessageModel::Pong(_) => 8,
        ServerMessageModel::RawData(_) => 9,
        ServerMessageModel::ModMessage(..) => 10,
        ServerMessageModel::AddClientHandle(..) => 11,
        ServerMessageModel::RemoveClientHandle(_) => 12,
    }
}

pub open spec fn server_message_fields(m: ServerMessageModel) -> Seq<u8> {
    match m {
        ServerMessageModel::KeepAlive => Seq::empty(),
        ServerMessageModel::Acknowledge(i) => wire_u128(i),
        ServerMessageModel::Unregister(s) => wire_str(s),
        ServerMessageModel::RegisterResponse(r) => wire_response(r),
        ServerMessageModel::Kick(s) => wire_str(s),
        ServerMessageModel::Login(c, s) => wire_u128(c) + wire_str(s),
        ServerMessageModel::Logout(c, s) => wire_u128(c) + wire_str(s),
        ServerMessageModel::Ping(s) => wire_str(s),
        ServerMessageModel::Pong(s) => wire_str(s),
        ServerMessageModel::RawData(b) => wire_bytes(b),
        ServerMessageModel::ModMessage(e, f, b) => wire_u128(e) + wire_u128(f) + wire_bytes(b),
        ServerMessageModel::AddClientHandle(e, t) => wire_u128(e) + wire_u128(t),
        ServerMessageModel::RemoveClientHandle(e) => wire_u128(e),
    }
}

/// Reads an identifier followed by a string at `pos`.
fn get_id_str(b: &[u8], pos: usize) -> (r: Result<(Id, String, usize), DecodeError>)
    ensures
        match r {
            Ok((i, s, end)) => holds_at(b@, pos as int, wire_u128(i) + wire_str(s@)) && end == pos
                + (wire_u128(i) + wire_str(s@)).len(),
            Err(_) => forall|i: u128, s: Seq<char>|
                !#[trigger] holds_at(b@, pos as int, wire_u128(i) + wire_str(s)),
        },
        forall|i: u128, s: Seq<char>| #[trigger]
            holds_at(b@, pos as int, wire_u128(i) + wire_str(s)) ==> (r matches Ok((x, y, _)) && x
                == i && y@ == s),
{
    proof {
        lemma_wire_ints();
        assert forall|i: u128, s: Seq<char>| #[trigger]
            holds_at(b@, pos as int, wire_u128(i) + wire_str(s)) <==> holds_at(b@, pos as int, wire_u128(i))
                && holds_at(b@, pos + 16, wire_str(s)) by {
            lemma_holds_at_split(b@, pos as int, wire_u128(i), wire_str(s));
        }
    }
    let (i, pos1) = match get_u128(b, pos) {
        Ok(x) => x,
        Err(e) => {
            return Err(e);
        },
    };
    let (s, pos2) = match get_str(b, pos1) {
        Ok(x) => x,
        Err(e) => {
            return Err(e);
        },
    };
    Ok((i, s, pos2))
}

/// Reads two identifiers at `pos`.
fn get_two_ids(b: &[u8], pos: usize) -> (r: Result<(Id, Id, usize), DecodeError>)
    ensures
        match r {
            Ok((i, j, end)) => holds_at(b@, pos as int, wire_u128(i) + wire_u128(j)) && end == pos + 32,
            Err(_) => forall|i: u128, j: u128|
                !#[trigger] holds_at(b@, pos as int, wire_u128(i) + wire_u128(j)),
        },
        forall|i: u128, j: u128| #[trigger]
            holds_at(b@, pos as int, wire_u128(i) + wire_u128(j)) ==> (r matches Ok((x, y, _)) && x
                == i && y == j),
{
    proof {
        lemma_wire_ints();
        assert forall|i: u128, j: u128| #[trigger]
            holds_at(b@, pos as int, wire_u128(i) + wire_u128(j)) <==> holds_at(b@, pos as int, wire_u128(i))
                && holds_at(b@, pos + 16, wire_u128(j)) by {
            lemma_holds_at_split(b@, pos as int, wire_u128(i), wire_u128(j));
        }
    }
    let (i, pos1) = match get_u128(b, pos) {
        Ok(x) => x,
        Err(e) => {
            return Err(e);
        },
    };
    let (j, pos2) = match get_u128(b, pos1) {
        Ok(x) => x,
        Err(e) => {
            return Err(e);
        },
    };
    Ok((i, j, pos2))
}

pub open spec fn response_model(r: Result<ServerInfo, String>) -> Result<ServerInfoModel, Seq<char>> {
    match r {
        Ok(info) => Ok(info.deep_view()),
        Err(s) => Err(s@),
    }
}

pub proof fn lemma_response_unique(
    b: Seq<u8>,
    pos: int,
    r1: Result<ServerInfoModel, Seq<char>>,
    r2: Result<ServerInfoModel, Seq<char>>,
)
    requires
        b.len() <= u64::MAX,
        holds_at(b, pos, wire_response(r1)),
        holds_at(b, pos, wire_response(r2)),
    ensures
        r1 == r2,
{
    lemma_wire_ints();
    match r1 {
        Ok(i) => lemma_holds_at_split(b, pos, wire_u16(0), ServerInfo::wire(i)),
        Err(s) => lemma_holds_at_split(b, pos, wire_u16(1), wire_str(s)),
    }
    match r2 {
        Ok(i) => lemma_holds_at_split(b, pos, wire_u16(0), ServerInfo::wire(i)),
        Err(s) => lemma_holds_at_split(b, pos, wire_u16(1), wire_str(s)),
    }
    match (r1, r2) {
        (Ok(i), Ok(j)) => ServerInfo::lemma_wire_unique(b, pos + 2, i, j),
        (Err(x), Err(y)) => lemma_str_unique(b, pos + 2, x, y),
        (Ok(_), Err(_)) => lemma_u16_unique(b, pos, 0, 1),
        (Err(_), Ok(_)) => lemma_u16_unique(b, pos, 1, 0),
    }
}

/// Reads the answer to a login at `pos`.
fn get_response(b: &[u8], pos: usize) -> (r: Result<(Result<ServerInfo, String>, usize), DecodeError>)
    ensures
        match r {
            Ok((x, end)) => holds_at(b@, pos as int, wire_response(response_model(x))) && end == pos
                + wire_response(response_model(x)).len(),
            Err(_) => forall|v: Result<ServerInfoModel, Seq<char>>|
                !#[trigger] holds_at(b@, pos as int, wire_response(v)),
        },
        forall|v: Result<ServerInfoModel, Seq<char>>| #[trigger]
            holds_at(b@, pos as int, wire_response(v)) ==> (r matches Ok((x, _)) && response_model(x)
                == v),
{
    proof {
        lemma_wire_ints();
        assert forall|v: Result<ServerInfoModel, Seq<char>>| #[trigger]
            holds_at(b@, pos as int, wire_response(v)) <==> match v {
                Ok(info) => holds_at(b@, pos as int, wire_u16(0)) && holds_at(b@, pos + 2, ServerInfo::wire(info)),
                Err(s) => holds_at(b@, pos as int, wire_u16(1)) && holds_at(b@, pos + 2, wire_str(s)),
            } by {
            match v {
                Ok(info) => lemma_holds_at_split(b@, pos as int, wire_u16(0), ServerInfo::wire(info)),
                Err(s) => lemma_holds_at_split(b@, pos as int, wire_u16(1), wire_str(s)),
            }
        }
    }
    let (tag, pos1) = match get_u16(b, pos) {
        Ok(x) => x,
        Err(e) => {
            return Err(e);
        },
    };
    if tag == 0 {
        match ServerInfo::get(b, pos1) {
            Ok((info, end)) => {
                assert(response_model(Ok(info)) == Ok::<ServerInfoModel, Seq<char>>(info.deep_view()));
                Ok((Ok(info), end))
            },
            Err(e) => Err(e),
        }
    } else if tag == 1 {
        match get_str(b, pos1) {
            Ok((s, end)) => {
                assert(response_model(Err(s)) == Err::<ServerInfoModel, Seq<char>>(s@));
                Ok((Err(s), end))
            },
            Err(e) => Err(e),
        }
    } else {
        Err(DecodeError::InvalidTag(tag))
    }
}

impl Wire for ServerMessage {
    open spec fn wire(v: ServerMessageModel) -> Seq<u8> {
        wire_u16(server_message_tag(v)) + server_message_fields(v)
    }

    proof fn lemma_wire_nonempty(v: ServerMessageModel) {
        lemma_wire_ints();
    }

    proof fn lemma_wire_unique(b: Seq<u8>, pos: int, v1: ServerMessageModel, v2: ServerMessageModel) {
        lemma_wire_ints();
        lemma_holds_at_split(b, pos, wire_u16(server_message_tag(v1)), server_message_fields(v1));
        lemma_holds_at_split(b, pos, wire_u16(server_message_tag(v2)), server_message_fields(v2));
        lemma_u16_unique(b, pos, server_message_tag(v1), server_message_tag(v2));
        let p = pos + 2;
        match (v1, v2) {
            (ServerMessageModel::Acknowledge(x), ServerMessageModel::Acknowledge(y)) => lemma_u128_unique(b, p, x, y),
            (ServerMessageModel::Unregister(x), ServerMessageModel::Unregister(y)) => lemma_str_unique(b, p, x, y),
            (ServerMessageModel::RegisterResponse(x), ServerMessageModel::RegisterResponse(y)) =>
                lemma_response_unique(b, p, x, y),
            (ServerMessageModel::Kick(x), ServerMessageModel::Kick(y)) => lemma_str_unique(b, p, x, y),
            (ServerMessageModel::Login(i, x), ServerMessageModel::Login(j, y)) => lemma_id_str_unique(b, p, i, x, j, y),
            (ServerMessageModel::Logout(i, x), ServerMessageModel::Logout(j, y)) => lemma_id_str_unique(b, p, i, x, j, y),
            (ServerMessageModel::Ping(x), ServerMessageModel::Ping(y)) => lemma_str_unique(b, p, x, y),
            (ServerMessageModel::Pong(x), ServerMessageModel::Pong(y)) => lemma_str_unique(b, p, x, y),
            (ServerMessageModel::RawData(x), ServerMessageModel::RawData(y)) => lemma_bytes_unique(b, p, x, y),
            (ServerMessageModel::ModMessage(e1, f1, d1), ServerMessageModel::ModMessage(e2, f2, d2)) =>
                lemma_mod_message_unique(b, p, e1, f1, d1, e2, f2, d2),
            (ServerMessageModel::AddClientHandle(e1, t1), ServerMessageModel::AddClientHandle(e2, t2)) =>
                lemma_two_ids_unique(b, p, e1, t1, e2, t2),
            (ServerMessageModel::RemoveClientHandle(x), ServerMessageModel::RemoveClientHandle(y)) =>
                lemma_u128_unique(b, p, x, y),
            _ => {},
        }
    }

    fn put(&self, out: &mut Vec<u8>) {
        proof {
            lemma_wire_ints();
        }
        match self {
            ServerMessage::KeepAlive => {
                put_u16(out, 0);
            },
            ServerMessage::Acknowledge(i) => {
                put_u16(out, 1);
                put_u128(out, *i);
            },
            ServerMessage::Unregister(s) => {
                put_u16(out, 2);
                put_str(out, s.as_str());
            },
            ServerMessage::RegisterResponse(r) => {
                put_u16(out, 3);
                match r {
                    Ok(info) => {
                        put_u16(out, 0);
                        info.put(out);
                    },
                    Err(s) => {
                        put_u16(out, 1);
                        put_str(out, s.as_str());
                    },
                }
            },
            ServerMessage::Kick(s) => {
                put_u16(out, 4);
                put_str(out, s.as_str());
            },
            ServerMessage::Login(c, s) => {
                put_u16(out, 5);
                put_u128(out, *c);
                put_str(out, s.as_str());
            },
            ServerMessage::Logout(c, s) => {
                put_u16(out, 6);
                put_u128(out, *c);
                put_str(out, s.as_str());
            },
            ServerMessage::Ping(s) => {
                put_u16(out, 7);
                put_str(out, s.as_str());
            },
            ServerMessage::Pong(s) => {
                put_u16(out, 8);
                put_str(out, s.as_str());
            },
            ServerMessage::RawData(d) => {
                put_u16(out, 9);
                put_bytes(out, d.as_slice());
            },
            ServerMessage::ModMessage(e, f, d) => {
                put_u16(out, 10);
                put_u128(out, *e);
                put_u128(out, *f);
                put_bytes(out, d.as_slice());
            },
            ServerMessage::AddClientHandle(e, t) => {
                put_u16(out, 11);
                put_u128(out, *e);
                put_u128(out, *t);
            },
            ServerMessage::RemoveClientHandle(e) => {
                put_u16(out, 12);
                put_u128(out, *e);
            },
        }
        assert(final(out)@ =~= old(out)@ + Self::wire(self.deep_view()));
    }

    #[verifier::rlimit(40)]
    fn get(b: &[u8], pos: usize) -> (r: Result<(ServerMessage, usize), DecodeError>) {
        proof {
            lemma_wire_ints();
        }
        let (tag, start) = match get_u16(b, pos) {
            Ok(x) => x,
            Err(e) => {
                proof {
                    assert forall|v: ServerMessageModel| !#[trigger] holds_at(b@, pos as int, Self::wire(v)) by {
                        lemma_holds_at_split(b@, pos as int, wire_u16(server_message_tag(v)), server_message_fields(v));
                    }
                }
                return Err(e);
            },
        };
        proof {
            assert forall|v: ServerMessageModel| #[trigger] holds_at(b@, pos as int, Self::wire(v)) implies
                server_message_tag(v) == tag && holds_at(b@, start as int, server_message_fields(v)) by {
                lemma_holds_at_split(b@, pos as int, wire_u16(server_message_tag(v)), server_message_fields(v));
            }
            assert forall|v: ServerMessageModel| holds_at(b@, start as int, #[trigger] server_message_fields(v))
                && server_message_tag(v) == tag implies holds_at(b@, pos as int, Self::wire(v)) by {
                lemma_holds_at_split(b@, pos as int, wire_u16(server_message_tag(v)), server_message_fields(v));
            }
            assert(b@.subrange(start as int, start as int) =~= Seq::<u8>::empty());
        }
        if tag == 0 {
            assert(holds_at(b@, pos as int, Self::wire(ServerMessageModel::KeepAlive)));
            Ok((ServerMessage::KeepAlive, start))
        } else if tag == 1 || tag == 12 {
            match get_u128(b, start) {
                Ok((i, end)) => {
                    if tag == 1 {
                        assert(holds_at(b@, pos as int, Self::wire(ServerMessageModel::Acknowledge(i))));
                        Ok((ServerMessage::Acknowledge(i), end))
                    } else {
                        assert(holds_at(b@, pos as int, Self::wire(ServerMessageModel::RemoveClientHandle(i))));
                        Ok((ServerMessage::RemoveClientHandle(i), end))
                    }
                },
                Err(e) => Err(e),
            }
        } else if tag == 2 || tag == 4 || tag == 7 || tag == 8 {
            match get_str(b, start) {
                Ok((s, end)) => {
                    if tag == 2 {
                        assert(holds_at(b@, pos as int, Self::wire(ServerMessageModel::Unregister(s@))));
                        Ok((ServerMessage::Unregister(s), end))
                    } else if tag == 4 {
                        assert(holds_at(b@, pos as int, Self::wire(ServerMessageModel::Kick(s@))));
                        Ok((ServerMessage::Kick(s), end))
                    } else if tag == 7 {
                        assert(holds_at(b@, pos as int, Self::wire(ServerMessageModel::Ping(s@))));
                        Ok((ServerMessage::Ping(s), end))
                    } else {
                        assert(holds_at(b@, pos as int, Self::wire(ServerMessageModel::Pong(s@))));
                        Ok((ServerMessage::Pong(s), end))
                    }
                },
                Err(e) => Err(e),
            }
        } else if tag == 3 {
            match get_response(b, start) {
                Ok((x, end)) => {
                    let ghost m = response_model(x);
                    assert(holds_at(b@, pos as int, Self::wire(ServerMessageModel::RegisterResponse(m))));
                    Ok((ServerMessage::RegisterResponse(x), end))
                },
                Err(e) => Err(e),
            }
        } else if tag == 5 || tag == 6 {
            match get_id_str(b, start) {
                Ok((c, s, end)) => {
                    if tag == 5 {
                        assert(holds_at(b@, pos as int, Self::wire(ServerMessageModel::Login(c, s@))));
                        Ok((ServerMessage::Login(c, s), end))
                    } else {
                        assert(holds_at(b@, pos as int, Self::wire(ServerMessageModel::Logout(c, s@))));
                        Ok((ServerMessage::Logout(c, s), end))
                    }
                },
                Err(e) => Err(e),
            }
        } else if tag == 9 {
            match get_bytes(b, start) {
                Ok((d, end)) => {
                    assert(holds_at(b@, pos as int, Self::wire(ServerMessageModel::RawData(d@))));
                    Ok((ServerMessage::RawData(d), end))
                },
                Err(e) => Err(e),
            }
        } else if tag == 10 {
            match get_mod_message(b, start) {
                Ok((e, f, d, end)) => {
                    assert(holds_at(b@, pos as int, Self::wire(ServerMessageModel::ModMessage(e, f, d@))));
                    Ok((ServerMessage::ModMessage(e, f, d), end))
                },
                Err(err) => Err(err),
            }
        } else if tag == 11 {
            match get_two_ids(b, start) {
                Ok((e, t, end)) => {
                    assert(holds_at(b@, pos as int, Self::wire(ServerMessageModel::AddClientHandle(e, t))));
                    Ok((ServerMessage::AddClientHandle(e, t), end))
                },
                Err(err) => Err(err),
            }
        } else {
            Err(DecodeError::InvalidTag(tag))
        }
    }
}

/// A server's packet: the conversation it belongs to, and the message.
#[derive(Debug, PartialEq, Eq)]
pub struct ServerPacket {
    pub conv_id: Id,
    pub message: ServerMessage,
}

/// The model of a `ServerPacket`.
pub struct ServerPacketModel {
    pub conv_id: Id,
    pub message: ServerMessageModel,
}

impl DeepView for ServerPacket {
    type V = ServerPacketModel;

    open spec fn deep_view(&self) -> ServerPacketModel {
        ServerPacketModel { conv_id: self.conv_id, message: self.message.deep_view() }
    }
}

impl Wire for ServerPacket {
    open spec fn wire(v: ServerPacketModel) -> Seq<u8> {
        wire_u128(v.conv_id) + ServerMessage::wire(v.message)
    }

    proof fn lemma_wire_nonempty(v: ServerPacketModel) {
        lemma_wire_ints();
    }

    proof fn lemma_wire_unique(b: Seq<u8>, pos: int, v1: ServerPacketModel, v2: ServerPacketModel) {
        lemma_wire_ints();
        lemma_holds_at_split(b, pos, wire_u128(v1.conv_id), ServerMessage::wire(v1.message));
        lemma_holds_at_split(b, pos, wire_u128(v2.conv_id), ServerMessage::wire(v2.message));
        lemma_u128_unique(b, pos, v1.conv_id, v2.conv_id);
        ServerMessage::lemma_wire_unique(b, pos + 16, v1.message, v2.message);
    }

    fn put(&self, out: &mut Vec<u8>) {
        put_u128(out, self.conv_id);
        self.message.put(out);
        assert(final(out)@ =~= old(out)@ + Self::wire(self.deep_view()));
    }

    fn get(b: &[u8], pos: usize) -> (r: Result<(ServerPacket, usize), DecodeError>) {
        proof {
            lemma_wire_ints();
            assert forall|v: ServerPacketModel| #[trigger] holds_at(b@, pos as int, Self::wire(v)) <==> {
                &&& holds_at(b@, pos as int, wire_u128(v.conv_id))
                &&& holds_at(b@, pos + 16, ServerMessage::wire(v.message))
            } by {
                lemma_holds_at_split(b@, pos as int, wire_u128(v.conv_id), ServerMessage::wire(v.message));
            }
        }
        let (conv_id, pos1) = match get_u128(b, pos) {
            Ok(x) => x,
            Err(e) => {
                return Err(e);
            },
        };
        let (message, pos2) = match ServerMessage::get(b, pos1) {
            Ok(x) => x,
            Err(e) => {
                return Err(e);
            },
        };
        Ok((ServerPacket { conv_id, message }, pos2))
    }
}

/// Every client packet and every server packet decodes from its encoding to
/// itself.
pub proof fn lemma_packet_round_trip(c: ClientPacketModel, s: ServerPacketModel)
    requires
        ClientPacket::wire(c).len() <= u64::MAX,
        ServerPacket::wire(s).len() <= u64::MAX,
    ensures
        decoded::<ClientPacket>(ClientPacket::wire(c)) == Some(c),
        decoded::<ServerPacket>(ServerPacket::wire(s)) == Some(s),
{
    lemma_round_trip::<ClientPacket>(c);
    lemma_round_trip::<ServerPacket>(s);
}

} // verus!
