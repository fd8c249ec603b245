use aeonetica::chunk::Population;
use aeonetica::codec::{decode, encode, DecodeError};
use aeonetica::packets::{ClientMessage, ClientPacket, ServerInfo, ServerMessage, ServerPacket};
use nanoserde::SerBin;

fn client_round_trip(message: ClientMessage) {
    let p = ClientPacket { client_id: 0x1122_3344_5566_7788_99aa_bbcc_ddee_ff00, conv_id: 42, message };
    let bytes = encode(&p);
    assert_eq!(decode::<ClientPacket>(&bytes), Ok(p));
}

fn server_round_trip(make: fn() -> ServerMessage) {
    let p = ServerPacket { conv_id: 7, message: make() };
    let bytes = encode(&p);
    assert_eq!(decode::<ServerPacket>(&bytes), Ok(ServerPacket { conv_id: 7, message: make() }));
}

fn sample_info() -> ServerInfo {
    ServerInfo {
        server_version: "0.1.0".to_string(),
        mod_profile: "default".to_string(),
        mod_version: "1".to_string(),
        mods: vec![
            ("world".to_string(), vec!["server".to_string(), "client".to_string()], "abc123".to_string(), 4096),
            ("worms".to_string(), vec![], "ff".to_string(), 0),
        ],
    }
}

#[test]
fn every_client_message_round_trips() {
    client_round_trip(ClientMessage::Login);
    client_round_trip(ClientMessage::Logout);
    client_round_trip(ClientMessage::Ping("ping".to_string()));
    client_round_trip(ClientMessage::Pong("pöng ✓".to_string()));
    client_round_trip(ClientMessage::RawData(vec![0, 1, 2, 255]));
    client_round_trip(ClientMessage::RawData(vec![]));
    client_round_trip(ClientMessage::ModMessage(5, 6, vec![9, 8, 7]));
}

#[test]
fn every_server_message_round_trips() {
    server_round_trip(|| ServerMessage::KeepAlive);
    server_round_trip(|| ServerMessage::Acknowledge(u128::MAX));
    server_round_trip(|| ServerMessage::Unregister("bye".to_string()));
    server_round_trip(|| ServerMessage::RegisterResponse(Ok(sample_info())));
    server_round_trip(|| ServerMessage::RegisterResponse(Err("full".to_string())));
    server_round_trip(|| ServerMessage::Kick("cheating".to_string()));
    server_round_trip(|| ServerMessage::Login(3, "alice".to_string()));
    server_round_trip(|| ServerMessage::Logout(3, "alice".to_string()));
    server_round_trip(|| ServerMessage::Ping(String::new()));
    server_round_trip(|| ServerMessage::Pong("x".to_string()));
    server_round_trip(|| ServerMessage::RawData(vec![1; 300]));
    server_round_trip(|| ServerMessage::ModMessage(1, 2, vec![3]));
    server_round_trip(|| ServerMessage::AddClientHandle(10, 20));
    server_round_trip(|| ServerMessage::RemoveClientHandle(10));
}

#[test]
fn login_packet_has_exact_bytes() {
    let p = ClientPacket { client_id: 1, conv_id: 2, message: ClientMessage::Login };
    let mut expected = vec![0u8; 34];
    expected[0] = 1;
    expected[16] = 2;
    assert_eq!(encode(&p), expected);
}

#[test]
fn ping_message_has_exact_bytes() {
    let bytes = encode(&ClientMessage::Ping("hi".to_string()));
    assert_eq!(bytes, vec![2, 0, 2, 0, 0, 0, 0, 0, 0, 0, b'h', b'i']);
}

#[test]
fn primitive_encodings_match_nanoserde() {
    let s = "héllo".to_string();
    assert_eq!(encode(&s), s.serialize_bin());
    assert_eq!(encode(&0xdead_beef_u32), 0xdead_beef_u32.serialize_bin());
    assert_eq!(encode(&u64::MAX), u64::MAX.serialize_bin());
    assert_eq!(encode(&12345u128), 12345u128.serialize_bin());
    let v: Vec<String> = vec!["a".to_string(), "bc".to_string()];
    assert_eq!(encode(&v), v.serialize_bin());
    assert_eq!(encode(&vec![1u8, 2, 3]), vec![1u8, 2, 3].serialize_bin());
}

#[test]
fn non_ascii_string_decodes_to_itself() {
    let s = "Grüße, 世界".to_string();
    assert_eq!(decode::<String>(&encode(&s)), Ok(s));
}

#[test]
fn truncated_input_is_unexpected_end() {
    let p = ClientPacket { client_id: 1, conv_id: 2, message: ClientMessage::Ping("hello".to_string()) };
    let bytes = encode(&p);
    for cut in 0..bytes.len() {
        assert_eq!(decode::<ClientPacket>(&bytes[..cut]), Err(DecodeError::UnexpectedEnd));
    }
}

#[test]
fn unknown_variant_tag_is_refused() {
    let mut bytes = vec![0u8; 32];
    bytes.extend_from_slice(&[6, 0]);
    assert_eq!(decode::<ClientPacket>(&bytes), Err(DecodeError::InvalidTag(6)));
    let mut bytes = vec![0u8; 16];
    bytes.extend_from_slice(&[13, 0]);
    assert_eq!(decode::<ServerPacket>(&bytes), Err(DecodeError::InvalidTag(13)));
}

#[test]
fn invalid_utf8_is_refused() {
    let bytes = vec![2, 0, 0, 0, 0, 0, 0, 0, 0xff, 0xfe];
    assert_eq!(decode::<String>(&bytes), Err(DecodeError::InvalidUtf8));
}

#[test]
fn trailing_bytes_are_refused() {
    let mut bytes = encode(&ClientMessage::Login);
    bytes.push(0);
    assert_eq!(decode::<ClientMessage>(&bytes), Err(DecodeError::TrailingBytes));
}

#[test]
fn empty_input_is_unexpected_end() {
    assert_eq!(decode::<ServerPacket>(&[]), Err(DecodeError::UnexpectedEnd));
}

#[test]
fn population_is_one_byte() {
    assert_eq!(encode(&Population::Uninit), vec![0]);
    assert_eq!(encode(&Population::Finished), vec![5]);
    assert_eq!(decode::<Population>(&[3]), Ok(Population::TerrainWatered));
    assert_eq!(decode::<Population>(&[6]), Err(DecodeError::InvalidTag(6)));
}
