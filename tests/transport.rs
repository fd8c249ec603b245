use aeonetica::codec::{encode, DecodeError};
use aeonetica::framing::{frame, FrameReader};
use aeonetica::packets::{ClientMessage, ClientPacket, ServerMessage, ServerPacket};
use aeonetica::transport::{
    encode_for_send, prepare_send, receive_datagram, receive_stream, Inbox, NetworkServer, Outgoing, SendError,
    SendMode, MAX_PACKET_SIZE,
};

#[test]
fn oversize_quick_payload_is_refused() {
    let r = prepare_send(vec![0u8; MAX_PACKET_SIZE + 1], SendMode::Quick);
    assert_eq!(r, Err(SendError::TooLarge(MAX_PACKET_SIZE + 1)));
}

#[test]
fn quick_payload_at_the_limit_is_one_datagram() {
    let r = prepare_send(vec![1u8; MAX_PACKET_SIZE], SendMode::Quick);
    assert_eq!(r, Ok(Outgoing::Datagram(vec![1u8; MAX_PACKET_SIZE])));
}

#[test]
fn safe_payload_is_framed_whatever_its_size() {
    let r = prepare_send(vec![3u8; MAX_PACKET_SIZE + 1], SendMode::Safe);
    assert_eq!(r, Ok(Outgoing::Stream(frame(&vec![3u8; MAX_PACKET_SIZE + 1]))));
    assert_eq!(prepare_send(vec![9], SendMode::Safe), Ok(Outgoing::Stream(vec![1, 0, 0, 0, 9])));
}

#[test]
fn encode_for_send_encodes_the_packet() {
    let p = ServerPacket { conv_id: 1, message: ServerMessage::KeepAlive };
    assert_eq!(encode_for_send(&p, SendMode::Quick), Ok(Outgoing::Datagram(encode(&p))));
}

#[test]
fn inbox_drains_in_arrival_order_and_empties() {
    let mut inbox = Inbox::new();
    inbox.push(1);
    inbox.push(2);
    inbox.push(3);
    assert_eq!(inbox.len(), 3);
    assert_eq!(inbox.drain(), vec![1, 2, 3]);
    assert_eq!(inbox.len(), 0);
    assert_eq!(inbox.drain(), Vec::<i32>::new());
}

#[test]
fn datagram_that_decodes_is_queued() {
    let p = ServerPacket { conv_id: 5, message: ServerMessage::Pong("p".to_string()) };
    let mut inbox: Inbox<ServerPacket> = Inbox::new();
    assert_eq!(receive_datagram(&encode(&p), &mut inbox), Ok(()));
    assert_eq!(inbox.drain(), vec![p]);
}

#[test]
fn bad_datagram_is_dropped() {
    let mut inbox: Inbox<ServerPacket> = Inbox::new();
    assert_eq!(receive_datagram(&[1, 2, 3], &mut inbox), Err(DecodeError::UnexpectedEnd));
    assert_eq!(inbox.len(), 0);
}

#[test]
fn stream_chunks_queue_packets_in_order() {
    let a = ServerPacket { conv_id: 1, message: ServerMessage::KeepAlive };
    let b = ServerPacket { conv_id: 2, message: ServerMessage::Acknowledge(9) };
    let mut s = frame(&encode(&a));
    s.extend(frame(&encode(&b)));
    let mut reader = FrameReader::new();
    let mut inbox: Inbox<ServerPacket> = Inbox::new();
    assert_eq!(receive_stream(&mut reader, &s[..5], &mut inbox), Ok(()));
    assert_eq!(inbox.len(), 0);
    assert_eq!(receive_stream(&mut reader, &s[5..], &mut inbox), Ok(()));
    assert_eq!(
        inbox.drain(),
        vec![
            ServerPacket { conv_id: 1, message: ServerMessage::KeepAlive },
            ServerPacket { conv_id: 2, message: ServerMessage::Acknowledge(9) }
        ]
    );
}

#[test]
fn undecodable_frame_fails_the_stream() {
    let good = ServerPacket { conv_id: 1, message: ServerMessage::KeepAlive };
    let mut s = frame(&encode(&good));
    s.extend(frame(&[0xff]));
    let mut reader = FrameReader::new();
    let mut inbox: Inbox<ServerPacket> = Inbox::new();
    assert_eq!(receive_stream(&mut reader, &s, &mut inbox), Err(DecodeError::UnexpectedEnd));
    assert_eq!(inbox.drain(), vec![good]);
}

fn login(id: u128) -> ClientPacket {
    ClientPacket { client_id: id, conv_id: 0, message: ClientMessage::Login }
}

#[test]
fn server_records_login_and_forgets_logout() {
    let mut ns: NetworkServer<u32> = NetworkServer::new();
    ns.receive(77, &login(1), 100);
    assert!(ns.has_client(&1));
    let rec = ns.client(&1).unwrap();
    assert_eq!((rec.client_addr, rec.last_seen), (77, 100));
    ns.receive(78, &ClientPacket { client_id: 1, conv_id: 0, message: ClientMessage::Ping("x".to_string()) }, 150);
    let rec = ns.client(&1).unwrap();
    assert_eq!((rec.client_addr, rec.last_seen), (77, 150));
    ns.receive(77, &ClientPacket { client_id: 1, conv_id: 0, message: ClientMessage::Logout }, 200);
    assert!(!ns.has_client(&1));
}

#[test]
fn packets_from_unknown_clients_change_nothing() {
    let mut ns: NetworkServer<u32> = NetworkServer::new();
    ns.receive(1, &ClientPacket { client_id: 9, conv_id: 0, message: ClientMessage::Ping("x".to_string()) }, 5);
    assert!(!ns.has_client(&9));
    assert!(ns.client(&9).is_none());
}

#[test]
fn send_to_unknown_client_is_refused() {
    let ns: NetworkServer<u32> = NetworkServer::new();
    let p = ServerPacket { conv_id: 1, message: ServerMessage::KeepAlive };
    assert_eq!(ns.send(&4, &p, SendMode::Safe).unwrap_err(), SendError::UnknownClient(4));
}

#[test]
fn send_to_known_client_gives_its_address() {
    let mut ns: NetworkServer<u32> = NetworkServer::new();
    ns.receive(55, &login(4), 0);
    let p = ServerPacket { conv_id: 1, message: ServerMessage::KeepAlive };
    let (addr, out) = ns.send(&4, &p, SendMode::Safe).unwrap();
    assert_eq!(addr, 55);
    assert_eq!(out, Outgoing::Stream(frame(&encode(&p))));
    assert!(ns.remove_client(&4));
    assert!(!ns.remove_client(&4));
}
