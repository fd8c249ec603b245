use aeonetica::codec::{decode, encode};
use aeonetica::framing::FrameReader;
use aeonetica::messaging::{Delivery, Messenger, RoutingError};
use aeonetica::packets::{ClientMessage, ClientPacket, ServerMessage, ServerPacket};
use aeonetica::transport::{NetworkServer, Outgoing, SendError, SendMode};

const HANDLE: u128 = 0xaaaa;
const ENTITY: u128 = 0xe1;
const GREET: u128 = 0x6001;

fn server_with(ids: &[u128]) -> NetworkServer<u32> {
    let mut ns = NetworkServer::new();
    for (i, id) in ids.iter().enumerate() {
        ns.receive(i as u32 + 100, &ClientPacket { client_id: *id, conv_id: 0, message: ClientMessage::Login }, 0);
    }
    ns
}

fn messenger() -> Messenger<&'static str> {
    let mut m = Messenger::new(HANDLE);
    m.start(ENTITY);
    m
}

fn stream_packet(d: &Delivery<u32>) -> ServerPacket {
    match &d.result {
        Ok((_, Outgoing::Stream(bytes))) => {
            let mut reader = FrameReader::new();
            let frames = reader.feed(bytes);
            assert_eq!(frames.len(), 1);
            decode::<ServerPacket>(&frames[0]).unwrap()
        }
        other => panic!("expected a stream delivery, got {:?}", other),
    }
}

#[test]
fn new_messenger_is_idle() {
    let m = messenger();
    assert_eq!(m.entity_id(), ENTITY);
    assert_eq!(m.handle_type(), HANDLE);
    assert!(m.clients().is_empty());
    assert_eq!(m.receiver(GREET), Err(RoutingError::UnknownFunction(GREET)));
}

#[test]
fn add_client_twice_subscribes_and_notifies_once() {
    let ns = server_with(&[1]);
    let mut m = messenger();
    let mut outbox = vec![];
    assert!(m.add_client(&ns, 1, &mut outbox));
    assert!(!m.add_client(&ns, 1, &mut outbox));
    assert_eq!(m.clients(), vec![1]);
    assert_eq!(outbox.len(), 1);
    assert_eq!(outbox[0].client, 1);
    let p = stream_packet(&outbox[0]);
    assert_eq!(p.conv_id, outbox[0].conv_id);
    assert_eq!(p.message, ServerMessage::AddClientHandle(ENTITY, HANDLE));
}

#[test]
fn unknown_client_is_not_subscribed() {
    let ns = server_with(&[]);
    let mut m = messenger();
    let mut outbox = vec![];
    assert!(!m.add_client(&ns, 5, &mut outbox));
    assert!(!m.has_client(&5));
    assert!(outbox.is_empty());
}

#[test]
fn remove_client_unsubscribes_and_notifies() {
    let ns = server_with(&[1, 2]);
    let mut m = messenger();
    let mut outbox = vec![];
    m.add_client(&ns, 1, &mut outbox);
    m.add_client(&ns, 2, &mut outbox);
    outbox.clear();
    assert!(m.remove_client(&ns, &1, &mut outbox));
    assert!(!m.remove_client(&ns, &1, &mut outbox));
    assert_eq!(m.clients(), vec![2]);
    assert_eq!(outbox.len(), 1);
    assert_eq!(stream_packet(&outbox[0]).message, ServerMessage::RemoveClientHandle(ENTITY));
}

#[test]
fn call_client_fn_fans_out_to_every_subscriber() {
    let ns = server_with(&[1, 2, 3]);
    let mut m = messenger();
    let mut outbox = vec![];
    for id in [1, 2, 3] {
        m.add_client(&ns, id, &mut outbox);
    }
    outbox.clear();
    m.call_client_fn(&ns, GREET, &"hello".to_string(), SendMode::Safe, &mut outbox);
    assert_eq!(outbox.len(), 3);
    let clients: Vec<u128> = outbox.iter().map(|d| d.client).collect();
    assert_eq!(clients, vec![1, 2, 3]);
    for d in &outbox {
        assert_eq!(
            stream_packet(d).message,
            ServerMessage::ModMessage(ENTITY, GREET, encode(&"hello".to_string()))
        );
    }
}

#[test]
fn call_with_no_subscribers_sends_nothing() {
    let ns = server_with(&[1]);
    let m = messenger();
    let mut outbox = vec![];
    m.call_client_fn(&ns, GREET, &7u64, SendMode::Quick, &mut outbox);
    assert!(outbox.is_empty());
}

#[test]
fn disconnected_subscriber_gets_a_failed_delivery() {
    let mut ns = server_with(&[1, 2]);
    let mut m = messenger();
    let mut outbox = vec![];
    m.add_client(&ns, 1, &mut outbox);
    m.add_client(&ns, 2, &mut outbox);
    outbox.clear();
    ns.remove_client(&1);
    m.call_client_fn(&ns, GREET, &1u64, SendMode::Quick, &mut outbox);
    assert_eq!(outbox.len(), 2);
    assert_eq!(outbox[0].result.as_ref().unwrap_err(), &SendError::UnknownClient(1));
    assert!(outbox[1].result.is_ok());
}

#[test]
fn call_client_fn_for_reaches_one_client_subscribed_or_not() {
    let ns = server_with(&[8]);
    let m = messenger();
    let mut outbox = vec![];
    m.call_client_fn_for(&ns, GREET, &8, &vec![1u8, 2], SendMode::Quick, &mut outbox);
    assert_eq!(outbox.len(), 1);
    match &outbox[0].result {
        Ok((addr, Outgoing::Datagram(bytes))) => {
            assert_eq!(*addr, 100);
            let p = decode::<ServerPacket>(bytes).unwrap();
            assert_eq!(p.message, ServerMessage::ModMessage(ENTITY, GREET, encode(&vec![1u8, 2])));
        }
        other => panic!("unexpected {:?}", other),
    }
}

#[test]
fn oversize_quick_call_is_refused_per_client() {
    let ns = server_with(&[1]);
    let mut m = messenger();
    let mut outbox = vec![];
    m.add_client(&ns, 1, &mut outbox);
    outbox.clear();
    m.call_client_fn(&ns, GREET, &vec![0u8; 2000], SendMode::Quick, &mut outbox);
    assert!(matches!(outbox[0].result, Err(SendError::TooLarge(_))));
}

#[test]
fn receivers_register_and_unregister() {
    let mut m = messenger();
    m.register_receiver(GREET, "greet");
    assert_eq!(m.receiver(GREET), Ok(&"greet"));
    m.register_receiver(GREET, "greet2");
    assert_eq!(m.receiver(GREET), Ok(&"greet2"));
    m.unregister_receiver(GREET);
    assert_eq!(m.receiver(GREET), Err(RoutingError::UnknownFunction(GREET)));
}
