use aeonetica::client::{ClientEvent, ClientMessenger};
use aeonetica::codec::{decode, encode};
use aeonetica::ecs::{Entity, World};
use aeonetica::framing::FrameReader;
use aeonetica::messaging::Messenger;
use aeonetica::packets::{ClientMessage, ClientPacket, ServerMessage, ServerPacket};
use aeonetica::transport::{receive_stream, Inbox, NetworkServer, Outgoing, SendMode};

const C1: u128 = 0xc1;
const E1: u128 = 0xe1;
const HANDLE_TYPE: u128 = 0x4a;
const H: u128 = 0x48;

#[test]
fn login_subscribe_and_call_reach_the_client() {
    // The client logs in over the reliable channel.
    let login = ClientPacket { client_id: C1, conv_id: 1, message: ClientMessage::Login };
    let bytes = match aeonetica::transport::encode_for_send(&login, SendMode::Safe).unwrap() {
        Outgoing::Stream(b) => b,
        other => panic!("unexpected {:?}", other),
    };
    let mut server_reader = FrameReader::new();
    let mut server_inbox = Inbox::new();
    receive_stream(&mut server_reader, &bytes, &mut server_inbox).unwrap();
    let mut ns: NetworkServer<u32> = NetworkServer::new();
    for p in server_inbox.drain() {
        ns.receive(4000, &p, 10);
    }
    assert!(ns.has_client(&C1));

    // The server entity E1 has a messenger with a receiver registered.
    let mut world: World<(), u8> = World::new();
    let mut entity = Entity::new(E1);
    let mut messenger = Messenger::new(HANDLE_TYPE);
    messenger.register_receiver(H, 1u8);
    entity.add_messenger(messenger);
    world.add_entity(entity);

    let mut outbox = vec![];
    let m = world.mut_entity(&E1).unwrap().messenger_mut().unwrap();
    assert!(m.add_client(&ns, C1, &mut outbox));
    m.call_client_fn(&ns, H, &"hello".to_string(), SendMode::Safe, &mut outbox);
    assert_eq!(outbox.len(), 2);

    // Everything travels to C1 over its reliable stream.
    let mut stream = vec![];
    for d in &outbox {
        assert_eq!(d.client, C1);
        match &d.result {
            Ok((addr, Outgoing::Stream(b))) => {
                assert_eq!(*addr, 4000);
                stream.extend_from_slice(b);
            }
            other => panic!("unexpected {:?}", other),
        }
    }
    let mut client_reader = FrameReader::new();
    let mut client_inbox: Inbox<ServerPacket> = Inbox::new();
    for chunk in stream.chunks(3) {
        receive_stream(&mut client_reader, chunk, &mut client_inbox).unwrap();
    }
    let received = client_inbox.drain();
    assert_eq!(received.len(), 2);
    assert_eq!(received[0].message, ServerMessage::AddClientHandle(E1, HANDLE_TYPE));
    assert_eq!(received[1].message, ServerMessage::ModMessage(E1, H, encode(&"hello".to_string())));

    let mut client = ClientMessenger::new();
    let mut events = vec![];
    for p in received {
        events.push(client.receive(p.message));
    }
    assert!(matches!(events[0], ClientEvent::CreateHandle(E1, HANDLE_TYPE)));
    match &events[1] {
        ClientEvent::Call(e, f, payload) => {
            assert_eq!((*e, *f), (E1, H));
            assert_eq!(decode::<String>(payload).unwrap(), "hello");
        }
        other => panic!("unexpected {:?}", other),
    }
}
