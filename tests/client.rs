use aeonetica::client::{ClientEvent, ClientMessenger};
use aeonetica::codec::{decode, encode};
use aeonetica::packets::{ClientMessage, ClientPacket, ServerMessage};
use aeonetica::transport::{Outgoing, SendMode};

#[test]
fn handles_are_created_called_and_removed() {
    let mut c = ClientMessenger::new();
    assert!(matches!(c.receive(ServerMessage::AddClientHandle(1, 50)), ClientEvent::CreateHandle(1, 50)));
    assert_eq!(c.handle_type(&1), Some(50));
    assert!(matches!(c.receive(ServerMessage::AddClientHandle(1, 51)), ClientEvent::Ignored));
    match c.receive(ServerMessage::ModMessage(1, 7, vec![4, 2])) {
        ClientEvent::Call(e, f, d) => assert_eq!((e, f, d), (1, 7, vec![4, 2])),
        other => panic!("unexpected {:?}", other),
    }
    assert!(matches!(c.receive(ServerMessage::RemoveClientHandle(1)), ClientEvent::RemoveHandle(1)));
    assert_eq!(c.handle_type(&1), None);
    assert!(matches!(c.receive(ServerMessage::RemoveClientHandle(1)), ClientEvent::Ignored));
}

#[test]
fn calls_for_entities_without_a_handle_are_ignored() {
    let mut c = ClientMessenger::new();
    assert!(matches!(c.receive(ServerMessage::ModMessage(2, 7, vec![])), ClientEvent::Ignored));
}

#[test]
fn other_messages_pass_through() {
    let mut c = ClientMessenger::new();
    match c.receive(ServerMessage::Kick("bye".to_string())) {
        ClientEvent::Other(ServerMessage::Kick(reason)) => assert_eq!(reason, "bye"),
        other => panic!("unexpected {:?}", other),
    }
}

#[test]
fn call_server_fn_builds_a_mod_message() {
    let c = ClientMessenger::new();
    let (conv, out) = c.call_server_fn(3, 4, 5, &"go".to_string(), SendMode::Quick);
    match out {
        Ok(Outgoing::Datagram(bytes)) => {
            let p = decode::<ClientPacket>(&bytes).unwrap();
            assert_eq!(
                p,
                ClientPacket {
                    client_id: 3,
                    conv_id: conv,
                    message: ClientMessage::ModMessage(4, 5, encode(&"go".to_string()))
                }
            );
        }
        other => panic!("unexpected {:?}", other),
    }
}
