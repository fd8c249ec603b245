use aeonetica::codec::{decode, encode};
use aeonetica::ecs::{Entity, World};
use aeonetica::messaging::{Messenger, RoutingError};
use aeonetica::packets::{ClientMessage, ClientPacket};

type W = World<&'static str, fn(&str) -> String>;

fn shout(s: &str) -> String {
    s.to_uppercase()
}

fn call(entity: u128, function: u128, payload: Vec<u8>) -> ClientPacket {
    ClientPacket { client_id: 1, conv_id: 2, message: ClientMessage::ModMessage(entity, function, payload) }
}

#[test]
fn new_entity_is_empty_and_unique() {
    let mut w: W = World::new();
    let a = w.new_entity().unwrap();
    let b = w.new_entity().unwrap();
    assert_ne!(a, b);
    assert_eq!(w.ids(), vec![a, b]);
    assert!(w.get_entity(&a).unwrap().module_types().is_empty());
}

#[test]
fn an_entity_holds_one_module_per_type() {
    let mut e: Entity<&str, fn(&str) -> String> = Entity::new(9);
    assert!(e.add_module(1, "first"));
    assert!(!e.add_module(1, "second"));
    assert!(e.add_module(2, "other"));
    assert_eq!(e.get_module(1), Some(&"first"));
    assert_eq!(e.get_module(3), None);
    assert_eq!(e.module_types(), vec![1, 2]);
}

#[test]
fn adding_an_existing_id_replaces_the_entity() {
    let mut w: W = World::new();
    let mut first = Entity::new(5);
    first.add_module(1, "old");
    assert!(!w.add_entity(first));
    w.add_entity(Entity::new(6));
    let mut second = Entity::new(5);
    second.add_module(2, "new");
    assert!(w.add_entity(second));
    assert_eq!(w.ids(), vec![5, 6]);
    assert_eq!(w.get_module_of(&5, 1), None);
    assert_eq!(w.get_module_of(&5, 2), Some(&"new"));
}

#[test]
fn new_entity_on_an_empty_world_succeeds() {
    let mut w: W = World::new();
    let id = w.new_entity().unwrap();
    assert_eq!(w.ids(), vec![id]);
}

#[test]
fn modules_can_be_changed_in_place() {
    let mut e: Entity<u32, u8> = Entity::new(1);
    e.add_module(7, 10);
    *e.mut_module(7).unwrap() += 5;
    assert_eq!(e.get_module(7), Some(&15));
    assert!(e.mut_module(8).is_none());
    let mut w: World<u32, u8> = World::new();
    w.add_entity(e);
    *w.mut_module_of(&1, 7).unwrap() = 99;
    assert_eq!(w.get_module_of(&1, 7), Some(&99));
    assert!(w.mut_module_of(&1, 8).is_none());
    assert!(w.mut_module_of(&2, 7).is_none());
}

#[test]
fn remove_entity_reports_presence() {
    let mut w: W = World::new();
    w.add_entity(Entity::new(5));
    w.add_entity(Entity::new(6));
    assert!(w.remove_entity(&5));
    assert!(!w.remove_entity(&5));
    assert_eq!(w.ids(), vec![6]);
    assert!(w.get_entity(&5).is_none());
}

#[test]
fn tick_order_follows_entities_then_modules() {
    let mut w: W = World::new();
    let mut a = Entity::new(1);
    a.add_module(10, "x");
    a.add_module(11, "y");
    let mut b = Entity::new(2);
    b.add_module(12, "z");
    w.add_entity(a);
    w.add_entity(b);
    w.add_entity(Entity::new(3));
    assert_eq!(w.tick_order(), vec![(1, 10), (1, 11), (2, 12)]);
    assert_eq!(w.id_find_with(11), vec![1]);
    assert_eq!(w.get_module_of(&2, 12), Some(&"z"));
    assert_eq!(w.get_module_of(&3, 12), None);
}

#[test]
fn mut_entity_changes_the_stored_entity() {
    let mut w: W = World::new();
    w.add_entity(Entity::new(1));
    assert!(w.mut_entity(&1).unwrap().add_module(4, "late"));
    assert_eq!(w.get_module_of(&1, 4), Some(&"late"));
    assert!(w.mut_entity(&2).is_none());
}

#[test]
fn dispatch_reaches_the_registered_receiver_with_the_argument() {
    let mut w: W = World::new();
    let mut e = Entity::new(1);
    let mut m: Messenger<fn(&str) -> String> = Messenger::new(0);
    m.register_receiver(77, shout);
    assert!(e.add_messenger(m));
    assert_eq!(e.messenger().unwrap().entity_id(), 1);
    w.add_entity(e);
    let packet = call(1, 77, encode(&"hi there".to_string()));
    let handler = w.dispatch(&packet).unwrap();
    let arg = match &packet.message {
        ClientMessage::ModMessage(_, _, payload) => decode::<String>(payload).unwrap(),
        _ => unreachable!(),
    };
    assert_eq!(arg, "hi there");
    assert_eq!(handler(&arg), "HI THERE");
}

#[test]
fn unknown_routes_are_refused() {
    let mut w: W = World::new();
    let mut e = Entity::new(1);
    e.add_messenger(Messenger::new(0));
    w.add_entity(e);
    w.add_entity(Entity::new(2));
    assert_eq!(w.dispatch(&call(1, 99, vec![])).unwrap_err(), RoutingError::UnknownFunction(99));
    assert_eq!(w.dispatch(&call(2, 99, vec![])).unwrap_err(), RoutingError::NoMessenger(2));
    assert_eq!(w.dispatch(&call(3, 99, vec![])).unwrap_err(), RoutingError::UnknownEntity(3));
    let login = ClientPacket { client_id: 1, conv_id: 2, message: ClientMessage::Login };
    assert_eq!(w.dispatch(&login).unwrap_err(), RoutingError::NotACall);
    assert!(w.get_entity(&1).unwrap().messenger().unwrap().receiver(99).is_err());
}

#[test]
fn second_messenger_is_refused() {
    let mut e: Entity<&str, u8> = Entity::new(1);
    assert!(e.add_messenger(Messenger::new(1)));
    assert!(!e.add_messenger(Messenger::new(2)));
    assert_eq!(e.messenger().unwrap().handle_type(), 1);
    e.messenger_mut().unwrap().register_receiver(3, 4);
    assert_eq!(e.messenger().unwrap().receiver(3), Ok(&4));
}
