use presunto_e_queijo::addr::{IpAddress, PeerAddr, DEFAULT_PORT};
use presunto_e_queijo::client::{initial_addresses, named_peers, Client, ClientOpts, Reaction};
use presunto_e_queijo::message::PizzaMessage;
use presunto_e_queijo::peers::PeerTable;
use presunto_e_queijo::ui::{Event, Request};

fn v4(ip: u32, port: u16) -> PeerAddr {
    PeerAddr::V4 { ip, port }
}

fn client() -> Client {
    Client::new(ClientOpts { port: 2504, username: "me".to_string() })
}

#[test]
fn new_client_has_no_peers() {
    let c = client();
    assert_eq!(c.username(), "me");
    assert!(c.peers().is_empty());
}

#[test]
fn connected_peer_is_announced_without_name() {
    let mut c = client();
    let a = v4(1, 5000);
    match c.peer_connected(a) {
        Event::UserConnected { at, username: None } => assert_eq!(at, a),
        _ => panic!("expected a connection"),
    }
    assert!(c.peers().contains_key(&a));
    assert_eq!(c.peers().get(&a), Some(&None));
}

#[test]
fn name_is_news_once() {
    let mut c = client();
    let a = v4(1, 5000);
    c.peer_connected(a);
    match c.set_name(a, "bob".to_string()) {
        Some(Event::UpdateUserName { at, new_username }) => {
            assert_eq!(at, a);
            assert_eq!(new_username, "bob");
        }
        _ => panic!("expected a rename"),
    }
    assert!(c.set_name(a, "bob".to_string()).is_none());
    assert_eq!(c.peers().get(&a), Some(&Some("bob".to_string())));
}

#[test]
fn name_of_unknown_peer_is_ignored() {
    let mut c = client();
    assert!(c.set_name(v4(9, 1), "eve".to_string()).is_none());
    assert!(c.peers().is_empty());
}

#[test]
fn connect_then_disconnect_leaves_table_as_it_was() {
    let mut c = client();
    let a = v4(1, 5000);
    let b = v4(2, 5000);
    c.peer_connected(a);
    c.set_name(a, "ann".to_string());
    c.peer_connected(b);
    match c.handle_disconnect_of(b) {
        Event::UserDisconnected { at, username: None } => assert_eq!(at, b),
        _ => panic!("expected a disconnection"),
    }
    assert_eq!(c.peers().addrs(), vec![a]);
    assert_eq!(c.peers().get(&a), Some(&Some("ann".to_string())));
}

#[test]
fn disconnect_reports_the_name() {
    let mut c = client();
    let a = v4(1, 5000);
    c.peer_connected(a);
    c.set_name(a, "ann".to_string());
    match c.handle_disconnect_of(a) {
        Event::UserDisconnected { at, username: Some(name) } => {
            assert_eq!(at, a);
            assert_eq!(name, "ann");
        }
        _ => panic!("expected a disconnection"),
    }
    assert!(c.peers().is_empty());
}

#[test]
fn text_is_shown_under_the_peer_name() {
    let mut c = client();
    let a = v4(1, 5000);
    c.peer_connected(a);
    c.set_name(a, "ann".to_string());
    match c.handle_message(a, PizzaMessage::Text { body: "hello".to_string() }) {
        Reaction::Notify(Event::NewMessage { at, username: Some(name), message }) => {
            assert_eq!(at, a);
            assert_eq!(name, "ann");
            assert_eq!(message, "hello");
        }
        _ => panic!("expected a message"),
    }
}

#[test]
fn set_name_message_reacts() {
    let mut c = client();
    let a = v4(1, 5000);
    c.peer_connected(a);
    assert!(matches!(
        c.handle_message(a, PizzaMessage::SetName { name: "zed".to_string() }),
        Reaction::Notify(Event::UpdateUserName { .. })
    ));
    assert!(matches!(
        c.handle_message(a, PizzaMessage::SetName { name: "zed".to_string() }),
        Reaction::Nothing
    ));
}

#[test]
fn announced_peers_are_new_addresses_at_default_port() {
    let mut c = client();
    let known = v4(0x0a00_0001, DEFAULT_PORT);
    c.peer_connected(known);
    let r = c.handle_message(
        v4(0x0a00_0001, DEFAULT_PORT),
        PizzaMessage::NewPeers { ipv4: vec![0x0a00_0001, 0x0a00_0002, 0x0a00_0002], ipv6: vec![5] },
    );
    match r {
        Reaction::Connect(addrs) => assert_eq!(
            addrs,
            vec![
                v4(0x0a00_0002, 2504),
                v4(0x0a00_0002, 2504),
                PeerAddr::V6 { ip: 5, port: 2504, flowinfo: 0, scope_id: 0 },
            ]
        ),
        _ => panic!("expected addresses"),
    }
}

#[test]
fn handshake_names_user_and_lists_peers() {
    let mut c = client();
    c.peer_connected(v4(1, 10));
    c.peer_connected(PeerAddr::V6 { ip: 2, port: 11, flowinfo: 0, scope_id: 3 });
    c.peer_connected(v4(3, 12));
    let (name, peers) = c.handshake();
    match name {
        PizzaMessage::SetName { name } => assert_eq!(name, "me"),
        _ => panic!("expected a name"),
    }
    match peers {
        PizzaMessage::NewPeers { ipv4, ipv6 } => {
            assert_eq!(ipv4, vec![1, 3]);
            assert_eq!(ipv6, vec![2]);
        }
        _ => panic!("expected peers"),
    }
}

#[test]
fn requests_become_broadcasts() {
    let c = client();
    match c.handle_ui_request(Request::SendMessage { body: "yo".to_string() }) {
        PizzaMessage::Text { body } => assert_eq!(body, "yo"),
        _ => panic!("expected a text"),
    }
    match c.handle_ui_request(Request::ChangeName { name: "new".to_string() }) {
        PizzaMessage::SetName { name } => assert_eq!(name, "new"),
        _ => panic!("expected a name"),
    }
    assert_eq!(c.username(), "me");
}

#[test]
fn initial_peers_and_their_names() {
    let initial = vec![(Some("a".to_string()), v4(1, 1)), (None, v4(2, 2)), (Some("c".to_string()), v4(3, 3))];
    assert_eq!(initial_addresses(&initial), vec![v4(1, 1), v4(2, 2), v4(3, 3)]);
    assert_eq!(
        named_peers(&initial),
        vec![(v4(1, 1), "a".to_string()), (v4(3, 3), "c".to_string())]
    );
}

#[test]
fn fresh_addresses_drop_connected_ones() {
    let mut c = client();
    c.peer_connected(v4(1, 1));
    assert_eq!(c.fresh_addresses(vec![v4(1, 1), v4(1, 2), v4(1, 1)]), vec![v4(1, 2)]);
}

#[test]
fn table_insert_replaces_and_remove_keeps_order() {
    let mut t = PeerTable::new();
    t.insert(v4(1, 1), None);
    t.insert(v4(2, 2), None);
    t.insert(v4(3, 3), None);
    t.insert(v4(2, 2), Some("two".to_string()));
    assert_eq!(t.len(), 3);
    assert_eq!(t.remove(&v4(1, 1)), Some(None));
    assert_eq!(t.remove(&v4(1, 1)), None);
    assert_eq!(t.addrs(), vec![v4(2, 2), v4(3, 3)]);
    assert_eq!(t.get(&v4(2, 2)), Some(&Some("two".to_string())));
}

#[test]
fn address_parts() {
    let a = PeerAddr::new(IpAddress::V6(9), 80);
    assert_eq!(a, PeerAddr::V6 { ip: 9, port: 80, flowinfo: 0, scope_id: 0 });
    assert_eq!(a.ip(), IpAddress::V6(9));
    assert_eq!(a.port(), 80);
}
