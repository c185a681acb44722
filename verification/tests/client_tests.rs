use wanhope::client::{decode_server_message, parse_addr, ClientSession, NetworkError, SessionState};
use wanhope::codec::encode_world;
use wanhope::net::NetAddr;
use wanhope::wire::ServerPacket;
use wanhope::world::{Position, World};

#[test]
fn fresh_session_defaults() {
    let s = ClientSession::new();
    assert_eq!(s.ip, "127.0.0.1:8080");
    assert_eq!(s.username, "");
    assert!(matches!(s.state, SessionState::Disconnected));
    assert_eq!(s.client_id, None);
    assert_eq!(s.keep_alive_timer, 0);
}

#[test]
fn parse_addr_accepts_dotted_quads() {
    assert_eq!(
        parse_addr(b"127.0.0.1:8080"),
        Some(NetAddr { ip: 0x7F000001, port: 8080 })
    );
    assert_eq!(
        parse_addr(b"192.168.0.1:4000"),
        Some(NetAddr { ip: 0xC0A80001, port: 4000 })
    );
    assert_eq!(parse_addr(b"0.0.0.0:0"), Some(NetAddr { ip: 0, port: 0 }));
    assert_eq!(
        parse_addr(b"255.255.255.255:65535"),
        Some(NetAddr { ip: 0xFFFFFFFF, port: 65535 })
    );
}

#[test]
fn parse_addr_rejects_malformed_endpoints() {
    assert_eq!(parse_addr(b""), None);
    assert_eq!(parse_addr(b"nonsense"), None);
    assert_eq!(parse_addr(b"1.2.3.4"), None); // no port
    assert_eq!(parse_addr(b"1.2.3:80"), None); // three groups
    assert_eq!(parse_addr(b"1.2.3.4.5:80"), None); // five groups
    assert_eq!(parse_addr(b"256.0.0.1:80"), None); // group out of range
    assert_eq!(parse_addr(b"1.2.3.4:65536"), None); // port out of range
    assert_eq!(parse_addr(b"1..3.4:80"), None); // empty group
    assert_eq!(parse_addr(b"1.2.3.4:"), None); // empty port
    assert_eq!(parse_addr(b"1.2.3.4:80x"), None); // trailing junk
}

#[test]
fn join_requires_a_username() {
    let mut s = ClientSession::new();
    assert_eq!(s.join_request(), Err(NetworkError::EmptyUsername));
    assert!(matches!(s.state, SessionState::Disconnected));
}

#[test]
fn join_requires_a_parsable_address() {
    let mut s = ClientSession::new();
    s.username = "alice".to_string();
    s.ip = "not-an-address".to_string();
    assert_eq!(s.join_request(), Err(NetworkError::InvalidAddress));
    assert!(matches!(s.state, SessionState::Disconnected));
}

#[test]
fn join_produces_the_join_datagram() {
    let mut s = ClientSession::new();
    s.username = "alice".to_string();
    let d = s.join_request().expect("join must start").expect("a datagram goes out");
    assert_eq!(d[0], 0); // Join tag
    assert_eq!(&d[1..], b"alice");
    assert!(matches!(s.state, SessionState::Connecting));
    assert_eq!(
        s.remote_addr(),
        Some(NetAddr { ip: 0x7F000001, port: 8080 })
    );
}

#[test]
fn join_reply_with_slot_connects() {
    let mut s = ClientSession::new();
    s.username = "alice".to_string();
    s.join_request().unwrap();
    let world = World::new(2, 2);
    let mut reply = vec![ServerPacket::JoinResult.to_byte(), 5];
    reply.extend_from_slice(&encode_world(&world));
    let (id, w) = s.handle_join_reply(&reply).expect("the server let us in");
    assert_eq!(id, 5);
    let w = w.expect("the snapshot decodes");
    assert_eq!(w.width, 2);
    assert_eq!(w.height, 2);
    assert!(matches!(s.state, SessionState::Connected));
    assert_eq!(s.client_id, Some(5));
}

#[test]
fn bare_join_reply_means_no_room() {
    let mut s = ClientSession::new();
    s.username = "alice".to_string();
    s.join_request().unwrap();
    // a reply of just the tag byte carries no slot: the server said no
    assert!(s.handle_join_reply(&[ServerPacket::JoinResult.to_byte()]).is_none());
    assert!(matches!(s.state, SessionState::Connecting));
    assert_eq!(s.client_id, None);
    // a reply with some other tag is not a join answer at all
    assert!(s.handle_join_reply(&[ServerPacket::Chat.to_byte(), 1]).is_none());
    assert!(matches!(s.state, SessionState::Connecting));
}

fn connected_session(id: u8) -> ClientSession {
    let mut s = ClientSession::new();
    s.username = "alice".to_string();
    s.join_request().unwrap();
    s.handle_join_reply(&[ServerPacket::JoinResult.to_byte(), id]);
    s
}

#[test]
fn leave_sends_the_held_id_and_disconnects() {
    let mut s = connected_session(3);
    let d = s.leave().expect("a Leave goes out");
    assert_eq!(d, vec![1, 3]);
    assert!(matches!(s.state, SessionState::Disconnected));
    assert_eq!(s.client_id, None);
    // leaving again has nothing to send
    assert!(s.leave().is_none());
}

#[test]
fn keep_alive_fires_every_period() {
    let mut s = connected_session(7);
    // counted in calls: nothing for the first period's worth
    for _ in 0..500 {
        assert!(s.keep_alive_tick().is_none());
    }
    assert_eq!(s.keep_alive_timer, 500);
    let d = s.keep_alive_tick().expect("the periodic KeepAlive");
    assert_eq!(d, vec![2, 7]);
    assert_eq!(s.keep_alive_timer, 1);
}

#[test]
fn keep_alive_is_silent_when_disconnected() {
    let mut s = ClientSession::new();
    for _ in 0..600 {
        assert!(s.keep_alive_tick().is_none());
    }
    assert_eq!(s.keep_alive_timer, 0);
}

#[test]
fn sends_before_join_are_noops() {
    let s = ClientSession::new();
    assert!(s.send_chat_message("hello").is_none());
    assert!(s.send_client_world_click(&Position { x: 1, y: 2 }).is_none());
}

#[test]
fn chat_and_click_are_framed_with_the_id() {
    let s = connected_session(9);
    let d = s.send_chat_message("hi").expect("chat goes out");
    assert_eq!(d[0], 3); // Chat tag
    assert_eq!(d[1], 9);
    assert_eq!(&d[2..], b"hi");
    let d = s.send_client_world_click(&Position { x: 3, y: 3 }).expect("click goes out");
    assert_eq!(d[0], 4); // WorldClick tag
    assert_eq!(d[1], 9);
    assert_eq!(&d[2..], &[3, 0, 0, 0, 3, 0, 0, 0]);
}

#[test]
fn server_messages_split_into_tag_and_payload() {
    let (tag, payload) = decode_server_message(&[3, b'h', b'i']);
    assert_eq!(tag, Some(ServerPacket::Chat));
    assert_eq!(payload, b"hi".to_vec());
    let (tag, payload) = decode_server_message(&[]);
    assert_eq!(tag, None);
    assert!(payload.is_empty());
    // an unknown tag is surfaced as none, payload preserved
    let (tag, payload) = decode_server_message(&[9, 1]);
    assert_eq!(tag, None);
    assert_eq!(payload, vec![1]);
}
