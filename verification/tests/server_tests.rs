use wanhope::codec::{decode_chunk, decode_roster, decode_world};
use wanhope::net::NetAddr;
use wanhope::server::ServerState;
use wanhope::wire::ClientPacket;
use wanhope::world::{Player, Position, Tile, TileType, World, CHUNK_SIZE};

fn addr(ip: u128) -> NetAddr {
    NetAddr { ip, port: 4000 }
}

fn server(capacity: usize, timeout_ticks: u32) -> ServerState {
    ServerState::new(World::new(2, 2), capacity, timeout_ticks)
}

fn join_datagram(name: &str) -> Vec<u8> {
    let mut d = vec![ClientPacket::Join.to_byte()];
    d.extend_from_slice(name.as_bytes());
    d
}

#[test]
fn two_clients_join_in_order() {
    // the P7 shape: two slots, alice then bob
    let mut s = server(2, 300);
    let a = addr(1);
    let b = addr(2);

    let out = s.handle_datagram(a, &join_datagram("alice"));
    // a JoinResult back to alice, then the roster broadcast to her alone
    assert_eq!(out.len(), 2);
    assert_eq!(out[0].to, a);
    assert_eq!(out[0].bytes[0], 0); // JoinResult tag
    assert_eq!(out[0].bytes[1], 0); // slot 0
    let snapshot = decode_world(&out[0].bytes[2..]).expect("snapshot rides along");
    assert_eq!(snapshot.width, 2);
    assert_eq!(snapshot.height, 2);
    assert_eq!(out[1].to, a);
    assert_eq!(out[1].bytes[0], 1); // ClientJoin tag
    let roster = decode_roster(&out[1].bytes[1..]).expect("roster must decode");
    assert_eq!(roster, vec![Some(Player { username: "alice".to_string() }), None]);

    let out = s.handle_datagram(b, &join_datagram("bob"));
    // a JoinResult to bob, then the roster broadcast to both
    assert_eq!(out.len(), 3);
    assert_eq!(out[0].to, b);
    assert_eq!(out[0].bytes[0], 0);
    assert_eq!(out[0].bytes[1], 1); // slot 1
    let expected = || {
        vec![
            Some(Player { username: "alice".to_string() }),
            Some(Player { username: "bob".to_string() }),
        ]
    };
    assert_eq!(out[1].to, a);
    assert_eq!(decode_roster(&out[1].bytes[1..]), Some(expected()));
    assert_eq!(out[2].to, b);
    assert_eq!(decode_roster(&out[2].bytes[1..]), Some(expected()));
}

#[test]
fn join_on_a_full_server_is_dropped() {
    // the P2 shape: two slots, three joiners
    let mut s = server(2, 300);
    let out = s.handle_datagram(addr(1), &join_datagram("alice"));
    assert_eq!(out[0].bytes[1], 0);
    let out = s.handle_datagram(addr(2), &join_datagram("bob"));
    assert_eq!(out[0].bytes[1], 1);
    // distinct slots granted, lowest first
    assert!(s.slots[0].is_some() && s.slots[1].is_some());
    // third joiner: silently dropped, nothing mutated
    let out = s.handle_datagram(addr(3), &join_datagram("carol"));
    assert!(out.is_empty());
    assert_eq!(s.slots[0].unwrap().addr, addr(1));
    assert_eq!(s.slots[1].unwrap().addr, addr(2));
    assert_eq!(s.players[0], Some(Player { username: "alice".to_string() }));
    assert_eq!(s.players[1], Some(Player { username: "bob".to_string() }));
}

#[test]
fn leave_frees_the_slot_for_reuse() {
    // the P3 shape
    let mut s = server(2, 300);
    s.handle_datagram(addr(1), &join_datagram("alice"));
    s.handle_datagram(addr(2), &join_datagram("bob"));
    let out = s.handle_datagram(addr(1), &[ClientPacket::Leave.to_byte(), 0]);
    assert!(s.slots[0].is_none());
    assert!(s.players[0].is_none());
    // one ClientLeave to bob with the shrunken roster
    assert_eq!(out.len(), 1);
    assert_eq!(out[0].to, addr(2));
    assert_eq!(out[0].bytes[0], 2); // ClientLeave tag
    assert_eq!(
        decode_roster(&out[0].bytes[1..]),
        Some(vec![None, Some(Player { username: "bob".to_string() })])
    );
    // the freed slot is granted to the next joiner
    let out = s.handle_datagram(addr(3), &join_datagram("carol"));
    assert_eq!(out[0].bytes[1], 0);
    assert_eq!(s.players[0], Some(Player { username: "carol".to_string() }));
}

#[test]
fn leave_of_a_free_slot_is_a_noop() {
    let mut s = server(2, 300);
    s.handle_datagram(addr(1), &join_datagram("alice"));
    let out = s.handle_datagram(addr(9), &[ClientPacket::Leave.to_byte(), 1]);
    // slot 1 was already free; alice is untouched, and she hears the roster
    assert!(s.slots[0].is_some());
    assert_eq!(out.len(), 1);
    // an id beyond the pool is dropped outright
    let out = s.handle_datagram(addr(9), &[ClientPacket::Leave.to_byte(), 77]);
    assert!(out.is_empty());
    assert!(s.slots[0].is_some());
}

#[test]
fn wrong_source_host_mutates_nothing() {
    // the P4 shape: the claimed id's slot is on file with another host
    let mut s = server(2, 300);
    s.handle_datagram(addr(1), &join_datagram("alice"));
    s.tick(); // alice's clock moves to 1
    assert_eq!(s.slots[0].unwrap().last_heard, 1);

    let intruder = addr(42);
    // KeepAlive with a mismatched host: the clock is not reset
    s.handle_datagram(intruder, &[ClientPacket::KeepAlive.to_byte(), 0]);
    assert_eq!(s.slots[0].unwrap().last_heard, 1);
    // Chat with a mismatched host: nothing is sent
    let mut chat = vec![ClientPacket::Chat.to_byte(), 0];
    chat.extend_from_slice(b"hello");
    let out = s.handle_datagram(intruder, &chat);
    assert!(out.is_empty());
    // WorldClick with a mismatched host: no tile changes, nothing is sent
    let mut click = vec![ClientPacket::WorldClick.to_byte(), 0];
    click.extend_from_slice(&wanhope::codec::encode_position(&Position { x: 3, y: 3 }));
    let out = s.handle_datagram(intruder, &click);
    assert!(out.is_empty());
    assert_eq!(s.world.chunk_at(0, 0).tile_at(3, 3), Tile { ty: TileType::Grass });
    // the legitimate holder's KeepAlive still lands
    s.handle_datagram(addr(1), &[ClientPacket::KeepAlive.to_byte(), 0]);
    assert_eq!(s.slots[0].unwrap().last_heard, 0);
}

#[test]
fn quiet_slot_times_out_with_one_broadcast() {
    // the P5 shape: a timeout of three ticks
    let mut s = server(2, 3);
    s.handle_datagram(addr(1), &join_datagram("alice"));
    s.handle_datagram(addr(2), &join_datagram("bob"));
    // bob keeps signalling; alice goes quiet
    for tick in 1..=3u32 {
        let out = s.tick();
        assert!(out.is_empty());
        assert_eq!(s.slots[0].unwrap().last_heard, tick);
        s.handle_datagram(addr(2), &[ClientPacket::KeepAlive.to_byte(), 1]);
    }
    // the fourth tick pushes alice past the threshold
    let out = s.tick();
    assert!(s.slots[0].is_none());
    assert!(s.players[0].is_none());
    // exactly one ClientLeave, to bob alone, with the shrunken roster
    assert_eq!(out.len(), 1);
    assert_eq!(out[0].to, addr(2));
    assert_eq!(out[0].bytes[0], 2);
    assert_eq!(
        decode_roster(&out[0].bytes[1..]),
        Some(vec![None, Some(Player { username: "bob".to_string() })])
    );
    // bob is still there
    assert!(s.slots[1].is_some());
}

#[test]
fn keep_alive_defers_timeout() {
    let mut s = server(1, 2);
    s.handle_datagram(addr(1), &join_datagram("alice"));
    for _ in 0..10 {
        s.tick();
        s.handle_datagram(addr(1), &[ClientPacket::KeepAlive.to_byte(), 0]);
    }
    assert!(s.slots[0].is_some());
}

#[test]
fn out_of_range_click_changes_nothing() {
    // the P6 shape: a 2x2-chunk world spans [0, 24) x [0, 24)
    let mut s = server(2, 300);
    s.handle_datagram(addr(1), &join_datagram("alice"));
    let world_edge = 2 * CHUNK_SIZE;
    for p in [
        Position { x: world_edge, y: 0 },
        Position { x: 0, y: world_edge },
        Position { x: 1000, y: 1000 },
    ] {
        let mut click = vec![ClientPacket::WorldClick.to_byte(), 0];
        click.extend_from_slice(&wanhope::codec::encode_position(&p));
        let out = s.handle_datagram(addr(1), &click);
        assert!(out.is_empty());
    }
    // a malformed position payload is dropped too
    let out = s.handle_datagram(addr(1), &[ClientPacket::WorldClick.to_byte(), 0, 1, 2, 3]);
    assert!(out.is_empty());
    // no tile anywhere was touched
    for cx in 0..2 {
        for cy in 0..2 {
            for tx in 0..CHUNK_SIZE {
                for ty in 0..CHUNK_SIZE {
                    assert_eq!(
                        s.world.chunk_at(cx, cy).tile_at(tx, ty),
                        Tile { ty: TileType::Grass }
                    );
                }
            }
        }
    }
}

#[test]
fn click_mutates_one_tile_and_broadcasts_the_chunk() {
    // the P8 shape: alice clicks (3, 3); bob patches his copy by position
    let mut s = server(2, 300);
    let a = addr(1);
    let b = addr(2);
    s.handle_datagram(a, &join_datagram("alice"));
    let out = s.handle_datagram(b, &join_datagram("bob"));
    let mut bob_world = decode_world(&out[0].bytes[2..]).expect("bob's snapshot");

    let mut click = vec![ClientPacket::WorldClick.to_byte(), 0];
    click.extend_from_slice(&wanhope::codec::encode_position(&Position { x: 3, y: 3 }));
    let out = s.handle_datagram(a, &click);

    // the server's own world changed exactly there
    assert_eq!(s.world.chunk_at(0, 0).tile_at(3, 3), Tile { ty: TileType::Sand });
    assert_eq!(s.world.chunk_at(0, 0).tile_at(3, 4), Tile { ty: TileType::Grass });

    // both connected clients get the one modified chunk
    assert_eq!(out.len(), 2);
    assert_eq!(out[0].to, a);
    assert_eq!(out[1].to, b);
    assert_eq!(out[1].bytes[0], 4); // ChunkModified tag
    let chunk = decode_chunk(&out[1].bytes[1..]).expect("chunk must decode");
    assert_eq!(chunk.position, Position { x: 0, y: 0 });
    assert_eq!(chunk.tile_at(3, 3), Tile { ty: TileType::Sand });

    // bob locates and replaces exactly that chunk in his local copy
    assert!(bob_world.replace_chunk(chunk));
    assert_eq!(bob_world.chunk_at(0, 0).tile_at(3, 3), Tile { ty: TileType::Sand });
    assert_eq!(bob_world.chunk_at(0, 0).tile_at(3, 4), Tile { ty: TileType::Grass });
    assert_eq!(bob_world.chunk_at(1, 1).tile_at(3, 3), Tile { ty: TileType::Grass });
}

#[test]
fn chat_is_prefixed_and_echoed_to_everyone() {
    let mut s = server(2, 300);
    let a = addr(1);
    let b = addr(2);
    s.handle_datagram(a, &join_datagram("alice"));
    s.handle_datagram(b, &join_datagram("bob"));
    let mut chat = vec![ClientPacket::Chat.to_byte(), 0];
    chat.extend_from_slice(b"hi there");
    let out = s.handle_datagram(a, &chat);
    assert_eq!(out.len(), 2);
    assert_eq!(out[0].to, a);
    assert_eq!(out[1].to, b);
    assert_eq!(out[0].bytes[0], 3); // Chat tag
    assert_eq!(
        wanhope::codec::decode_text(&out[0].bytes[1..]),
        Some("alice: hi there".to_string())
    );
    assert_eq!(out[0].bytes, out[1].bytes);
}

#[test]
fn garbage_datagrams_are_dropped() {
    let mut s = server(2, 300);
    s.handle_datagram(addr(1), &join_datagram("alice"));
    // empty datagram, unknown tag, truncated headers, non-UTF-8 username
    assert!(s.handle_datagram(addr(9), &[]).is_empty());
    assert!(s.handle_datagram(addr(9), &[9, 1, 2]).is_empty());
    assert!(s.handle_datagram(addr(9), &[ClientPacket::Leave.to_byte()]).is_empty());
    assert!(s.handle_datagram(addr(9), &[ClientPacket::Chat.to_byte()]).is_empty());
    assert!(s.handle_datagram(addr(9), &[ClientPacket::Join.to_byte(), 0xFF, 0xFE]).is_empty());
    // alice is untouched
    assert_eq!(s.slots[0].unwrap().addr, addr(1));
    assert_eq!(s.players[0], Some(Player { username: "alice".to_string() }));
    assert!(s.slots[1].is_none());
}

#[test]
fn join_with_an_oversized_username_is_dropped() {
    // a username longer than its roster entry's length field can carry
    let mut s = server(1, 300);
    let mut d = vec![ClientPacket::Join.to_byte()];
    d.extend_from_slice(&vec![b'a'; 70_000]);
    let out = s.handle_datagram(addr(1), &d);
    assert!(out.is_empty());
    assert!(s.slots[0].is_none());
}

#[test]
fn server_accepts_any_decodable_username() {
    // the empty-username check is the client's; the server takes what decodes
    let mut s = server(1, 300);
    let out = s.handle_datagram(addr(1), &[ClientPacket::Join.to_byte()]);
    assert_eq!(out.len(), 2);
    assert_eq!(s.players[0], Some(Player { username: "".to_string() }));
}

#[test]
fn join_username_is_nul_trimmed() {
    let mut s = server(1, 300);
    let mut d = join_datagram("eve");
    d.extend_from_slice(&[0, 0, 0]); // padding as a fixed receive buffer would leave
    s.handle_datagram(addr(1), &d);
    assert_eq!(s.players[0], Some(Player { username: "eve".to_string() }));
}
