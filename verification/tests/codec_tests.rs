use wanhope::codec::{
    decode_position, decode_roster, decode_text, decode_world, encode_position, encode_roster,
    encode_world, tile_byte, tile_from_byte, trim_nul,
};
use wanhope::wire::{ClientPacket, ServerPacket};
use wanhope::world::{Player, Position, Tile, TileType, World, CHUNK_SIZE};

#[test]
fn position_encodes_little_endian() {
    let p = Position { x: 1, y: 0x0203 };
    let b = encode_position(&p);
    assert_eq!(b, vec![1, 0, 0, 0, 3, 2, 0, 0]);
}

#[test]
fn position_round_trip() {
    let p = Position { x: 123456, y: 789 };
    let b = encode_position(&p);
    assert_eq!(decode_position(&b), Some(p));
}

#[test]
fn position_wrong_length_is_garbage() {
    assert_eq!(decode_position(&[1, 2, 3]), None);
    assert_eq!(decode_position(&[]), None);
    assert_eq!(decode_position(&[0; 9]), None);
}

#[test]
fn tile_bytes() {
    assert_eq!(tile_byte(Tile { ty: TileType::Grass }), 0);
    assert_eq!(tile_byte(Tile { ty: TileType::Sand }), 1);
    assert_eq!(tile_from_byte(0), Some(Tile { ty: TileType::Grass }));
    assert_eq!(tile_from_byte(1), Some(Tile { ty: TileType::Sand }));
    assert_eq!(tile_from_byte(2), None);
    assert_eq!(tile_from_byte(255), None);
}

#[test]
fn chunk_round_trip() {
    let mut c = wanhope::world::Chunk::new(Position { x: 1, y: 2 });
    c.set_tile(3, 4, Tile { ty: TileType::Sand });
    c.set_tile(0, 0, Tile { ty: TileType::Sand });
    let b = wanhope::codec::encode_chunk(&c);
    assert_eq!(b.len(), 8 + CHUNK_SIZE * CHUNK_SIZE);
    let d = wanhope::codec::decode_chunk(&b).expect("chunk must decode");
    assert_eq!(d.position, Position { x: 1, y: 2 });
    for x in 0..CHUNK_SIZE {
        for y in 0..CHUNK_SIZE {
            assert_eq!(d.tile_at(x, y), c.tile_at(x, y));
        }
    }
    assert_eq!(d.tile_at(3, 4), Tile { ty: TileType::Sand });
}

#[test]
fn chunk_bad_tile_byte_is_garbage() {
    let c = wanhope::world::Chunk::new(Position { x: 0, y: 0 });
    let mut b = wanhope::codec::encode_chunk(&c);
    b[8] = 7;
    assert!(wanhope::codec::decode_chunk(&b).is_none());
    let short = vec![0u8; 10];
    assert!(wanhope::codec::decode_chunk(&short).is_none());
}

#[test]
fn world_round_trip() {
    let mut w = World::new(2, 3);
    w.set_global_tile(13, 25, Tile { ty: TileType::Sand });
    let b = encode_world(&w);
    assert_eq!(b.len(), 8 + 2 * 3 * (8 + 144));
    let d = decode_world(&b).expect("world must decode");
    assert_eq!(d.width, 2);
    assert_eq!(d.height, 3);
    // world tile (13, 25) lives in chunk (1, 2) at tile (1, 1)
    let c = d.chunk_at(1, 2);
    assert_eq!(c.position, Position { x: 1, y: 2 });
    assert_eq!(c.tile_at(1, 1), Tile { ty: TileType::Sand });
    assert_eq!(c.tile_at(0, 0), Tile { ty: TileType::Grass });
    assert_eq!(d.chunk_at(0, 0).tile_at(1, 1), Tile { ty: TileType::Grass });
}

#[test]
fn world_truncated_is_garbage() {
    let w = World::new(1, 1);
    let mut b = encode_world(&w);
    b.pop();
    assert!(decode_world(&b).is_none());
    assert!(decode_world(&[1, 0, 0, 0]).is_none());
}

#[test]
fn world_mismatched_chunk_position_is_garbage() {
    let w = World::new(1, 2);
    let mut b = encode_world(&w);
    // corrupt the first chunk's position: x = 5
    b[8] = 5;
    assert!(decode_world(&b).is_none());
}

#[test]
fn roster_round_trip() {
    let roster = vec![
        Some(Player { username: "alice".to_string() }),
        None,
        Some(Player { username: "bob".to_string() }),
    ];
    let b = encode_roster(&roster);
    assert_eq!(b[0], 3);
    let d = decode_roster(&b).expect("roster must decode");
    assert_eq!(d, roster);
}

#[test]
fn roster_empty_round_trip() {
    let roster: Vec<Option<Player>> = Vec::new();
    let b = encode_roster(&roster);
    assert_eq!(b, vec![0]);
    assert_eq!(decode_roster(&b), Some(Vec::new()));
}

#[test]
fn roster_garbage_is_rejected() {
    // empty input
    assert!(decode_roster(&[]).is_none());
    // count says one entry, nothing follows
    assert!(decode_roster(&[1]).is_none());
    // unknown entry marker
    assert!(decode_roster(&[1, 7]).is_none());
    // length prefix runs past the end
    assert!(decode_roster(&[1, 1, 5, 0, b'a']).is_none());
    // trailing bytes after the last entry
    assert!(decode_roster(&[1, 0, 9]).is_none());
    // username is not UTF-8
    assert!(decode_roster(&[1, 1, 1, 0, 0xFF]).is_none());
}

#[test]
fn trim_nul_strips_both_ends() {
    assert_eq!(trim_nul(&[0, 0, b'h', b'i', 0]), vec![b'h', b'i']);
    assert_eq!(trim_nul(&[b'h', 0, b'i']), vec![b'h', 0, b'i']);
    assert_eq!(trim_nul(&[0, 0, 0]), Vec::<u8>::new());
    assert_eq!(trim_nul(&[]), Vec::<u8>::new());
}

#[test]
fn decode_text_trims_and_decodes() {
    assert_eq!(decode_text(&[0, b'h', b'i', 0, 0]), Some("hi".to_string()));
    // multi-byte UTF-8 comes back as characters, not the raw bytes
    assert_eq!(decode_text(&[0xC3, 0xA9]), Some("\u{e9}".to_string()));
    // invalid UTF-8 is dropped
    assert_eq!(decode_text(&[0xFF, 0xFE]), None);
}

#[test]
fn client_tags_round_trip() {
    let tags = [
        ClientPacket::Join,
        ClientPacket::Leave,
        ClientPacket::KeepAlive,
        ClientPacket::Chat,
        ClientPacket::WorldClick,
    ];
    for (i, t) in tags.iter().enumerate() {
        assert_eq!(t.to_byte() as usize, i);
        assert_eq!(ClientPacket::from_byte(i as u8), Some(*t));
    }
    assert_eq!(ClientPacket::from_byte(5), None);
    assert_eq!(ClientPacket::from_byte(255), None);
}

#[test]
fn server_tags_round_trip() {
    let tags = [
        ServerPacket::JoinResult,
        ServerPacket::ClientJoin,
        ServerPacket::ClientLeave,
        ServerPacket::Chat,
        ServerPacket::ChunkModified,
    ];
    for (i, t) in tags.iter().enumerate() {
        assert_eq!(t.to_byte() as usize, i);
        assert_eq!(ServerPacket::from_byte(i as u8), Some(*t));
    }
    assert_eq!(ServerPacket::from_byte(5), None);
}
